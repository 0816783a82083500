use mux_server::consent::{
    decisions_of, entries_of, ledger_approves, load_server_consent, load_server_consent_raw,
    server_consent_path, set_consent, startup_refusal, with_consent, ServerConsentRecord,
    ServerConsentState, StartupRefusal,
};
use mux_server::extension_events::{emit_notification, layout_json, ServerEvent, WireTree};
use mux_server::extension_install::{
    check_action_request, check_install_request, check_manifest, check_staged, check_unpacked,
    detect_violation, finish_operation, host_step, validate_extension_id, ExtractBudget, HostNext,
    HostWork, ManifestFacts, RuntimeSide, WorkerWork, MAX_EXTENSION_ID_LEN, MAX_EXTRACTED_BYTES,
    MAX_INSTALL_ARCHIVE_BYTES,
};
use mux_server::extension_manager::{
    suspension_notice_json, view_id_of, ActionOutcome, ChromeView, Effects, ExtensionManager,
    RenderOutcome, RenderReply, SuspensionReason, WorkerEvent, WorkerReady,
};
use mux_server::grid_sync::{Cell, CellStyle, RowChange, UnderlineStyle};
use mux_server::host_answers::{
    capture_text, check_file, fetch_answer, fetch_body, fetch_method, list_entries,
    process_answer, EntryKind, FoundEntry,
};
use mux_server::host_bridge::{
    FileRoot, FilesystemAccess, HostAction, HostLimits, ServerHostBridge,
};
use mux_server::host_settings::{
    check_size, read_server_setting, setting_in, split_key, with_setting, write_server_setting,
    SettingsError,
};
use mux_server::json::{entry, object1, object2, Json, Member};
use mux_server::json_documents::{
    parse, parse_bytes, read_member, read_number, write_compact, write_pretty,
};
use mux_server::layout::{LayoutTree, SplitDirection};
use mux_server::layout_wire::layout_tree_to_wire;
use mux_server::session::{PaneRecord, Session};

fn limits() -> HostLimits {
    HostLimits {
        url_bytes: 8192,
        file_bytes: 1024,
        dir_entries: 4,
    }
}

fn text(value: &str) -> Json {
    Json::Text(value.to_string())
}

fn no_args() -> Json {
    Json::List(Vec::new())
}

fn written(value: &Json) -> String {
    format!("{value:?}")
}

fn sessions() -> Vec<Session> {
    vec![Session::new(
        "s1".to_string(),
        "test".to_string(),
        "/tmp".to_string(),
        17,
    )]
}

fn sessions_with_pane() -> Vec<Session> {
    let mut sessions = sessions();
    sessions[0].panes.push(PaneRecord {
        id: "pane-1".to_string(),
        cwd: "/tmp".to_string(),
        title: "cat".to_string(),
        command: None,
        cols: 80,
        rows: 24,
        generation: 0,
        is_alive: true,
        zoomed: false,
    });
    sessions
}

#[test]
fn validate_extension_id_rejects_unsafe_names() {
    assert!(validate_extension_id("demo").is_ok());
    for bad in ["", ".", "..", "a/b", "a\\b", "a\x00b", "a\nb"] {
        assert!(
            validate_extension_id(bad).is_err(),
            "{bad:?} must be rejected"
        );
    }
    let long = "x".repeat(MAX_EXTENSION_ID_LEN + 1);
    assert!(validate_extension_id(&long).is_err());
}

#[test]
fn bridge_lists_sessions_and_rejects_unknown_methods() {
    let sessions = sessions();
    let bridge = ServerHostBridge::new(FilesystemAccess::Nothing);

    let listed = match bridge.call("mux.listSessions", &no_args(), &sessions, limits()) {
        Ok(HostAction::Answer(value)) => value,
        other => panic!("expected an answer, got {other:?}"),
    };
    let listed = listed.item(0).expect("one session");
    assert_eq!(listed.get("id").and_then(Json::as_str), Some("s1"));
    assert_eq!(listed.get("name").and_then(Json::as_str), Some("test"));
    assert_eq!(listed.get("cwd").and_then(Json::as_str), Some("/tmp"));
    assert_eq!(listed.get("clients").and_then(Json::as_u64), Some(0));
    assert_eq!(
        listed.get("createdTimestamp").and_then(Json::as_u64),
        Some(17)
    );
    match listed {
        Json::Object(members) => assert_eq!(members.len(), 5),
        other => panic!("expected an object, got {other:?}"),
    }

    assert!(bridge
        .call("mux.listSessions", &no_args(), &sessions, limits())
        .is_ok());
    let error = bridge
        .call("process.spawn", &no_args(), &sessions, limits())
        .unwrap_err();
    assert!(error.contains("`process.spawn` requires"), "error={error}");
    let error = bridge
        .call(
            "filesystem.readTextFile",
            &Json::List(vec![text("note.txt")]),
            &sessions,
            limits(),
        )
        .unwrap_err();
    assert!(error.contains("not granted"), "error={error}");
    let error = bridge
        .call("foo.bar", &no_args(), &sessions, limits())
        .unwrap_err();
    assert!(error.contains("unknown host method"));
    let error = bridge
        .call("mux.sendInput", &no_args(), &sessions, limits())
        .unwrap_err();
    assert!(error.contains("mux.sendInput"));
}

#[test]
fn bridge_turns_requests_into_actions() {
    let sessions = sessions_with_pane();
    let bridge = ServerHostBridge::with_roots(
        "/home/me".to_string(),
        "/work".to_string(),
        FilesystemAccess::Cwd,
    );
    let call = |method: &str, args: Vec<Json>| {
        bridge.call(method, &Json::List(args), &sessions, limits())
    };
    match call("mux.listPanes", vec![]) {
        Ok(HostAction::Answer(panes)) => {
            let pane = panes.item(0).expect("one pane");
            assert_eq!(pane.get("paneId").and_then(Json::as_str), Some("pane-1"));
            assert_eq!(pane.get("sessionId").and_then(Json::as_str), Some("s1"));
        }
        other => panic!("{other:?}"),
    }
    match call("mux.listPanes", vec![text("s2")]) {
        Ok(HostAction::Answer(Json::List(panes))) => assert!(panes.is_empty()),
        other => panic!("{other:?}"),
    }
    assert!(matches!(
        call("mux.focusedPane", vec![]),
        Ok(HostAction::Answer(Json::Null))
    ));
    match call("terminal.write", vec![text("pane-1"), text("ls\n")]) {
        Ok(HostAction::SendInput { pane_id, data }) => {
            assert_eq!((pane_id.as_str(), data.as_str()), ("pane-1", "ls\n"));
        }
        other => panic!("{other:?}"),
    }
    assert_eq!(
        call("terminal.write", vec![text("pane-9"), text("ls\n")]).unwrap_err(),
        "pane not found: pane-9"
    );
    match call("mux.capturePane", vec![text("pane-1")]) {
        Ok(HostAction::Capture { count, .. }) => assert_eq!(count, 100),
        other => panic!("{other:?}"),
    }
    match call("mux.capturePane", vec![text("pane-1"), Json::Whole(3)]) {
        Ok(HostAction::Capture { count, .. }) => assert_eq!(count, 3),
        other => panic!("{other:?}"),
    }
    match call("settings.set", vec![text("a.b")]) {
        Ok(HostAction::SetSetting { key, value }) => {
            assert_eq!(key, "a.b");
            assert!(matches!(value, Json::Null));
        }
        other => panic!("{other:?}"),
    }
    assert!(matches!(
        call("workspace.getPath", vec![]),
        Ok(HostAction::WorkspacePath)
    ));
    match call("filesystem.readTextFile", vec![text("src/main.js")]) {
        Ok(HostAction::ReadTextFile { root, path }) => {
            assert_eq!(root, FileRoot::Cwd);
            assert_eq!(path, "src/main.js");
            assert_eq!(bridge.root_dir(root, None, None).unwrap(), "/work");
        }
        other => panic!("{other:?}"),
    }
    assert!(matches!(
        call("filesystem.readDir", vec![text("src")]),
        Ok(HostAction::ReadDir { .. })
    ));
    assert_eq!(
        call("network.fetch", vec![text(&"x".repeat(8193))]).unwrap_err(),
        "network URL exceeds 8192 bytes"
    );
    match call(
        "process.spawn",
        vec![text("ls"), Json::List(vec![text("-l"), text("-a")])],
    ) {
        Ok(HostAction::Spawn {
            command, arguments, ..
        }) => {
            assert_eq!(command, "ls");
            assert_eq!(arguments, vec!["-l", "-a"]);
        }
        other => panic!("{other:?}"),
    }
    assert_eq!(
        call(
            "process.spawn",
            vec![text("ls"), Json::List(vec![Json::Bool(true)])]
        )
        .unwrap_err(),
        "process arguments must be strings"
    );
}

#[test]
fn roots_come_from_the_process_where_none_was_given() {
    let bridge = ServerHostBridge::new(FilesystemAccess::Home);
    assert_eq!(
        bridge
            .root_dir(FileRoot::Home, Some("/home/me".to_string()), None)
            .unwrap(),
        "/home/me"
    );
    assert_eq!(
        bridge.root_dir(FileRoot::Cwd, None, None).unwrap_err(),
        "host working directory unavailable"
    );
    assert_eq!(
        bridge.root_dir(FileRoot::Home, None, None).unwrap_err(),
        "host home directory unavailable"
    );
    let given = ServerHostBridge::with_home("/h".to_string(), FilesystemAccess::Home);
    assert_eq!(
        given
            .root_dir(FileRoot::Home, Some("/home/me".to_string()), None)
            .unwrap(),
        "/h"
    );
}

fn cell(character: &str) -> Cell {
    Cell {
        character: character.to_string(),
        style: CellStyle {
            bold: false,
            italic: false,
            underline: UnderlineStyle::NotUnderlined,
            strikethrough: false,
            dim: false,
            reverse: false,
            underline_color: None,
            wide_char: false,
            wide_char_spacer: false,
            leading_wide_char_spacer: false,
            wrapline: false,
            hidden: false,
        },
        foreground: 0,
        background: 0,
        zerowidth: String::new(),
        hyperlink: None,
    }
}

#[test]
fn answers_are_put_together() {
    let rows = vec![
        RowChange {
            row: 0,
            cells: vec![cell("a"), cell("b")],
        },
        RowChange {
            row: 1,
            cells: vec![cell("c")],
        },
    ];
    assert_eq!(capture_text(&rows), "ab\nc");
    assert_eq!(capture_text(&Vec::new()), "");

    assert!(check_file(10, 10, "x").is_ok());
    assert_eq!(
        check_file(11, 10, "x").unwrap_err(),
        "file is too large for an extension to read (limit 10 bytes): x"
    );

    let found = |name: &str, kind: EntryKind| FoundEntry {
        name: name.to_string(),
        kind,
    };
    let listed = list_entries(
        &vec![
            found("a", EntryKind::Dir),
            found("b", EntryKind::Symlink),
            found("c", EntryKind::File),
        ],
        2,
    );
    assert_eq!(
        listed.item(1).and_then(|e| e.get("kind")).and_then(Json::as_str),
        Some("symlink")
    );
    assert!(listed.item(2).is_none());

    let options = object2(entry("method", text("POST")), entry("body", text("data")));
    assert_eq!(fetch_method(&options), "POST");
    assert_eq!(fetch_method(&Json::Null), "GET");
    assert_eq!(fetch_body(&options, 4).unwrap(), "data");
    assert_eq!(
        fetch_body(&options, 3).unwrap_err(),
        "network request body exceeds 3 bytes"
    );
    let answer = fetch_answer(200, vec![entry("a", text("b"))], &b"body".to_vec(), 4)
        .expect("a body that fits");
    assert_eq!(answer.get("status").and_then(Json::as_u64), Some(200));
    assert_eq!(
        answer.get("headers").and_then(|h| h.get("a")).and_then(Json::as_str),
        Some("b")
    );
    assert_eq!(answer.get("body").and_then(Json::as_str), Some("body"));
    assert_eq!(
        fetch_answer(200, Vec::new(), &b"body".to_vec(), 3).unwrap_err(),
        "network response exceeds 3 bytes"
    );
    let ended = process_answer(Some(-9), false, &b"out".to_vec(), &vec![b'e', 0xff]);
    assert!(matches!(ended.get("status"), Some(Json::Negative(-9))));
    assert_eq!(ended.get("stdout").and_then(Json::as_str), Some("out"));
    assert_eq!(ended.get("stderr").and_then(Json::as_str), Some("e\u{fffd}"));
    let ended = process_answer(None, false, &Vec::new(), &Vec::new());
    assert!(matches!(ended.get("status"), Some(Json::Null)));
}

#[test]
fn what_is_written_to_the_settings_is_read_back() {
    assert_eq!(split_key("a.b..c"), vec!["a", "b", "", "c"]);
    let document = with_setting(None, "editor.font.size", Json::Whole(12));
    let document = with_setting(Some(document), "editor.theme", text("dark"));
    let document = Some(document);
    assert_eq!(setting_in(&document, "editor.font.size").as_u64(), Some(12));
    assert_eq!(setting_in(&document, "editor.theme").as_str(), Some("dark"));
    assert!(matches!(setting_in(&document, "editor.missing"), Json::Null));
    assert!(matches!(setting_in(&None, "x"), Json::Null));
    assert!(check_size("settings value", 5, 5).is_ok());
    assert_eq!(
        check_size("settings value", 6, 5).unwrap_err(),
        "settings value exceeds 5 bytes"
    );
}

fn write_setting(file: &str, key: &str, value: Json) -> Result<String, String> {
    write_server_setting(Some(&file.as_bytes().to_vec()), key, &value, 16, 200)
        .map_err(|error| error.message("/settings.json", 16, 200))
}

fn read_setting(file: &[u8], key: &str) -> Result<Json, String> {
    read_server_setting(Some(&file.to_vec()), key, 200)
        .map_err(|error| error.message("/settings.json", 16, 200))
}

#[test]
fn the_file_of_the_settings_is_read_and_written() {
    let written = write_server_setting(None, "editor.size", &Json::Whole(12), 16, 200)
        .expect("a file of its own");
    assert_eq!(written, "{\n  \"editor\": {\n    \"size\": 12\n  }\n}");
    let written = write_setting(&written, "editor.theme", text("dark")).expect("it fits");
    let read = read_setting(written.as_bytes(), "editor.theme").expect("settings");
    assert_eq!(read.as_str(), Some("dark"));
    let read = read_setting(written.as_bytes(), "editor.size").expect("settings");
    assert_eq!(read.as_u64(), Some(12));
    let read = read_setting(written.as_bytes(), "editor.missing").expect("settings");
    assert!(matches!(read, Json::Null));
    assert!(matches!(
        read_server_setting(None, "editor.size", 200),
        Ok(Json::Null)
    ));

    assert_eq!(
        write_setting("{}", "a", text("seventeen letters")).unwrap_err(),
        "settings value exceeds 16 bytes"
    );
    let long = format!("{{\"a\":\"{}\"}}", "x".repeat(193));
    assert_eq!(long.len(), 201);
    assert_eq!(
        write_setting(&long, "b", Json::Null).unwrap_err(),
        "settings document exceeds 200 bytes"
    );
    assert_eq!(
        read_setting(long.as_bytes(), "a").unwrap_err(),
        "settings document exceeds 200 bytes"
    );
    let nearly = format!("{{\"a\":\"{}\"}}", "x".repeat(180));
    assert_eq!(
        write_setting(&nearly, "b", text("too much")).unwrap_err(),
        "settings document exceeds 200 bytes",
        "what would be written does not fit"
    );
    assert_eq!(
        read_setting(&[b'"', 0xff, b'"'], "a").unwrap_err(),
        "settings document is not UTF-8"
    );
    assert_eq!(read_setting(b"{", "a").unwrap_err(), "parsing /settings.json");
    assert_eq!(
        write_setting("{", "a", Json::Null).unwrap_err(),
        "parsing /settings.json"
    );
    assert!(matches!(
        write_server_setting(Some(&vec![b'"', 0xff, b'"']), "a", &Json::Null, 16, 200),
        Err(SettingsError::Unreadable(_))
    ));
}

#[test]
fn values_are_read_and_written() {
    let read = parse("{\"b\":[1,-2,1.5,true,null],\"a\":{\"t\":\"\\u00e9\"},\"a\":7}")
        .expect("a value");
    assert_eq!(read.get("a").and_then(Json::as_u64), Some(7), "the last one counts");
    let list = read.get("b").expect("a list");
    assert!(matches!(list.item(0), Some(Json::Whole(1))));
    assert!(matches!(list.item(1), Some(Json::Negative(-2))));
    assert!(matches!(list.item(2), Some(Json::Real(_))));
    assert!(matches!(list.item(3), Some(Json::Bool(true))));
    assert!(matches!(list.item(4), Some(Json::Null)));
    assert!(list.item(5).is_none());
    assert_eq!(write_compact(&read), "{\"a\":7,\"b\":[1,-2,1.5,true,null]}");
    assert_eq!(
        write_pretty(&parse("[{\"k\":\"v\"}]").expect("a value")),
        "[\n  {\n    \"k\": \"v\"\n  }\n]"
    );
    assert_eq!(
        parse("[1,").unwrap_err(),
        "EOF while parsing a value at line 1 column 3"
    );
    assert_eq!(
        parse_bytes(&b"[1,".to_vec()).unwrap_err(),
        "EOF while parsing a value at line 1 column 3"
    );
    let deepest = "[".repeat(127) + &"]".repeat(127);
    let again = write_pretty(&parse(&deepest).expect("a value"));
    assert_eq!(write_compact(&parse(&again).expect("the same value")), deepest);
    assert!(parse(&("[".repeat(128) + &"]".repeat(128))).is_err());
    assert_eq!(read_member("{\"id\":\"x\"}", "id").as_deref(), Some("x"));
    assert_eq!(read_number("{\"n\":3}", "n"), Ok(Some(3)));
    assert_eq!(read_number("{\"n\":3.0}", "n"), Ok(None));
    assert_eq!(read_number("[]", "n"), Ok(None));
    assert!(read_number("", "n").is_err());
}

fn record(id: &str, fingerprint: &str, state: ServerConsentState) -> ServerConsentRecord {
    ServerConsentRecord {
        id: id.to_string(),
        policy_fingerprint: fingerprint.to_string(),
        state,
    }
}

#[test]
fn decisions_are_read_back_from_the_ledger() {
    assert_eq!(
        server_consent_path("/data/extensions"),
        "/data/extension-consent.json"
    );
    assert_eq!(
        server_consent_path("/c/z3rm/extensions/"),
        "/c/z3rm/extension-consent.json"
    );
    assert_eq!(server_consent_path("/extensions"), "/extension-consent.json");
    assert_eq!(server_consent_path("extensions"), "extension-consent.json");
    let entries = with_consent(
        vec![object1(entry("note", text("kept")))],
        "demo",
        "print-1",
        true,
    );
    let records = decisions_of(&entries);
    assert_eq!(records.len(), 1);
    assert!(ledger_approves(&records, "demo", "print-1"));
    assert!(!ledger_approves(&records, "demo", "print-2"));
    assert!(!ledger_approves(&records, "other", "print-1"));
    assert!(!ledger_approves(&load_server_consent(None), "demo", "print-1"));
    assert!(entries_of(Some(text("no list"))).is_empty());

    let entries = with_consent(
        vec![
            record("demo", "print-1", ServerConsentState::Approved).to_json(),
            object1(entry("note", text("kept"))),
        ],
        "demo",
        "print-2",
        false,
    );
    assert_eq!(entries.len(), 2, "entries of others stay: {entries:?}");
    let records = decisions_of(&entries);
    assert!(!ledger_approves(&records, "demo", "print-1"));
    assert_eq!(records[0].state, ServerConsentState::Denied);

    let ledger = set_consent(Some("[{\"id\":\"other\",\"ttl\":60}]"), "demo", "print-1", true);
    assert_eq!(
        ledger,
        "[\n  {\n    \"id\": \"other\",\n    \"ttl\": 60\n  },\n  {\n    \"id\": \"demo\",\n    \
         \"policy_fingerprint\": \"print-1\",\n    \"state\": \"approved\"\n  }\n]"
    );
    let records = load_server_consent(Some(&ledger));
    assert!(ledger_approves(&records, "demo", "print-1"));
    let ledger = set_consent(Some(&ledger), "demo", "print-1", false);
    assert_eq!(load_server_consent_raw(Some(&ledger)).len(), 2);
    assert!(!ledger_approves(&load_server_consent(Some(&ledger)), "demo", "print-1"));
    assert!(load_server_consent_raw(Some("{\"id\":1}")).is_empty());
    assert!(load_server_consent_raw(Some("no json")).is_empty());
    assert_eq!(set_consent(None, "demo", "p", true), set_consent(Some("no json"), "demo", "p", true));

    let back = ServerConsentRecord::from_json(
        &record("a", "b", ServerConsentState::Approved).to_json(),
    )
    .expect("a record");
    assert_eq!(
        (back.id.as_str(), back.policy_fingerprint.as_str(), back.state),
        ("a", "b", ServerConsentState::Approved)
    );
    let odd = Json::Object(vec![
        entry("id", text("a")),
        entry("policy_fingerprint", text("b")),
        entry("state", text("maybe")),
    ]);
    assert!(ServerConsentRecord::from_json(&odd).is_none());
}

#[test]
fn an_extension_without_a_decision_does_not_start() {
    let records = vec![
        record("a", "1", ServerConsentState::Approved),
        record("b", "1", ServerConsentState::Denied),
    ];
    assert_eq!(startup_refusal(&records, "a", "1"), None);
    assert_eq!(
        startup_refusal(&records, "a", "2"),
        Some(StartupRefusal::PolicyChanged)
    );
    assert_eq!(
        startup_refusal(&records, "b", "1"),
        Some(StartupRefusal::Denied)
    );
    assert_eq!(
        startup_refusal(&records, "c", "1"),
        Some(StartupRefusal::NotApproved)
    );
    assert_eq!(
        StartupRefusal::PolicyChanged.as_str(),
        "policy fingerprint changed since approval; re-approval required"
    );
}

fn manifest(id: &str, side: RuntimeSide) -> ManifestFacts {
    ManifestFacts {
        id: id.to_string(),
        side,
        fingerprint: "print".to_string(),
    }
}

#[test]
fn installs_are_checked_before_anything_is_written() {
    let request = check_install_request("demo", 10, &b"id = \"demo\"".to_vec()).expect("accepted");
    assert_eq!(request.name, "demo");
    assert_eq!(request.manifest_text, "id = \"demo\"");
    assert!(check_install_request("../escaped", 10, &Vec::new()).is_err());
    let error = check_install_request("demo", MAX_INSTALL_ARCHIVE_BYTES + 1, &Vec::new())
        .err()
        .expect("refused");
    assert_eq!(
        error,
        "extension archive for `demo` is 16777217 bytes; limit is 16777216"
    );
    assert_eq!(
        check_install_request("demo", 10, &vec![0xff]).err().as_deref(),
        Some("extension manifest must be UTF-8 `extension.toml` text")
    );

    let approved = vec![record("demo", "print", ServerConsentState::Approved)];
    assert!(check_manifest("demo", &manifest("demo", RuntimeSide::Both), &approved).is_ok());
    let error = check_manifest("demo", &manifest("demo", RuntimeSide::Client), &approved)
        .unwrap_err();
    assert!(error.contains("only runs `server` or `both`"), "{error}");
    let error = check_manifest("demo", &manifest("other", RuntimeSide::Server), &approved)
        .unwrap_err();
    assert!(error.contains("does not match request name"), "{error}");
    let error = check_manifest("demo", &manifest("demo", RuntimeSide::Server), &Vec::new())
        .unwrap_err();
    assert!(error.contains("is not approved for server activation"), "{error}");
    let error = check_staged(
        "demo",
        false,
        &manifest("demo", RuntimeSide::Server),
        &approved,
    )
    .unwrap_err();
    assert!(error.contains("does not match"), "{error}");
    assert!(check_staged(
        "demo",
        true,
        &manifest("demo", RuntimeSide::Server),
        &approved
    )
    .is_ok());
}

#[test]
fn archives_are_unpacked_within_a_limit() {
    let mut budget = ExtractBudget::new();
    assert!(budget.take(MAX_EXTRACTED_BYTES - 1).is_ok());
    assert!(budget.take(1).is_ok());
    assert_eq!(
        budget.take(1).unwrap_err(),
        "extension archive exceeds the 67108864-byte uncompressed limit"
    );
    let mut huge = ExtractBudget::new();
    assert!(huge.take(1).is_ok());
    assert!(huge.take(u64::MAX).is_err());
    assert!(check_unpacked(true, "main.js").is_ok());
    assert_eq!(
        check_unpacked(false, "../escaped.txt").unwrap_err(),
        "tar entry ../escaped.txt escapes the install directory"
    );
}

#[test]
fn actions_are_bounded() {
    assert!(check_action_request("demo", "run", "{}").is_ok());
    let error = check_action_request("demo", "run", &"x".repeat(1_048_576)).unwrap_err();
    assert!(error.contains("limit is 1048576"), "{error}");
}

#[test]
fn a_worker_ends_where_its_extension_exceeds_a_limit() {
    assert_eq!(
        detect_violation(true, true, true),
        Some(SuspensionReason::CpuBudget)
    );
    assert_eq!(
        detect_violation(false, true, true),
        Some(SuspensionReason::MemoryBudget)
    );
    assert_eq!(
        detect_violation(false, false, true),
        Some(SuspensionReason::IoRateLimit)
    );
    assert_eq!(detect_violation(false, false, false), None);

    let step = finish_operation(
        "demo",
        3,
        WorkerWork::Emitted,
        Some(SuspensionReason::IoRateLimit),
        true,
    );
    assert!(step.ends);
    assert!(matches!(
        step.report,
        Some(WorkerEvent::Suspended {
            instance: 3,
            reason: SuspensionReason::IoRateLimit,
            ..
        })
    ));
    let step = finish_operation("demo", 3, WorkerWork::Rendered, None, true);
    assert!(!step.ends);
    assert!(matches!(
        step.report,
        Some(WorkerEvent::RenderRequested { .. })
    ));
    assert!(finish_operation("demo", 3, WorkerWork::Ended, None, true).ends);
    assert_eq!(
        host_step(HostWork::Installed { succeeded: true }),
        HostNext::Render {
            force: true,
            vital: true
        }
    );
    assert_eq!(host_step(HostWork::Ended), HostNext::HandBack);
    assert_eq!(
        host_step(HostWork::Rendered {
            vital: true,
            sent: false
        }),
        HostNext::Stop
    );
}

#[test]
fn notices_are_written_as_json() {
    let notice = suspension_notice_json("a\"b\\c\n\u{1}\u{7f}é", SuspensionReason::Crashed);
    let value: serde_json::Value = serde_json::from_str(&notice).expect("JSON");
    assert_eq!(
        value.get("text").and_then(serde_json::Value::as_str),
        Some("extension a\"b\\c\n\u{1}\u{7f}é suspended: worker exited unexpectedly")
    );
    assert_eq!(
        suspension_notice_json("a\"\u{1f}", SuspensionReason::IoRateLimit),
        "{\"text\":\"extension a\\\"\\u001f suspended: io rate limit exceeded\",\"type\":\"span\"}"
    );
}

#[test]
fn a_view_is_told_by_its_name() {
    assert_eq!(view_id_of("{\"id\":\"status-bar\",\"type\":\"span\"}"), "status-bar");
    assert_eq!(view_id_of("{\"type\":\"span\"}"), "default");
    assert_eq!(view_id_of("{\"id\":7}"), "default");
    assert_eq!(view_id_of("no json"), "default");
}

fn shown(batch: &[ChromeView]) -> Vec<(String, String, bool)> {
    batch
        .iter()
        .map(|view| {
            (
                view.extension_id.clone(),
                view.view_id.clone(),
                view.vdom_json.is_empty(),
            )
        })
        .collect()
}

fn start(manager: &mut ExtensionManager, effects: &mut Effects, id: &str) -> u64 {
    let instance = manager.reserve_instance();
    manager
        .worker_ready(effects, id.to_string(), instance, WorkerReady::Running)
        .expect("worker runs");
    instance
}

fn views(id: &str, instance: u64, views: &[&str]) -> RenderReply {
    RenderReply {
        extension_id: id.to_string(),
        instance,
        outcome: RenderOutcome::Views(
            views
                .iter()
                .map(|view| format!("{{\"id\":\"{view}\"}}"))
                .collect(),
        ),
    }
}

#[test]
fn suspending_an_extension_takes_its_views_away() {
    let mut manager = ExtensionManager::new();
    let mut effects = Effects::new();
    let b = start(&mut manager, &mut effects, "b-ext");
    let a = start(&mut manager, &mut effects, "a-ext");
    assert_eq!(manager.ids(), vec!["a-ext", "b-ext"]);
    assert_eq!(manager.render_targets().len(), 2);

    let batch = manager.finish_round(
        &mut effects,
        &vec![views("a-ext", a, &["left", "right"]), views("b-ext", b, &["bar"])],
    );
    assert_eq!(
        shown(&batch),
        vec![
            ("a-ext".to_string(), "left".to_string(), false),
            ("a-ext".to_string(), "right".to_string(), false),
            ("b-ext".to_string(), "bar".to_string(), false),
        ]
    );
    assert!(effects.batches.is_empty());

    // A view that is no longer rendered goes away.
    let batch = manager.finish_round(
        &mut effects,
        &vec![views("a-ext", a, &["left"]), views("b-ext", b, &["bar"])],
    );
    assert!(shown(&batch).contains(&("a-ext".to_string(), "right".to_string(), true)));

    manager.suspend_extension(&mut effects, "a-ext", a, SuspensionReason::CpuBudget);
    assert_eq!(effects.endings, vec!["a-ext"]);
    assert_eq!(
        shown(&effects.batches[0]),
        vec![("a-ext".to_string(), "left".to_string(), true)]
    );
    assert_eq!(
        shown(&effects.batches[1]),
        vec![("a-ext".to_string(), "z3rm.suspended".to_string(), false)]
    );
    // A second report changes nothing.
    manager.suspend_extension(&mut effects, "a-ext", a, SuspensionReason::Crashed);
    assert_eq!(effects.batches.len(), 2);
    assert_eq!(manager.render_targets().len(), 1);
    assert_eq!(manager.emit_targets(), vec!["b-ext"]);
    // Nor does a report on a worker that has been replaced.
    manager.suspend_extension(&mut effects, "b-ext", b + 7, SuspensionReason::Crashed);
    assert_eq!(effects.batches.len(), 2);
}

#[test]
fn a_worker_that_does_not_answer_is_suspended() {
    let mut manager = ExtensionManager::new();
    let mut effects = Effects::new();
    let a = start(&mut manager, &mut effects, "a-ext");
    let batch = manager.finish_round(
        &mut effects,
        &vec![RenderReply {
            extension_id: "a-ext".to_string(),
            instance: a,
            outcome: RenderOutcome::Silent,
        }],
    );
    assert!(batch.is_empty());
    assert_eq!(effects.endings, vec!["a-ext"]);
    assert!(effects.batches[0][0]
        .vdom_json
        .contains("did not respond to the host in time"));
}

#[test]
fn actions_reach_only_what_is_shown() {
    let mut manager = ExtensionManager::new();
    let mut effects = Effects::new();
    let a = start(&mut manager, &mut effects, "a-ext");
    manager.finish_round(&mut effects, &vec![views("a-ext", a, &["left"])]);
    assert_eq!(manager.plan_action("a-ext", "left", "run"), Ok(a));
    assert_eq!(
        manager.plan_action("a-ext", "left", ""),
        Err("chrome action command must not be empty".to_string())
    );
    assert_eq!(
        manager.plan_action("b-ext", "left", "run"),
        Err("chrome action targets unknown server extension `b-ext`".to_string())
    );
    assert!(manager
        .plan_action("a-ext", "right", "run")
        .unwrap_err()
        .contains("never published"));
    assert!(manager
        .finish_action(&mut effects, "a-ext", a, ActionOutcome::Done)
        .is_ok());
    assert_eq!(
        manager.finish_action(
            &mut effects,
            "a-ext",
            a,
            ActionOutcome::Failed("nope".to_string())
        ),
        Err("nope".to_string())
    );
    assert!(manager
        .finish_action(&mut effects, "a-ext", a, ActionOutcome::Busy)
        .unwrap_err()
        .contains("busy"));
    assert!(effects.endings.is_empty());
    assert!(manager
        .finish_action(&mut effects, "a-ext", a, ActionOutcome::TimedOut)
        .unwrap_err()
        .contains("did not complete in time"));
    assert_eq!(effects.endings, vec!["a-ext"]);
    assert!(manager
        .plan_action("a-ext", "left", "run")
        .unwrap_err()
        .contains("suspended"));
}

#[test]
fn a_new_worker_takes_the_place_of_the_old_one() {
    let mut manager = ExtensionManager::new();
    let mut effects = Effects::new();
    let first = start(&mut manager, &mut effects, "a-ext");
    manager.finish_round(&mut effects, &vec![views("a-ext", first, &["left"])]);
    let second = start(&mut manager, &mut effects, "a-ext");
    assert_ne!(first, second);
    assert_eq!(manager.ids(), vec!["a-ext"]);
    assert_eq!(effects.endings, vec!["a-ext"]);
    assert_eq!(
        shown(&effects.batches[0]),
        vec![("a-ext".to_string(), "left".to_string(), true)]
    );
    assert!(!manager.handle_worker_event(
        &mut effects,
        WorkerEvent::RenderRequested {
            extension_id: "a-ext".to_string(),
            instance: first,
        }
    ));
    assert!(manager.handle_worker_event(
        &mut effects,
        WorkerEvent::RenderRequested {
            extension_id: "a-ext".to_string(),
            instance: second,
        }
    ));

    let failed = manager.reserve_instance();
    assert_eq!(
        manager.worker_ready(
            &mut effects,
            "bad-ext".to_string(),
            failed,
            WorkerReady::Failed("nope".to_string())
        ),
        Err("nope".to_string())
    );
    assert_eq!(manager.ids(), vec!["a-ext"]);
    let suspended = manager.reserve_instance();
    assert!(manager
        .worker_ready(
            &mut effects,
            "io-limit".to_string(),
            suspended,
            WorkerReady::Suspended(SuspensionReason::IoRateLimit)
        )
        .is_ok());
    let notice = &effects.batches[effects.batches.len() - 1][0];
    assert_eq!(notice.view_id, "z3rm.suspended");
    assert!(notice.vdom_json.contains("suspended") && notice.vdom_json.contains("io rate limit"));
}

#[test]
fn events_are_told_to_extensions() {
    let told = emit_notification(&ServerEvent::PaneRemoved {
        pane_id: "pane-1".to_string(),
        exit_code: -1,
    })
    .expect("told");
    assert_eq!(told.payload.get("paneId").and_then(Json::as_str), Some("pane-1"));
    assert!(matches!(
        told.payload.get("exitCode"),
        Some(Json::Negative(-1))
    ));
    let told = emit_notification(&ServerEvent::ClipboardChanged).expect("told");
    assert_eq!(told.name, "clipboard");
    assert_eq!(written(&told.payload), "Null");
    assert!(emit_notification(&ServerEvent::ExtensionChrome).is_none());
}

#[test]
fn a_layout_is_told_to_extensions() {
    let mut layout = LayoutTree::with_pane("node-1".to_string(), "pane-1".to_string());
    layout
        .split(
            "pane-1",
            "pane-2".to_string(),
            SplitDirection::TopBottom,
            30,
        )
        .expect("split");
    let value = layout_json(&WireTree {
        root: layout_tree_to_wire(&layout),
    });
    let root = match &value {
        Json::Object(_) => value.get("root").unwrap_or(&value),
        other => panic!("{other:?}"),
    };
    let child = root
        .get("children")
        .and_then(|children| children.item(1))
        .expect("second child");
    assert_eq!(child.get("paneId").and_then(Json::as_str), Some("pane-2"));
    let members: Vec<&str> = match root {
        Json::Object(members) => members.iter().map(|m: &Member| m.key.as_str()).collect(),
        other => panic!("{other:?}"),
    };
    assert!(members.contains(&"ratios"), "{members:?}");
}

#[test]
fn views_that_are_not_rendered_again_stay() {
    let mut manager = ExtensionManager::new();
    let mut effects = Effects::new();
    let a = start(&mut manager, &mut effects, "a-ext");
    let b = start(&mut manager, &mut effects, "b-ext");
    manager.finish_round(
        &mut effects,
        &vec![views("a-ext", a, &["left"]), views("b-ext", b, &["bar"])],
    );

    // Only one of them was invalidated, and the other says so.
    let batch = manager.finish_round(
        &mut effects,
        &vec![
            views("a-ext", a, &["right"]),
            RenderReply {
                extension_id: "b-ext".to_string(),
                instance: b,
                outcome: RenderOutcome::Unchanged,
            },
        ],
    );
    assert_eq!(
        shown(&batch),
        vec![
            ("a-ext".to_string(), "right".to_string(), false),
            ("a-ext".to_string(), "left".to_string(), true),
        ]
    );
    assert_eq!(manager.plan_action("b-ext", "bar", "run"), Ok(b));
    assert!(manager.plan_action("a-ext", "left", "run").is_err());

    // The other was not even asked.
    let batch = manager.finish_round(&mut effects, &vec![views("a-ext", a, &["right"])]);
    assert_eq!(
        shown(&batch),
        vec![("a-ext".to_string(), "right".to_string(), false)]
    );
    assert_eq!(manager.plan_action("b-ext", "bar", "run"), Ok(b));

    // It renders anew, and shows nothing any more.
    let batch = manager.finish_round(&mut effects, &vec![views("b-ext", b, &[])]);
    assert_eq!(
        shown(&batch),
        vec![("b-ext".to_string(), "bar".to_string(), true)]
    );
    assert!(manager.plan_action("b-ext", "bar", "run").is_err());
    assert_eq!(manager.plan_action("a-ext", "right", "run"), Ok(a));
}
