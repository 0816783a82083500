use mux_server::file_access::{
    candidate_path, dir_entry, file_error, join_parts, outside_refusal,
    resolve_path_within_root, scope_refusal,
    session_file_scopes, sort_entries, stat_response, version_content, FileFacts, PathError,
    ScopeSearch, ScopeStep,
};
use mux_server::file_pages::{
    detect_binary, logical_line_count, read_file_response, FilePage, PageLimits, PageRequest,
    ReadFileError,
};
use mux_server::layout::{LayoutTree, SplitDirection};
use mux_server::layout_wire::{layout_tree_to_wire, Weight, WireNode};
use mux_server::pane_requests::detach_pane_from_layout;
use mux_server::protocol::RequestKind;
use mux_server::registry::{
    broadcast_window_removals, take_session, unregister_client_from_sessions, Notification,
    ReleasedWindow,
};
use mux_server::session::{AttachMode, ClientRole, Session};
use mux_server::shell_markers::{
    group_shell_markers, list_commands, locate_markers, snapshot_step, tmux_line, ShellMarker,
    ShellMarkerKind, ShellMarkerPosition, SnapshotStep,
};

const MAX_WIRE: usize = 30;
const MAX_FRAME_PAYLOAD: u64 = 16 * 1024 * 1024;
const MAX_READ_FILE_PAGE_BYTES: u32 = 1024 * 1024;

fn limits() -> PageLimits {
    PageLimits {
        default_bytes: 64 * 1024,
        max_bytes: MAX_READ_FILE_PAGE_BYTES,
        default_lines: 1000,
        max_lines: 10_000,
        max_frame: MAX_FRAME_PAYLOAD,
    }
}

fn read_file_request() -> PageRequest {
    PageRequest {
        offset_line: None,
        max_lines: None,
        offset_bytes: None,
        max_bytes: None,
    }
}

fn read_file_page_for_test(request: &PageRequest, bytes: &[u8]) -> Result<FilePage, ReadFileError> {
    read_file_response(request, &limits(), &bytes.to_vec(), bytes.len() as u64)
}

fn message(result: Result<FilePage, ReadFileError>) -> String {
    match result {
        Ok(page) => panic!("expected a refusal, got {page:?}"),
        Err(error) => error.message(&limits()),
    }
}

#[test]
fn read_file_line_pages_preserve_boundaries() {
    let bytes = b"zero\none\ntwo\nthree";
    let first = read_file_page_for_test(
        &PageRequest {
            offset_line: Some(0),
            max_lines: Some(2),
            ..read_file_request()
        },
        bytes,
    )
    .expect("first page");
    assert_eq!(first.content, b"zero\none\n");
    assert_eq!(first.offset_line, 0);
    assert_eq!(first.next_offset_line, Some(2));
    assert_eq!(first.total_lines, 4);

    let last = read_file_page_for_test(
        &PageRequest {
            offset_line: first.next_offset_line,
            max_lines: Some(2),
            ..read_file_request()
        },
        bytes,
    )
    .expect("last page");
    assert_eq!(last.content, b"two\nthree");
    assert_eq!(last.next_offset_line, None);

    let past_end = read_file_page_for_test(
        &PageRequest {
            offset_line: Some(9),
            max_lines: Some(2),
            ..read_file_request()
        },
        bytes,
    )
    .expect("past-end page");
    assert!(past_end.content.is_empty());
    assert_eq!(past_end.offset_line, 9);
    assert_eq!(past_end.next_offset_line, None);
}

#[test]
fn read_file_byte_pages_bound_payloads() {
    let bytes = b"0123456789";
    let page = read_file_page_for_test(
        &PageRequest {
            offset_bytes: Some(3),
            max_bytes: Some(4),
            ..read_file_request()
        },
        bytes,
    )
    .expect("byte page");
    assert_eq!(page.content, b"3456");
    assert_eq!(page.offset_bytes, 3);
    assert_eq!(page.next_offset_bytes, Some(7));
    assert_eq!(page.total_bytes, 10);

    let last = read_file_page_for_test(
        &PageRequest {
            offset_bytes: page.next_offset_bytes,
            max_bytes: Some(4),
            ..read_file_request()
        },
        bytes,
    )
    .expect("last byte page");
    assert_eq!(last.content, b"789");
    assert_eq!(last.next_offset_bytes, None);

    let past_end = message(read_file_page_for_test(
        &PageRequest {
            offset_bytes: Some(11),
            max_bytes: Some(4),
            ..read_file_request()
        },
        bytes,
    ));
    assert!(past_end.contains("beyond the end"));
}

#[test]
fn read_file_rejects_degenerate_or_mixed_pages() {
    let zero_lines = message(read_file_page_for_test(
        &PageRequest {
            offset_line: Some(0),
            max_lines: Some(0),
            ..read_file_request()
        },
        b"text",
    ));
    assert!(zero_lines.contains("max_lines"));

    let zero_bytes = message(read_file_page_for_test(
        &PageRequest {
            offset_bytes: Some(0),
            max_bytes: Some(0),
            ..read_file_request()
        },
        b"text",
    ));
    assert!(zero_bytes.contains("max_bytes"));

    let mixed = message(read_file_page_for_test(
        &PageRequest {
            offset_line: Some(0),
            max_lines: Some(1),
            offset_bytes: Some(0),
            max_bytes: Some(1),
        },
        b"text",
    ));
    assert!(mixed.contains("cannot be combined"));
}

#[test]
fn read_file_sparse_file_stays_bounded() {
    let total_bytes = MAX_FRAME_PAYLOAD * 2;
    let file = vec![0u8; total_bytes as usize];

    let page = read_file_response(
        &PageRequest {
            offset_bytes: Some(total_bytes - 3),
            max_bytes: Some(16),
            ..read_file_request()
        },
        &limits(),
        &file,
        total_bytes,
    )
    .expect("tail page");
    assert_eq!(page.content, vec![0; 3]);
    assert_eq!(page.total_bytes, total_bytes);
    assert_eq!(page.next_offset_bytes, None);

    let error = message(read_file_response(
        &read_file_request(),
        &limits(),
        &file,
        total_bytes,
    ));
    assert!(error.contains("frame limit"));
}

#[test]
fn read_file_line_page_rejects_an_oversized_line() {
    let bytes = vec![b'x'; MAX_READ_FILE_PAGE_BYTES as usize + 1];
    let error = message(read_file_page_for_test(
        &PageRequest {
            offset_line: Some(0),
            max_lines: Some(1),
            ..read_file_request()
        },
        &bytes,
    ));
    assert!(error.contains("byte limit"));
}

#[test]
fn a_whole_file_is_read_where_nothing_is_said() {
    let page = read_file_page_for_test(&read_file_request(), b"one\ntwo\n").expect("whole file");
    assert_eq!(page.content, b"one\ntwo\n");
    assert_eq!(page.total_lines, 2);
    assert!(!page.is_binary);
    assert_eq!(page.encoding(), "utf-8");
}

#[test]
fn a_file_that_changed_while_it_was_read_is_refused() {
    let result = read_file_response(&read_file_request(), &limits(), &b"abc".to_vec(), 5);
    assert_eq!(result.err(), Some(ReadFileError::WholeChange));
    let result = read_file_response(
        &PageRequest {
            offset_bytes: Some(1),
            ..read_file_request()
        },
        &limits(),
        &b"abc".to_vec(),
        5,
    );
    assert_eq!(result.err(), Some(ReadFileError::ByteChange));
    let result = read_file_response(
        &PageRequest {
            offset_line: Some(0),
            ..read_file_request()
        },
        &limits(),
        &b"abc".to_vec(),
        5,
    );
    assert_eq!(result.err(), Some(ReadFileError::LineChange));
}

#[test]
fn pages_that_are_too_large_are_refused() {
    let result = read_file_page_for_test(
        &PageRequest {
            max_bytes: Some(MAX_READ_FILE_PAGE_BYTES + 1),
            ..read_file_request()
        },
        b"abc",
    );
    assert_eq!(result.err(), Some(ReadFileError::TooManyBytes));
    let result = read_file_page_for_test(
        &PageRequest {
            max_lines: Some(10_001),
            ..read_file_request()
        },
        b"abc",
    );
    assert_eq!(result.err(), Some(ReadFileError::TooManyLines));
}

#[test]
fn line_pages_make_up_the_file() {
    let bytes = b"a\n\nbc\nd";
    let mut gathered = Vec::new();
    let mut next = Some(0);
    while let Some(offset) = next {
        let page = read_file_page_for_test(
            &PageRequest {
                offset_line: Some(offset),
                max_lines: Some(1),
                ..read_file_request()
            },
            bytes,
        )
        .expect("page");
        gathered.extend_from_slice(&page.content);
        next = page.next_offset_line;
    }
    assert_eq!(gathered, bytes);
    assert_eq!(logical_line_count(bytes), 4);
    assert_eq!(logical_line_count(b""), 0);
    assert_eq!(logical_line_count(b"a\n"), 1);
}

#[test]
fn binary_files_are_told_by_their_first_bytes() {
    fn by_ratio(bytes: &[u8]) -> bool {
        let checked = bytes.len().min(512);
        let nulls = bytes[..checked].iter().filter(|&&byte| byte == 0).count();
        (nulls as f64 / checked as f64) > 0.1
    }
    for nulls in 0..=512usize {
        for length in [0usize, 1, 9, 10, 11, 20, 100, 511, 512, 600] {
            let mut bytes = vec![b'a'; length];
            for byte in bytes.iter_mut().take(nulls) {
                *byte = 0;
            }
            assert_eq!(detect_binary(&bytes), by_ratio(&bytes), "{nulls} of {length}");
        }
    }
    assert!(detect_binary(b"\x7fELF and more text"));
    assert!(detect_binary(b"MZ and more text"));
    assert!(detect_binary(b"\xfe\xed\xfa\xce and more text"));
    assert!(!detect_binary(b"plain text"));
}

fn shell_marker(
    sequence: u64,
    kind: ShellMarkerKind,
    column: u32,
    exit_code: Option<i32>,
) -> ShellMarker {
    ShellMarker {
        sequence,
        kind,
        absolute_row: sequence,
        column,
        exit_code,
        epoch: 1,
    }
}

#[test]
fn history_indices_become_negative_tmux_lines_and_viewport_rows_stay_put() {
    assert_eq!(
        tmux_line(ShellMarkerPosition::History { index: 0 }, 100),
        Some(-100)
    );
    assert_eq!(
        tmux_line(ShellMarkerPosition::History { index: 99 }, 100),
        Some(-1)
    );
    assert_eq!(
        tmux_line(ShellMarkerPosition::Viewport { line: 0 }, 100),
        Some(0)
    );
    assert_eq!(tmux_line(ShellMarkerPosition::Unavailable, 100), None);
    assert_eq!(
        tmux_line(ShellMarkerPosition::History { index: 7 }, 3),
        None
    );
}

#[test]
fn markers_group_into_one_command_per_a_to_d_run() {
    let markers = vec![
        (
            shell_marker(1, ShellMarkerKind::PromptStart, 0, None),
            Some(-9),
        ),
        (
            shell_marker(2, ShellMarkerKind::CommandStart, 2, None),
            Some(-9),
        ),
        (
            shell_marker(3, ShellMarkerKind::OutputStart, 0, None),
            Some(-8),
        ),
        (
            shell_marker(4, ShellMarkerKind::CommandEnd, 0, Some(0)),
            Some(-5),
        ),
        (
            shell_marker(5, ShellMarkerKind::PromptStart, 0, None),
            Some(-5),
        ),
        (
            shell_marker(6, ShellMarkerKind::CommandStart, 2, None),
            Some(-5),
        ),
        (
            shell_marker(7, ShellMarkerKind::OutputStart, 0, None),
            Some(-4),
        ),
        (
            shell_marker(8, ShellMarkerKind::CommandEnd, 0, Some(1)),
            Some(-1),
        ),
    ];
    let commands = group_shell_markers(&markers);
    assert_eq!(commands.len(), 2, "{commands:?}");
    assert_eq!(commands[0].id, 1);
    assert_eq!(commands[0].exit_code, Some(0));
    assert_eq!(
        commands[0].output_start.as_ref().and_then(|item| item.line),
        Some(-8)
    );
    assert_eq!(commands[1].id, 5);
    assert_eq!(commands[1].exit_code, Some(1));
}

#[test]
fn commands_survive_missing_markers() {
    let sparse = vec![
        (
            shell_marker(1, ShellMarkerKind::PromptStart, 0, None),
            Some(-9),
        ),
        (
            shell_marker(2, ShellMarkerKind::CommandEnd, 0, Some(2)),
            Some(-6),
        ),
        (
            shell_marker(3, ShellMarkerKind::PromptStart, 0, None),
            Some(-6),
        ),
        (
            shell_marker(4, ShellMarkerKind::CommandEnd, 0, None),
            Some(-2),
        ),
    ];
    let commands = group_shell_markers(&sparse);
    assert_eq!(commands.len(), 2, "{commands:?}");
    assert_eq!(commands[0].exit_code, Some(2));
    assert!(commands[0].command.is_none());
    assert!(commands[0].output_start.is_none());
    assert!(commands[1].command_end.is_some());
    assert_eq!(commands[1].exit_code, None);

    let running = vec![
        (
            shell_marker(1, ShellMarkerKind::PromptStart, 0, None),
            Some(-3),
        ),
        (
            shell_marker(2, ShellMarkerKind::CommandStart, 2, None),
            Some(-3),
        ),
        (
            shell_marker(3, ShellMarkerKind::OutputStart, 0, None),
            Some(-2),
        ),
    ];
    let commands = group_shell_markers(&running);
    assert_eq!(commands.len(), 1, "{commands:?}");
    assert!(commands[0].command_end.is_none());
}

#[test]
fn bare_prompt_starts_are_not_commands() {
    let markers = vec![
        (
            shell_marker(1, ShellMarkerKind::PromptStart, 0, None),
            Some(-3),
        ),
        (
            shell_marker(2, ShellMarkerKind::PromptStart, 0, None),
            Some(-2),
        ),
        (
            shell_marker(3, ShellMarkerKind::PromptStart, 0, None),
            Some(-1),
        ),
        (
            shell_marker(4, ShellMarkerKind::CommandStart, 2, None),
            Some(-1),
        ),
    ];
    let commands = group_shell_markers(&markers);
    assert_eq!(commands.len(), 1, "{commands:?}");
    assert_eq!(commands[0].id, 3);
}

#[test]
fn an_unaddressable_command_keeps_its_exit_code() {
    let markers = vec![
        (shell_marker(1, ShellMarkerKind::PromptStart, 0, None), None),
        (shell_marker(2, ShellMarkerKind::OutputStart, 0, None), None),
        (
            shell_marker(3, ShellMarkerKind::CommandEnd, 0, Some(127)),
            None,
        ),
    ];
    let commands = group_shell_markers(&markers);
    assert_eq!(commands.len(), 1, "{commands:?}");
    assert_eq!(commands[0].exit_code, Some(127));
    assert!(
        commands[0]
            .output_start
            .as_ref()
            .is_some_and(|marker| marker.line.is_none()),
        "the marker is recorded but carries no row: {commands:?}"
    );
}

#[test]
fn the_latest_commands_are_listed() {
    let positions = vec![
        (
            shell_marker(1, ShellMarkerKind::CommandEnd, 0, Some(1)),
            ShellMarkerPosition::History { index: 0 },
        ),
        (
            shell_marker(2, ShellMarkerKind::CommandEnd, 0, Some(2)),
            ShellMarkerPosition::Viewport { line: 3 },
        ),
    ];
    let located = locate_markers(&positions, 10);
    assert_eq!(located[0].1, Some(-10));
    assert_eq!(located[1].1, Some(3));
    let list = list_commands(&located, 10, 1);
    assert_eq!(list.commands.len(), 1);
    assert_eq!(list.commands[0].exit_code, Some(2));
    assert_eq!(list.recorded_markers, 2);
    assert_eq!(list_commands(&located, 10, 0).commands.len(), 2);
}

fn new_session(id: &str, name: &str, cwd: &str) -> Session {
    Session::new(id.to_string(), name.to_string(), cwd.to_string(), 0)
}

#[test]
fn take_session_returns_removed_session() {
    let mut sessions = vec![new_session("session-1", "one", "/tmp")];

    let removed = take_session(&mut sessions, "session-1");

    assert_eq!(
        removed.as_ref().map(|session| session.id.as_str()),
        Some("session-1")
    );
    assert!(sessions.is_empty());
}

#[test]
fn unregister_client_removes_every_session_subscription() {
    let mut sessions = vec![
        new_session("session-1", "one", "/tmp"),
        new_session("session-2", "two", "/tmp"),
    ];
    for session in &mut sessions {
        session.add_attached_client(
            "client-1".to_string(),
            AttachMode::Shared,
            ClientRole::ReadWrite,
            None,
        );
        session.add_lifecycle_subscriber("client-1".to_string());
    }

    let released = unregister_client_from_sessions(&mut sessions, "client-1");

    assert!(released.is_empty(), "no client claimed a window");
    assert!(sessions
        .iter()
        .all(|session| session.attached_client_count() == 0));
    assert!(sessions
        .iter()
        .all(|session| session.lifecycle_subscribers.is_empty()));
}

#[test]
fn unregister_client_releases_its_window_and_notifies_peers() {
    let mut session = new_session("session-1", "one", "/tmp");
    for (client_id, window_id) in [("client-a", "win-a"), ("client-b", "win-b")] {
        session.add_attached_client(
            client_id.to_string(),
            AttachMode::Shared,
            ClientRole::ReadWrite,
            Some(window_id.to_string()),
        );
        session.add_window(window_id.to_string());
    }
    session.add_lifecycle_subscriber("client-b".to_string());
    session.add_lifecycle_subscriber("client-a".to_string());
    let mut sessions = vec![session];

    let released = unregister_client_from_sessions(&mut sessions, "client-a");

    assert_eq!(
        released,
        vec![ReleasedWindow {
            session_id: "session-1".to_string(),
            window_id: "win-a".to_string(),
        }]
    );
    assert_eq!(sessions[0].get_windows(), vec!["win-b".to_string()]);

    let notices = broadcast_window_removals(&sessions, &released);

    assert_eq!(notices.len(), 1);
    assert_eq!(
        notices[0].recipients,
        vec!["client-b".to_string()],
        "surviving window must receive WindowRemoved"
    );
    match &notices[0].event {
        Notification::WindowRemoved {
            session_id,
            window_id,
        } => {
            assert_eq!(window_id, "win-a");
            assert_eq!(session_id, "session-1");
        }
        other => panic!("expected WindowRemoved, got {other:?}"),
    }
}

fn attached_session(id: &str, cwd: &str, client_id: &str) -> Session {
    let mut session = new_session(id, id, cwd);
    session.add_attached_client(
        client_id.to_string(),
        AttachMode::Shared,
        ClientRole::ReadWrite,
        None,
    );
    session
}

#[test]
fn file_path_requires_an_attached_session() {
    let sessions = vec![attached_session("session-1", "/tmp/work", "client-1")];

    for stranger in [None, Some("client-2".to_string())] {
        let mut search = ScopeSearch::new(session_file_scopes(&sessions, &stranger));
        match search.step() {
            ScopeStep::Refuse(error) => assert_eq!(
                scope_refusal(error, "file.txt"),
                "file access requires an attached session"
            ),
            step => panic!("expected a refusal, got {step:?}"),
        }
    }
}

#[test]
fn a_path_is_looked_for_below_each_session_in_turn() {
    let sessions = vec![
        attached_session("one", "/work/one", "client-1"),
        attached_session("two", "/work/two", "client-2"),
        attached_session("three", "/work/three", "client-1"),
    ];
    let scopes = session_file_scopes(&sessions, &Some("client-1".to_string()));
    assert_eq!(scopes, vec!["/work/one".to_string(), "/work/three".to_string()]);
    let mut search = ScopeSearch::new(scopes);
    for dir in ["/work/one", "/work/three"] {
        match search.step() {
            ScopeStep::Look(found) => assert_eq!(found, dir),
            step => panic!("expected {dir}, got {step:?}"),
        }
        search.refused(PathError::Escapes);
    }
    match search.step() {
        ScopeStep::Refuse(error) => assert_eq!(
            scope_refusal(error, "x"),
            "path is outside the attached session worktree: x: path escapes session cwd"
        ),
        step => panic!("expected a refusal, got {step:?}"),
    }
}

#[test]
fn a_refusal_says_what_failed_on_the_way() {
    assert_eq!(
        outside_refusal("x", "canonicalizing session root: /gone: No such file or directory"),
        "path is outside the attached session worktree: x: \
         canonicalizing session root: /gone: No such file or directory"
    );
}

#[test]
fn file_path_is_sandboxed_to_the_attached_session_cwd() {
    let sessions = vec![attached_session("session-1", "/tmp/root", "client-1")];
    let client_id = Some("client-1".to_string());
    // Looks for a path below the directory of the session; `real` is where the
    // first parts of it lead to.
    let resolve = |path: &str, parts: usize, real: &str| {
        let mut search = ScopeSearch::new(session_file_scopes(&sessions, &client_id));
        let root = match search.step() {
            ScopeStep::Look(root) => root,
            step => panic!("expected a directory, got {step:?}"),
        };
        let found = candidate_path(&root, path)
            .and_then(|meant| resolve_path_within_root(&root, &meant, parts, real));
        match found {
            Ok(found) => Ok(join_parts(&found)),
            Err(error) => {
                search.refused(error);
                match search.step() {
                    ScopeStep::Refuse(error) => Err(scope_refusal(error, path)),
                    step => panic!("expected a refusal, got {step:?}"),
                }
            }
        }
    };

    assert_eq!(
        resolve("nested/file.txt", 3, "/tmp/root/nested"),
        Ok("/tmp/root/nested/file.txt".to_string())
    );
    // Out of the directory and back in elsewhere.
    assert!(resolve("../outside/secret.txt", 2, "/tmp/root").is_err());
    // Absolute paths elsewhere, whether or not something is there.
    assert!(resolve("/etc/passwd", 2, "/etc/passwd").is_err());
    assert!(resolve("/tmp/outside/secret.txt", 3, "/tmp/outside/secret.txt").is_err());
    assert!(resolve("/tmp/outside/missing.txt", 2, "/tmp/outside").is_err());
    // A link that leads out.
    assert!(resolve("escape/secret.txt", 4, "/tmp/outside/secret.txt").is_err());
}

#[test]
fn shadow_path_rejects_parent_and_symlink_escape() {
    assert_eq!(
        candidate_path("/root", "../outside/file.txt").err(),
        Some(PathError::ParentTraversal)
    );
    let meant = candidate_path("/root", "escape/file.txt").expect("candidate");
    assert_eq!(
        resolve_path_within_root("/root", &meant, 2, "/outside").err(),
        Some(PathError::Escapes)
    );
}

#[test]
fn shadow_path_allows_missing_file_below_root() {
    let meant = candidate_path("/root", "nested/deleted.txt").expect("candidate");
    let resolved = resolve_path_within_root("/root", &meant, 2, "/root/nested").expect("path");
    assert_eq!(join_parts(&resolved), "/root/nested/deleted.txt");
}

#[test]
fn path_within_root_rejects_absolute_escape_and_accepts_absolute_inside() {
    let meant = candidate_path("/root", "/etc/passwd").expect("candidate");
    assert!(resolve_path_within_root("/root", &meant, 2, "/etc/passwd").is_err());
    let meant = candidate_path("/root", "/etc/definitely-not-here").expect("candidate");
    assert!(resolve_path_within_root("/root", &meant, 1, "/etc").is_err());
    let meant = candidate_path("/root", "/root/inside.txt").expect("candidate");
    let resolved = resolve_path_within_root("/root", &meant, 2, "/root/inside.txt").expect("path");
    assert_eq!(join_parts(&resolved), "/root/inside.txt");
}

#[test]
fn path_within_root_rejects_missing_file_outside_root() {
    let meant = candidate_path("/root", "/outside/never-created.txt").expect("candidate");
    assert!(resolve_path_within_root("/root", &meant, 1, "/outside").is_err());
    assert_eq!(candidate_path("/root", "").err(), Some(PathError::Empty));
}

#[test]
fn read_dir_entries_reports_shadow_modification_and_sorts_directories_first() {
    let file = |size: u64| Some(FileFacts { is_dir: false, size });
    let dir = Some(FileFacts { is_dir: true, size: 4096 });
    let entries = vec![
        dir_entry("pristine.txt".to_string(), file(8), None, false).expect("entry"),
        dir_entry("edited.txt".to_string(), file(6), None, true).expect("entry"),
        dir_entry("sub".to_string(), dir, None, true).expect("entry"),
    ];
    let entries = sort_entries(entries);
    let names: Vec<&str> = entries.iter().map(|entry| entry.name.as_str()).collect();
    assert_eq!(names, vec!["sub", "edited.txt", "pristine.txt"]);
    assert!(entries[0].is_dir);
    assert!(entries[1].is_modified);
    assert_eq!(entries[1].size, b"edited".len() as u64);
    assert!(!entries[2].is_modified);
}

#[test]
fn read_dir_entries_distinguishes_symlinks_from_empty_files() {
    let target = Some(FileFacts { is_dir: true, size: 0 });
    let link = Some(FileFacts { is_dir: false, size: 21 });
    let link_to_dir = dir_entry("link-to-dir".to_string(), target, link, false).expect("entry");
    assert!(link_to_dir.is_dir, "a symlink to a directory is a directory");
    let broken = dir_entry("broken".to_string(), None, link, false).expect("entry");
    assert!(!broken.is_dir);
    assert!(
        broken.size > 0,
        "a broken symlink must carry its own lstat size, not a fabricated 0"
    );
    assert!(dir_entry("gone".to_string(), None, None, false).is_none());
}

#[test]
fn large_directories_are_listed() {
    let facts = |is_dir: bool, size: u64| Some(FileFacts { is_dir, size });
    let mut entries = Vec::new();
    for number in (0..30_000u64).rev() {
        let name = format!("{:05}", number / 2);
        entries.push(dir_entry(name, facts(number % 3 == 0, number), None, false).expect("entry"));
    }
    let listed = sort_entries(entries);
    assert_eq!(listed.len(), 30_000);
    assert!(listed.iter().take(10_000).all(|entry| entry.is_dir));
    assert!(listed.iter().skip(10_000).all(|entry| !entry.is_dir));
    for pair in listed.windows(2) {
        if pair[0].is_dir == pair[1].is_dir {
            assert!(pair[0].name <= pair[1].name);
            // Entries of one name stay as they were.
            assert!(pair[0].name < pair[1].name || pair[0].size > pair[1].size);
        }
    }
}

#[test]
fn a_file_that_is_not_there_is_told_as_such() {
    let gone = stat_response(None, Some(5));
    assert!(!gone.exists);
    assert_eq!(gone.modified_timestamp, 0);
    let there = stat_response(Some(FileFacts { is_dir: false, size: 3 }), Some(5));
    assert!(there.exists);
    assert_eq!((there.size, there.modified_timestamp), (3, 5));
}

#[test]
fn detach_pane_from_layout_clears_sole_root_instead_of_leaving_a_zombie() {
    let mut session = new_session("session-1", "one", "/tmp");
    session.layout = LayoutTree::with_pane("node-pane-1".to_string(), "pane-1".to_string());

    detach_pane_from_layout(&mut session, "pane-1", MAX_WIRE);

    assert!(
        session.layout.is_empty_root(),
        "the last pane's node must not survive its shell"
    );
    assert!(session.layout.root.find_pane("pane-1").is_none());
}

#[test]
fn detach_pane_from_layout_removes_a_split_child() {
    let mut session = new_session("session-1", "one", "/tmp");
    session.layout = LayoutTree::with_pane("node-pane-1".to_string(), "pane-1".to_string());
    session
        .layout
        .split(
            "pane-1",
            "pane-2".to_string(),
            SplitDirection::LeftRight,
            MAX_WIRE,
        )
        .expect("split layout");

    detach_pane_from_layout(&mut session, "pane-2", MAX_WIRE);

    assert!(session.layout.root.find_pane("pane-2").is_none());
    assert!(session.layout.root.find_pane("pane-1").is_some());
}

fn share(factors: &[Weight]) -> f32 {
    factors
        .iter()
        .map(|factor| match factor {
            Weight::Share { part, whole } => f32::from_bits(part.bits) / f32::from_bits(whole.bits),
            Weight::Equal { count } => 1.0 / *count as f32,
        })
        .product()
}

#[test]
fn repeated_spawn_layout_round_trips_without_exhausting_proto_recursion() {
    let mut layout = LayoutTree::with_pane("node-pane-0".to_string(), "pane-0".to_string());
    let mut focused = "pane-0".to_string();
    for index in 1..=100 {
        let next = format!("pane-{index}");
        layout
            .split(&focused, next.clone(), SplitDirection::TopBottom, MAX_WIRE)
            .expect("split focused pane");
        focused = next;
    }

    match layout_tree_to_wire(&layout).expect("layout root") {
        WireNode::Split { children, .. } => {
            assert_eq!(children.len(), 101);
            let ratios: Vec<f32> = children.iter().map(|child| share(&child.factors)).collect();
            assert_eq!(ratios.len(), 101);
            assert!((ratios.iter().sum::<f32>() - 1.0).abs() < 1e-6);
            assert!((ratios[0] - 0.5).abs() < 1e-6);
            assert!(ratios.iter().all(|ratio| *ratio > 0.0));
            assert!(ratios[1..].windows(2).all(|pair| pair[0] >= pair[1]));
        }
        node => panic!("expected flat decoded split, got {node:?}"),
    }
}

#[test]
fn what_fails_on_a_file_is_told() {
    assert_eq!(file_error(RequestKind::ReadFile, "gone"), "read_file: gone");
    assert_eq!(file_error(RequestKind::ListDir, "gone"), "list_dir: gone");
    assert_eq!(file_error(RequestKind::StatFile, "gone"), "stat_file: gone");
    assert_eq!(
        file_error(RequestKind::DeclineFileVersion, "gone"),
        "decline_file_version: gone"
    );
    assert_eq!(version_content(7, Some(b"x".to_vec())).expect("content"), b"x");
    assert_eq!(
        version_content(7, None).unwrap_err(),
        "shadow version not found: 7"
    );
}

#[test]
fn markers_are_read_again_while_the_history_moves() {
    assert_eq!(snapshot_step(0, 5, 5), SnapshotStep::Use);
    assert_eq!(snapshot_step(0, 5, 6), SnapshotStep::Retry);
    assert_eq!(snapshot_step(2, 5, 6), SnapshotStep::Retry);
    assert_eq!(snapshot_step(3, 5, 6), SnapshotStep::Unlocated);
}
