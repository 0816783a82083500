use mux_server::cli::{
    parse_command, parse_session_flag, running_seconds, status_lines, uptime_text, Command,
    SessionFlag, StatusReport,
};
use mux_server::lines::trim;
use mux_server::numbers::{decimal_text, parse_up_to};
use mux_server::paths::{
    database_path, default_serial_device, default_socket_path, default_user_extensions_dir,
    get_log_dir, join, resolve_settings_path, socket_sidecars,
};
use mux_server::pty::{PtySize, WasmChild, WasmPty};
use mux_server::rt::{Elapsed, JoinError, Notify, SendError};
use mux_server::startup::{
    classify_socket_inode, owner_process_alive, pidfile_contents, read_owner_metadata,
    reclaim_or_refuse, staging_path, OwnerMetadata, PathInode, ReclaimEvent, ReclaimStep,
    ServerEvent, ServerLoop, SocketInodeState, UnsafeSocket,
};
use mux_server::text_order::{all_different, in_order, same_in_any_order};

fn some(text: &str) -> Option<String> {
    Some(text.to_string())
}

fn texts(list: &[&str]) -> Vec<String> {
    list.iter().map(|text| text.to_string()).collect()
}

#[test]
fn the_owner_of_a_socket_is_read_back() {
    let owner = OwnerMetadata {
        pid: 4321,
        boot_secs: 1_700_000_000,
    };
    let contents = pidfile_contents(&owner);
    assert_eq!(contents, "4321\n1700000000\n");
    assert_eq!(read_owner_metadata(&contents), Some(owner));
    assert_eq!(
        read_owner_metadata(" 7 \n 8 \nrest"),
        Some(OwnerMetadata {
            pid: 7,
            boot_secs: 8
        })
    );
    assert_eq!(read_owner_metadata("7"), None);
    assert_eq!(read_owner_metadata("x\n8"), None);
    assert_eq!(read_owner_metadata("4294967296\n8"), None);
    assert_eq!(staging_path("/run", 7), "/run/.mux-server.pid.7.tmp");
    assert!(owner_process_alive(7, None, 3));
    assert!(owner_process_alive(7, Some(1), 3));
    assert!(!owner_process_alive(7, Some(3), 3));
    assert!(!owner_process_alive(u32::MAX, None, 3));
}

fn reclaim(
    state: SocketInodeState,
    accepted: bool,
    owner: Option<OwnerMetadata>,
    alive: bool,
) -> ReclaimStep {
    let step = reclaim_or_refuse(ReclaimStep::Inspect, ReclaimEvent::Inspected(state));
    let step = reclaim_or_refuse(step, ReclaimEvent::Connected(accepted));
    let step = reclaim_or_refuse(step, ReclaimEvent::OwnerRead(owner));
    reclaim_or_refuse(step, ReclaimEvent::OwnerSignalled(alive))
}

#[test]
fn only_a_socket_that_nobody_serves_is_reclaimed() {
    let owner = Some(OwnerMetadata {
        pid: 7,
        boot_secs: 8,
    });
    let ours = SocketInodeState::OurSocket;
    assert_eq!(reclaim(ours, false, None, false), ReclaimStep::Reclaim);
    assert_eq!(reclaim(ours, false, owner, false), ReclaimStep::Reclaim);
    assert_eq!(reclaim(ours, false, owner, true), ReclaimStep::GiveUp);
    assert_eq!(reclaim(ours, true, None, false), ReclaimStep::GiveUp);
    assert_eq!(
        reclaim(SocketInodeState::Missing, false, None, false),
        ReclaimStep::GiveUp
    );
    let file = |is_symlink: bool, is_socket: bool, uid: u32| PathInode::File {
        is_symlink,
        is_socket,
        uid,
    };
    assert_eq!(
        classify_socket_inode(file(true, true, 5), 5),
        SocketInodeState::Unsafe(UnsafeSocket::Symlink)
    );
    assert_eq!(
        classify_socket_inode(file(false, false, 5), 5),
        SocketInodeState::Unsafe(UnsafeSocket::NotASocket)
    );
    assert_eq!(
        classify_socket_inode(file(false, true, 6), 5),
        SocketInodeState::Unsafe(UnsafeSocket::ForeignOwner { uid: 6 })
    );
    assert_eq!(classify_socket_inode(file(false, true, 5), 5), ours);
    assert_eq!(
        reclaim(
            SocketInodeState::Unsafe(UnsafeSocket::Symlink),
            false,
            None,
            false
        ),
        ReclaimStep::Refuse(UnsafeSocket::Symlink)
    );
}

#[test]
fn an_unsafe_socket_is_told() {
    let said = |reason: UnsafeSocket| reason.message("/run/mux.sock", "denied", 5);
    assert_eq!(
        said(UnsafeSocket::Unknown),
        "cannot inspect existing socket path /run/mux.sock: denied"
    );
    assert_eq!(
        said(UnsafeSocket::Symlink),
        "refusing to bind over symlink at /run/mux.sock (potential redirect off the runtime dir)"
    );
    assert_eq!(
        said(UnsafeSocket::NotASocket),
        "refusing to bind over non-socket inode at /run/mux.sock (denied)"
    );
    assert_eq!(
        said(UnsafeSocket::ForeignOwner { uid: 6 }),
        "refusing to bind over socket at /run/mux.sock owned by uid 6 (current uid 5)"
    );
}

#[test]
fn an_idle_server_ends() {
    let mut state = ServerLoop::new();
    state.rearm(0, 100);
    assert_eq!(state.idle_deadline, None);
    state.rearm(30, 100);
    assert_eq!(state.idle_deadline, Some(130));
    state.rearm(30, 120);
    assert_eq!(state.idle_deadline, Some(130));
    assert!(state.on_event(ServerEvent::Accepted));
    state.rearm(30, 125);
    assert_eq!(state.idle_deadline, None);
    assert!(state.on_event(ServerEvent::ConnectionDone));
    assert_eq!(state.active_connections, 0);
    state.rearm(30, 200);
    assert_eq!(state.idle_deadline, Some(230));
    assert!(!state.on_event(ServerEvent::IdleExpired));
    assert!(!state.on_event(ServerEvent::ShutdownAcknowledged));
    assert!(state.on_event(ServerEvent::AcceptFailed));
}

#[test]
fn commands_are_told_by_their_first_argument() {
    assert_eq!(parse_command(&some("--version")), Command::Version);
    assert_eq!(parse_command(&some("status")), Command::Status);
    assert_eq!(parse_command(&some("kill")), Command::Kill);
    assert_eq!(parse_command(&some("else")), Command::Run);
    assert_eq!(parse_command(&None), Command::Run);
}

#[test]
fn a_session_is_named_by_a_flag() {
    assert!(matches!(
        parse_session_flag(&texts(&["kill"])),
        SessionFlag::Absent
    ));
    assert!(matches!(
        parse_session_flag(&texts(&["kill", "--session"])),
        SessionFlag::MissingValue
    ));
    for args in [["kill", "--session", ""], ["kill", "--session=", "s1"]] {
        assert!(matches!(parse_session_flag(&texts(&args)), SessionFlag::MissingValue));
    }
    for args in [["kill", "--session", "s1"], ["kill", "--session=s1", "x"]] {
        match parse_session_flag(&texts(&args)) {
            SessionFlag::Session(id) => assert_eq!(id, "s1"),
            other => panic!("{other:?}"),
        }
    }
}

#[test]
fn a_server_runs_since_it_started() {
    assert_eq!(running_seconds(Some(100), Some(50), 160), Some(60));
    assert_eq!(running_seconds(None, Some(50), 160), Some(110));
    assert_eq!(running_seconds(Some(200), None, 160), Some(0));
    assert_eq!(running_seconds(None, None, 160), None);
}

#[test]
fn the_status_is_told_in_lines() {
    let lines = status_lines(&StatusReport {
        uptime_seconds: Some(3_661),
        attached_clients: vec![1, 2],
        panes: vec![3, 4],
        memory: 5,
        socket: "/run/mux.sock".to_string(),
        pid: Some(77),
    });
    let all = lines.join("\n");
    assert!(all.contains("/run/mux.sock"), "{all}");
    assert!(all.contains("77"), "{all}");
    assert!(lines.iter().any(|line| line.ends_with(": 2") || line.contains(" 2")), "{all}");
    assert_ne!(uptime_text(Some(1)), uptime_text(None));
}

#[test]
fn paths_are_found() {
    assert_eq!(join("/a", "b"), "/a/b");
    assert_eq!(join("/a/", "b"), "/a/b");
    assert_eq!(join("/a", "/b"), "/b");
    assert_eq!(join("", "b"), "b");
    assert_eq!(
        resolve_settings_path(&some("/x.json"), &some("/c"), &some("/h")),
        some("/x.json")
    );
    let from_home = resolve_settings_path(&None, &None, &some("/h")).expect("path");
    assert!(from_home.starts_with("/h/"), "{from_home}");
    let from_config = resolve_settings_path(&None, &some("/c"), &some("/h")).expect("path");
    assert!(from_config.starts_with("/c/"), "{from_config}");
    assert_eq!(resolve_settings_path(&None, &None, &None), None);
    assert_eq!(default_socket_path(&some("/s"), &None), "/s");
    assert!(default_socket_path(&None, &some("/run/user/1")).starts_with("/run/user/1/"));
    assert_eq!(database_path(&some("/db"), &None), "/db");
    assert!(get_log_dir(true, &some("/h"), &None).starts_with("/h/Library/Logs"));
    assert!(get_log_dir(false, &None, &some("/d")).starts_with("/d/"));
    assert!(default_user_extensions_dir(&some("/c")).starts_with("/c/"));
    assert_eq!(default_serial_device(&some("/dev/x")), "/dev/x");
    let sidecars = socket_sidecars("/run/mux.sock");
    assert_ne!(sidecars.pid, sidecars.lock);
    assert!(sidecars.pid.starts_with("/run/"), "{}", sidecars.pid);
}

#[test]
fn numbers_are_read_and_written() {
    for n in [0u64, 7, 10, 99, 100, 12_345_678_901, u64::MAX] {
        assert_eq!(decimal_text(n), n.to_string());
        assert_eq!(parse_up_to(&decimal_text(n), u64::MAX), Some(n));
    }
    for text in ["", "+", "-1", "1 ", "0x1", "18446744073709551616", "١"] {
        assert_eq!(parse_up_to(text, u64::MAX), text.parse::<u64>().ok(), "{text}");
    }
    assert_eq!(parse_up_to("+5", 9), "+5".parse::<u64>().ok());
    assert_eq!(parse_up_to("0007", 9), Some(7));
    assert_eq!(parse_up_to("10", 9), None);
    for text in ["", " a b ", "\t\n x\u{a0}\u{2003}", "\u{3000}", "x"] {
        assert_eq!(trim(text), text.trim(), "{text:?}");
    }
}

#[test]
fn texts_are_ordered_as_strings_are() {
    let words = ["", "a", "ab", "b", "ä", "Z", "aa", "\u{10ffff}", "\u{e000}", "a\0"];
    for a in words {
        for b in words {
            assert_eq!(in_order(a, b), a <= b, "{a:?} {b:?}");
        }
    }
    assert!(same_in_any_order(&texts(&["b", "a", "b"]), &texts(&["b", "b", "a"])));
    assert!(!same_in_any_order(&texts(&["b", "a"]), &texts(&["b", "b"])));
    assert!(all_different(&texts(&["b", "a"])));
    assert!(!all_different(&texts(&["b", "a", "b"])));
}

#[test]
fn a_notification_is_not_lost() {
    let mut notify = Notify::new();
    assert_eq!(notify.notify_one(), None);
    assert!(notify.notified(1), "the permit is taken at once");
    assert!(!notify.notified(1));
    assert!(!notify.notified(2));
    assert_eq!(notify.notify_one(), Some(2), "the latest is woken first");
    assert_eq!(notify.notify_one(), Some(1));
    assert_eq!(notify.notify_one(), None);
    assert!(notify.notified(3));
    assert!(!Elapsed.message().is_empty());
    assert!(!JoinError.is_cancelled());
    assert!(!JoinError.message().is_empty());
    assert!(!SendError(7).message().is_empty());
}

#[test]
fn a_terminal_without_a_system_takes_input() {
    let mut pty = WasmPty::new();
    let size = PtySize {
        rows: 10,
        cols: 20,
        pixel_width: 0,
        pixel_height: 0,
    };
    pty.resize(size);
    assert_eq!(pty.size(), size);
    assert_eq!(pty.write(&b"abc".to_vec()), (3, None));
    pty.set_input_handler();
    assert_eq!(pty.write(&b"abc".to_vec()), (3, Some(b"abc".to_vec())));
    assert!(WasmChild.clone_killer().kill().is_ok());
}
