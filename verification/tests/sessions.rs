use mux_server::attach::{
    cleanup_connection_state, handle_attach, handle_detach, handle_new_window, mint_client_id,
    session_snapshot, AttachRequest, ClientIdentity,
};
use mux_server::connection_tasks::{wait_for_connection_tasks, TaskAction, TaskEvent, TaskState};
use mux_server::layout::{LayoutError, LayoutNode, LayoutTree, SplitDirection};
use mux_server::layout_refusals::{layout_error_message, LayoutNames};
use mux_server::pane::{check_scrollback_request, InputAction, PaneMetadata, ScrollbackError};
use mux_server::pane_access::{
    acknowledge, clipboard_recipients, clipboard_shown, handle_send_input,
    handle_set_clipboard, pane_to_change, shell_integration, snapshot_context_for_session,
    ClipboardEntry, ClipboardError, SendInput, ShellIntegration,
};
use mux_server::pane_requests::{
    can_resize_layout, close_layout_names, close_pane, focus_pane, pane_exited, plan_spawn_pane,
    plan_split_pane, refresh_pane, register_spawned_pane, register_split_pane, resize_layout,
    resize_layout_names, set_pane_title, spawn_layout_names, split_layout_names, zoom_pane,
};
use mux_server::persistence::persisted_session_state;
use mux_server::protocol::{
    begin_request, check_permission, denial_message, dispatch_request, effective_attach_role,
    finish_request, is_shutdown_ack, pre_attach_role, proto_role_to_client_role,
    read_frame_length, receive_envelope, required_role, Answer, AnswerBody, ConnectionTrust,
    Dispatch, EnvelopeAction, FrameLength, PayloadKind, RequestKind,
};
use mux_server::ratio::Ratio;
use mux_server::registry::{
    create_session, ensure_mutation_allowed, kill_session, list_sessions, refusal_is_answered,
    rename_session, ConnectionState, HandlerError, Notice, Notification,
};
use mux_server::request_messages::{refusal_message, RequestNames};
use mux_server::session::{AttachMode, ClientRole, PaneRecord, Session};

const MAX_WIRE: usize = 30;

fn new_session(id: &str) -> Session {
    Session::new(id.to_string(), id.to_string(), "/tmp".to_string(), 0)
}

fn pane(id: &str) -> PaneRecord {
    PaneRecord {
        id: id.to_string(),
        cwd: "/work".to_string(),
        title: "sh".to_string(),
        command: None,
        cols: 100,
        rows: 40,
        generation: 0,
        is_alive: true,
        zoomed: false,
    }
}

fn ratio(value: f32) -> Ratio {
    Ratio {
        bits: value.to_bits(),
    }
}

fn names(session_id: &str, pane_id: &str) -> RequestNames {
    RequestNames {
        session_id: session_id.to_string(),
        pane_id: pane_id.to_string(),
        new_pane_id: "new".to_string(),
        direction: -1,
        layout: LayoutNames::none(),
    }
}

/// A session `s` with panes `one` and `two` side by side in tab `tab`.
fn two_panes() -> Vec<Session> {
    let mut sessions = vec![new_session("s")];
    sessions[0].add_lifecycle_subscriber("client".to_string());
    register_spawned_pane(&mut sessions, "s", "tab", pane("one"), MAX_WIRE).expect("first pane");
    let plan = plan_split_pane(&sessions, &None, "one", 1, &None).expect("split plan");
    register_split_pane(
        &mut sessions,
        "one",
        &plan.tab_id,
        plan.direction,
        pane("two"),
        MAX_WIRE,
    )
    .expect("second pane");
    sessions
}

fn told(notices: &[Notice]) -> Vec<String> {
    notices
        .iter()
        .map(|notice| match &notice.event {
            Notification::PaneAdded { pane_id, tab_id } => format!("added {pane_id} {tab_id}"),
            Notification::PaneRemoved { pane_id, exit_code } => {
                format!("removed {pane_id} {exit_code}")
            }
            Notification::PaneFocused { pane_id } => format!("focused {pane_id}"),
            Notification::PaneTitleChanged { pane_id, title } => format!("title {pane_id} {title}"),
            Notification::PaneZoomed { pane_id, zoomed } => format!("zoomed {pane_id} {zoomed}"),
            Notification::LayoutChanged { session_id } => format!("layout {session_id}"),
            Notification::WindowAdded { window_id, .. } => format!("window {window_id}"),
            Notification::WindowRemoved { window_id, .. } => format!("window gone {window_id}"),
            Notification::LayoutCleared => "layout cleared".to_string(),
        })
        .collect()
}

#[test]
fn spawn_pane_rejects_missing_session_before_spawning() {
    let error = plan_spawn_pane(&Vec::new(), &None, "missing", &None, Some((80, 24)))
        .err()
        .expect("missing session must fail before child spawn");
    assert_eq!(error, HandlerError::SessionNotFound);
    assert!(!refusal_is_answered(error));
    assert_eq!(
        refusal_message(
            RequestKind::SpawnPane,
            false,
            error,
            &names("missing", ""),
            MAX_WIRE
        ),
        "session not found: missing"
    );
    let gone = register_spawned_pane(&mut Vec::new(), "missing", "tab", pane("one"), MAX_WIRE)
        .err()
        .expect("session gone");
    assert_eq!(
        refusal_message(
            RequestKind::SpawnPane,
            true,
            gone,
            &names("missing", ""),
            MAX_WIRE
        ),
        "session removed while spawning pane: missing"
    );
}

#[test]
fn a_pane_takes_its_directory_and_size_from_its_session() {
    let sessions = vec![new_session("s")];
    let plan = plan_spawn_pane(&sessions, &None, "s", &None, None).expect("plan");
    assert_eq!((plan.cwd.as_str(), plan.cols, plan.rows), ("/tmp", 80, 24));
    let plan = plan_spawn_pane(
        &sessions,
        &None,
        "s",
        &Some("/else".to_string()),
        Some((10, 5)),
    )
    .expect("plan");
    assert_eq!((plan.cwd.as_str(), plan.cols, plan.rows), ("/else", 10, 5));
}

#[test]
fn spawning_registers_the_pane_everywhere() {
    let mut sessions = vec![new_session("s")];
    sessions[0].add_lifecycle_subscriber("client".to_string());
    sessions[0].add_tab("tab-1".to_string(), "one".to_string());
    let notices = register_spawned_pane(&mut sessions, "s", "tab-2", pane("one"), MAX_WIRE)
        .expect("spawned");
    assert_eq!(told(&notices), vec!["added one tab-2", "layout s"]);
    assert_eq!(notices[0].recipients, vec!["client"]);
    let session = &sessions[0];
    assert_eq!(session.layout.pane_ids(), vec!["one"]);
    assert_eq!(session.focused_pane.as_deref(), Some("one"));
    assert_eq!(session.focused_tab.as_deref(), Some("tab-2"));
    assert!(session.has_pane("one"));
    let tab = session.tabs.iter().find(|tab| tab.id == "tab-2").expect("tab");
    assert_eq!(tab.pane_ids, vec!["one"]);
    assert!(persisted_session_state(session).is_ok());

    // The next one goes beside the focused one, one above the other.
    register_spawned_pane(&mut sessions, "s", "tab-1", pane("two"), MAX_WIRE).expect("spawned");
    assert_eq!(sessions[0].layout.pane_ids(), vec!["one", "two"]);
    assert_eq!(sessions[0].focused_tab.as_deref(), Some("tab-1"));
    assert!(persisted_session_state(&sessions[0]).is_ok());

    // The same identifier again is refused and changes nothing.
    let before = format!("{:?}", sessions);
    let error = register_spawned_pane(&mut sessions, "s", "tab-1", pane("two"), MAX_WIRE)
        .err()
        .expect("refused");
    assert_eq!(error, HandlerError::Layout(LayoutError::PaneAlreadyExists));
    assert!(refusal_is_answered(error));
    assert_eq!(format!("{:?}", sessions), before);
    assert_eq!(
        refusal_message(RequestKind::SpawnPane, true, error, &names("s", ""), MAX_WIRE),
        "spawn pane rejected: pane already exists in layout: new"
    );
}

#[test]
fn splitting_a_pane_follows_its_parent() {
    let sessions = two_panes();
    assert_eq!(sessions[0].layout.pane_ids(), vec!["one", "two"]);
    let plan = plan_split_pane(&sessions, &None, "two", 2, &Some(String::new())).expect("plan");
    assert_eq!(plan.session_id, "s");
    assert_eq!(plan.tab_id, "tab");
    assert_eq!(plan.direction, SplitDirection::TopBottom);
    assert_eq!((plan.cwd.as_str(), plan.cols, plan.rows), ("/work", 100, 40));
    let plan = plan_split_pane(&sessions, &None, "two", 9, &Some("/x".to_string())).expect("plan");
    assert_eq!(plan.direction, SplitDirection::LeftRight);
    assert_eq!(plan.cwd, "/x");

    let error = plan_split_pane(&sessions, &None, "none", 1, &None)
        .err()
        .expect("refused");
    assert_eq!(error, HandlerError::PaneNotFound);
    assert_eq!(
        refusal_message(RequestKind::SplitPane, false, error, &names("s", "none"), MAX_WIRE),
        "pane not found"
    );
    let mut loose = two_panes();
    loose[0].tabs.clear();
    let error = plan_split_pane(&loose, &None, "one", 1, &None)
        .err()
        .expect("refused");
    assert_eq!(error, HandlerError::PaneWithoutTab);
    assert_eq!(
        refusal_message(RequestKind::SplitPane, false, error, &names("s", "one"), MAX_WIRE),
        "pane is not assigned to a tab: one"
    );
}

#[test]
fn closing_a_pane_moves_the_focus() {
    let mut sessions = two_panes();
    assert_eq!(sessions[0].focused_pane.as_deref(), Some("two"));
    let notices = close_pane(&mut sessions, &None, "two", MAX_WIRE).expect("closed");
    assert_eq!(told(&notices), vec!["removed two 0", "layout s"]);
    assert_eq!(sessions[0].focused_pane.as_deref(), Some("one"));
    assert_eq!(sessions[0].focused_tab.as_deref(), Some("tab"));
    assert!(persisted_session_state(&sessions[0]).is_ok());
    let error = close_pane(&mut sessions, &None, "two", MAX_WIRE)
        .err()
        .expect("refused");
    assert_eq!(
        refusal_message(RequestKind::ClosePane, false, error, &names("s", "two"), MAX_WIRE),
        "pane not found: two"
    );

    let notices = pane_exited(&mut sessions, "s", "one", MAX_WIRE);
    assert!(!notices.is_empty());
    assert!(sessions[0].layout.is_empty_root());
    assert!(sessions[0].focused_pane.is_none());
    assert!(pane_exited(&mut sessions, "s", "one", MAX_WIRE).is_empty());
    assert!(pane_exited(&mut sessions, "none", "one", MAX_WIRE).is_empty());
}

#[test]
fn focusing_titling_and_zooming_are_told() {
    let mut sessions = two_panes();
    let notices = focus_pane(&mut sessions, &None, "one").expect("focused");
    assert_eq!(told(&notices), vec!["focused one", "layout s"]);
    assert_eq!(sessions[0].focused_pane.as_deref(), Some("one"));
    let notice = set_pane_title(&mut sessions, &None, "one", "vi".to_string()).expect("titled");
    assert_eq!(told(&[notice]), vec!["title one vi"]);
    assert_eq!(sessions[0].panes[0].title, "vi");
    assert_eq!(sessions[0].panes[0].generation, 1);
    let notices = zoom_pane(&mut sessions, &None, "one", true).expect("zoomed");
    assert_eq!(told(&notices), vec!["zoomed one true", "layout s"]);
    assert!(sessions[0].panes[0].zoomed);
    assert_eq!(sessions[0].panes[0].generation, 2);
    assert_eq!(sessions[0].panes[1].generation, 0);
    let error = set_pane_title(&mut sessions, &None, "none", String::new())
        .err()
        .expect("refused");
    assert_eq!(
        refusal_message(RequestKind::SetPaneTitle, false, error, &names("s", "none"), MAX_WIRE),
        "set_pane_title: pane none not found"
    );
    assert_eq!(
        refusal_message(RequestKind::ZoomPane, false, error, &names("s", "none"), MAX_WIRE),
        "zoom_pane: pane none not found"
    );
}

#[test]
fn resizing_a_layout_moves_an_edge() {
    let mut sessions = two_panes();
    assert!(can_resize_layout(&sessions, "one", 1));
    let notices = resize_layout(&mut sessions, &None, "one", 1, ratio(0.25), MAX_WIRE)
        .expect("resized");
    assert_eq!(told(&notices), vec!["layout s"]);
    let shape = format!("{:?}", sessions[0].layout.root);
    assert!(shape.contains(&format!("{}", 0.75f32.to_bits())), "{shape}");
    let error = resize_layout(&mut sessions, &None, "one", 7, ratio(0.25), MAX_WIRE)
        .err()
        .expect("refused");
    assert_eq!(error, HandlerError::InvalidDirection);
    assert_eq!(
        refusal_message(RequestKind::ResizeLayout, false, error, &names("s", "one"), MAX_WIRE),
        "invalid split direction: -1"
    );
    let error = resize_layout(&mut sessions, &None, "one", 2, ratio(0.25), MAX_WIRE)
        .err()
        .expect("refused");
    assert_eq!(
        refusal_message(RequestKind::ResizeLayout, false, error, &names("s", "one"), MAX_WIRE),
        "pane has no matching layout split: one"
    );
    let error = resize_layout(&mut sessions, &None, "one", 1, ratio(f32::NAN), MAX_WIRE)
        .err()
        .expect("refused");
    assert_eq!(error, HandlerError::Layout(LayoutError::NonFiniteDelta));
}

#[test]
fn a_layout_says_what_it_does_not_take() {
    let said = |error: LayoutError, removing: bool| {
        layout_error_message(error, removing, "p", "q", &LayoutNames::none(), MAX_WIRE)
    };
    assert_eq!(said(LayoutError::PaneNotFound, false), "pane not found: p");
    assert_eq!(
        said(LayoutError::PaneNotFound, true),
        "pane not found in layout: p"
    );
    assert_eq!(
        said(LayoutError::WireDepth, false),
        "layout wire depth exceeds maximum of 30"
    );
    assert_eq!(
        said(LayoutError::InternalDepth, false),
        "layout depth exceeds internal maximum of 128"
    );
    assert_eq!(
        said(LayoutError::SoleRootPane, true),
        "cannot remove sole root pane: layout would be empty"
    );
}

fn leaf(id: &str, pane_id: &str) -> LayoutNode {
    LayoutNode::Pane {
        id: id.to_string(),
        pane_id: pane_id.to_string(),
    }
}

fn row(id: &str, children: Vec<LayoutNode>) -> LayoutNode {
    let share = ratio(1.0 / children.len() as f32);
    LayoutNode::Split {
        id: id.to_string(),
        direction: SplitDirection::LeftRight,
        ratios: vec![share; children.len()],
        children,
    }
}

/// A session `s` that shows this tree, with its panes in tab `tab`.
fn showing(root: LayoutNode) -> Vec<Session> {
    let mut session = new_session("s");
    session.layout = LayoutTree { root };
    session.add_tab("tab".to_string(), String::new());
    for id in session.layout.pane_ids() {
        session.tabs[0].pane_ids.push(id.clone());
        if session.panes.iter().all(|pane| pane.id != id) {
            session.panes.push(pane(&id));
        }
    }
    vec![session]
}

#[test]
fn a_refused_change_names_what_is_repeated() {
    // Nothing is named twice before, but the halves of `a` would be.
    let mut sessions = showing(row("r", vec![leaf("a", "one"), leaf("a-left", "two")]));
    let before = format!("{:?}", sessions);
    let along = SplitDirection::TopBottom;
    let error = register_split_pane(&mut sessions, "one", "tab", along, pane("new"), MAX_WIRE)
        .err()
        .expect("refused");
    assert_eq!(error, HandlerError::Layout(LayoutError::DuplicateNodeId));
    let mut said = names("s", "one");
    said.layout = split_layout_names(&sessions, "one", "new", along);
    assert_eq!(
        refusal_message(RequestKind::SplitPane, true, error, &said, MAX_WIRE),
        "split pane rejected: duplicate layout node id: a-left"
    );
    let error = register_spawned_pane(&mut sessions, "s", "tab", pane("new"), MAX_WIRE)
        .err()
        .expect("refused");
    said.layout = spawn_layout_names(&sessions, "s", "new");
    assert_eq!(
        refusal_message(RequestKind::SpawnPane, true, error, &said, MAX_WIRE),
        "spawn pane rejected: duplicate layout node id: a-left"
    );
    assert_eq!(format!("{:?}", sessions), before);

    // A split goes by the identifier of the pane of the node that is split.
    let inner = row("n", vec![leaf("x", "two"), leaf("y", "three")]);
    let mut sessions = showing(row("r", vec![inner, leaf("n", "one")]));
    let error = register_split_pane(&mut sessions, "one", "tab", along, pane("new"), MAX_WIRE)
        .err()
        .expect("refused");
    said.layout = split_layout_names(&sessions, "one", "new", along);
    assert_eq!(
        refusal_message(RequestKind::SplitPane, true, error, &said, MAX_WIRE),
        "split pane rejected: node not found: n"
    );

    let twice = vec![leaf("a", "one"), leaf("b", "two"), leaf("b", "three")];
    let mut sessions = showing(row("r", twice));
    let error = close_pane(&mut sessions, &None, "one", MAX_WIRE).err().expect("refused");
    said.layout = close_layout_names(&sessions, "one");
    assert_eq!(
        refusal_message(RequestKind::ClosePane, false, error, &said, MAX_WIRE),
        "duplicate layout node id: b"
    );

    let mut sessions = showing(row("r", vec![leaf("a", "one"), leaf("b", "one")]));
    let error = resize_layout(&mut sessions, &None, "one", 1, ratio(0.1), MAX_WIRE)
        .err()
        .expect("refused");
    said.layout = resize_layout_names(&sessions, "one");
    assert_eq!(
        refusal_message(RequestKind::ResizeLayout, false, error, &said, MAX_WIRE),
        "duplicate pane id in layout: one"
    );
}

fn attach(client: &str, mode: i32, window: &str) -> AttachRequest {
    AttachRequest {
        session_id: "s".to_string(),
        identity: Some(ClientIdentity {
            client_id: client.to_string(),
            role: 0,
        }),
        mode,
        window_id: window.to_string(),
    }
}

fn connection() -> ConnectionState {
    ConnectionState {
        role: None,
        client_id: None,
    }
}

#[test]
fn stealing_a_session_puts_the_others_out() {
    let mut sessions = two_panes();
    sessions[0].lifecycle_subscribers.clear();
    let mut first = connection();
    let mut second = connection();
    let id = mint_client_id(&attach("gui", 1, "").identity, "1", "anon".to_string());
    assert_eq!(id, "gui-1");
    handle_attach(
        &attach("gui", 1, "win-1"),
        &mut sessions,
        &mut first,
        ConnectionTrust::LocalSocket,
        id,
    )
    .expect("attached");
    assert_eq!(first.client_id.as_deref(), Some("gui-1"));
    assert_eq!(sessions[0].get_windows(), vec!["win-1"]);
    assert!(ensure_mutation_allowed(&sessions, &first.client_id).is_ok());

    let outcome = handle_attach(
        &attach("gui", 2, "win-2"),
        &mut sessions,
        &mut second,
        ConnectionTrust::LocalSocket,
        "gui-2".to_string(),
    )
    .expect("attached");
    assert_eq!(outcome.kicked, vec!["gui-1"]);
    assert_eq!(outcome.snapshot.session_id, "s");
    assert_eq!(sessions[0].attached_client_count(), 1);
    let error = ensure_mutation_allowed(&sessions, &first.client_id)
        .err()
        .expect("kicked");
    assert_eq!(error, HandlerError::NotAttached);
    assert!(refusal_is_answered(error));
    assert_eq!(
        refusal_message(RequestKind::ClosePane, false, error, &names("s", "one"), MAX_WIRE),
        "client not attached (kicked or detached)"
    );

    let before = format!("{:?}", sessions);
    assert_eq!(
        close_pane(&mut sessions, &first.client_id, "one", MAX_WIRE).err(),
        Some(HandlerError::NotAttached)
    );
    assert_eq!(
        set_pane_title(&mut sessions, &first.client_id, "one", "x".to_string()).err(),
        Some(HandlerError::NotAttached)
    );
    assert_eq!(
        pane_to_change(&sessions, &first.client_id, "one").err(),
        Some(HandlerError::NotAttached)
    );
    assert_eq!(format!("{:?}", sessions), before);

    handle_detach(&mut sessions, &mut second);
    assert!(second.client_id.is_none());
    assert_eq!(sessions[0].attached_client_count(), 0);
}

#[test]
fn a_connection_that_ends_releases_its_window() {
    let mut sessions = two_panes();
    sessions[0].lifecycle_subscribers.clear();
    let mut first = connection();
    let mut second = connection();
    for (state, id, window) in [
        (&mut first, "gui-1", "win-1"),
        (&mut second, "gui-2", "win-2"),
    ] {
        handle_attach(
            &attach("gui", 1, window),
            &mut sessions,
            state,
            ConnectionTrust::LocalSocket,
            id.to_string(),
        )
        .expect("attached");
    }
    let notices = cleanup_connection_state(&mut sessions, &first.client_id);
    assert_eq!(told(&notices), vec!["window gone win-1"]);
    assert_eq!(notices[0].recipients, vec!["gui-2"]);
    assert_eq!(sessions[0].get_windows(), vec!["win-2"]);
    assert_eq!(sessions[0].attached_client_count(), 1);
}

#[test]
fn attaching_needs_a_session() {
    let mut sessions = Vec::new();
    let mut state = connection();
    let error = handle_attach(
        &attach("gui", 1, ""),
        &mut sessions,
        &mut state,
        ConnectionTrust::LocalSocket,
        "gui-1".to_string(),
    )
    .err()
    .expect("refused");
    assert_eq!(error, HandlerError::SessionNotFound);
    assert!(state.client_id.is_none());
    assert_eq!(
        handle_new_window(&sessions, &None, "s").err(),
        Some(HandlerError::SessionNotFound)
    );
}

#[test]
fn a_snapshot_lists_the_panes_of_each_tab() {
    let sessions = two_panes();
    let snapshot = session_snapshot(&sessions[0]);
    assert_eq!(snapshot.focused_pane_id, "two");
    assert_eq!(snapshot.focused_tab_id, "tab");
    assert_eq!(snapshot.tabs.len(), 1);
    let panes: Vec<&str> = snapshot.tabs[0]
        .panes
        .iter()
        .map(|pane| pane.id.as_str())
        .collect();
    assert_eq!(panes, vec!["one", "two"]);
    assert!(snapshot.layout.is_some());
    assert!(session_snapshot(&new_session("s")).layout.is_none());
}

#[test]
fn sessions_are_created_listed_renamed_and_killed() {
    let mut sessions = Vec::new();
    let info = create_session(
        &mut sessions,
        "s".to_string(),
        "name".to_string(),
        "/tmp".to_string(),
        5,
    );
    assert_eq!((info.id.as_str(), info.created_timestamp), ("s", 0));
    assert_eq!(list_sessions(&sessions)[0].created_timestamp, 5);
    rename_session(&mut sessions, &None, "s", "other".to_string()).expect("renamed");
    let listed = list_sessions(&sessions);
    assert_eq!(listed.len(), 1);
    assert_eq!((listed[0].name.as_str(), listed[0].attached_clients), ("other", 0));
    assert_eq!(
        rename_session(&mut sessions, &None, "none", String::new()).err(),
        Some(HandlerError::SessionNotFound)
    );
    assert!(kill_session(&mut sessions, &None, "none").expect("allowed").is_none());
    assert!(kill_session(&mut sessions, &None, "s").expect("allowed").is_some());
    assert!(sessions.is_empty());
}

#[test]
fn input_goes_to_panes_and_the_clipboard() {
    let sessions = two_panes();
    assert!(matches!(
        handle_send_input(&sessions, &None, "one", b"ls\n", false),
        Ok(SendInput::Pane(InputAction::Write))
    ));
    assert!(matches!(
        handle_send_input(&sessions, &None, "one", b"\x1b[?2004h", false),
        Ok(SendInput::Pane(InputAction::MarkPastes))
    ));
    assert!(matches!(
        handle_send_input(&sessions, &None, "one", b"\x1b[?2004l", false),
        Ok(SendInput::Pane(InputAction::DoNotMarkPastes))
    ));
    assert!(matches!(
        handle_send_input(&sessions, &None, "one", b"", true),
        Ok(SendInput::SetClipboard)
    ));
    assert_eq!(
        handle_send_input(&sessions, &None, "none", b"", true).err(),
        Some(HandlerError::PaneNotFound)
    );
    assert_eq!(clipboard_recipients(&sessions), vec!["client"]);
    let empty = clipboard_shown(None);
    assert!(empty.is_text && empty.data.is_empty());
    let shown = clipboard_shown(Some(ClipboardEntry {
        is_text: true,
        data: b"x".to_vec(),
        origin_host: "host".to_string(),
    }));
    assert_eq!(shown.origin_host, "host");
    assert_eq!(
        shell_integration("none", None).unwrap_err(),
        "shell_integration: pane none not found"
    );
    let found = shell_integration(
        "one",
        Some(ShellIntegration {
            cwd: "/tmp".to_string(),
            prompt_marker: 2,
        }),
    )
    .expect("found");
    assert_eq!(found.prompt_marker, 2);
    assert!(snapshot_context_for_session(&sessions, "none", true).is_err());
    assert_eq!(
        snapshot_context_for_session(&sessions, "s", true).expect("context"),
        "/tmp"
    );
    let refused = acknowledge(Err("no".to_string()));
    assert!(!refused.success);
    assert_eq!(refused.error, "no");
    assert!(acknowledge(Ok(())).success);
}

#[test]
fn a_reader_may_not_change_anything() {
    assert!(check_permission(ClientRole::Admin, ClientRole::ReadWrite));
    assert!(!check_permission(ClientRole::ReadOnly, ClientRole::ReadWrite));
    assert!(!check_permission(ClientRole::ReadWrite, ClientRole::Admin));
    assert_eq!(required_role(RequestKind::KillSession), ClientRole::Admin);
    assert_eq!(required_role(RequestKind::SendInput), ClientRole::ReadWrite);
    assert_eq!(required_role(RequestKind::ReadFile), ClientRole::ReadOnly);
    assert_eq!(
        effective_attach_role(ClientRole::Admin, AttachMode::ReadOnly),
        ClientRole::ReadOnly
    );
    assert_eq!(
        effective_attach_role(ClientRole::Admin, AttachMode::Shared),
        ClientRole::Admin
    );
    assert_eq!(proto_role_to_client_role(1), ClientRole::ReadOnly);
    for kind in [RequestKind::SendInput, RequestKind::KillSession] {
        assert_eq!(
            pre_attach_role(ConnectionTrust::Unauthenticated, kind),
            ClientRole::ReadOnly
        );
        assert_eq!(
            dispatch_request(Some(kind), Some(ClientRole::ReadOnly), ConnectionTrust::LocalSocket),
            Dispatch::Denied(required_role(kind))
        );
        assert_eq!(
            dispatch_request(Some(kind), None, ConnectionTrust::LocalSocket),
            Dispatch::Handle(kind)
        );
        assert!(!denial_message(kind).is_empty());
    }
    assert_eq!(
        dispatch_request(None, None, ConnectionTrust::LocalSocket),
        Dispatch::EmptyBody
    );
    assert_eq!(
        dispatch_request(
            Some(RequestKind::InstallExtension),
            None,
            ConnectionTrust::LocalSocket
        ),
        Dispatch::Denied(ClientRole::Admin)
    );
}

#[test]
fn the_first_envelope_must_be_of_our_version() {
    assert_eq!(
        receive_envelope(true, Some(2), 1, Some(PayloadKind::Request)),
        EnvelopeAction::RejectVersion
    );
    assert_eq!(
        receive_envelope(true, Some(1), 1, Some(PayloadKind::Request)),
        EnvelopeAction::Dispatch
    );
    assert_eq!(
        receive_envelope(false, Some(2), 1, Some(PayloadKind::Request)),
        EnvelopeAction::Dispatch
    );
    assert_eq!(
        receive_envelope(false, Some(1), 1, Some(PayloadKind::Notification)),
        EnvelopeAction::Ignore
    );
    assert!(is_shutdown_ack(true, 7, Some(7)));
    assert!(!is_shutdown_ack(true, 7, Some(8)));
    assert!(!is_shutdown_ack(false, 7, Some(7)));
}

#[test]
fn frame_lengths_are_read_seven_bits_at_a_time() {
    assert_eq!(
        read_frame_length(&vec![0x7f], 10, 1000),
        FrameLength::Complete {
            length: 127,
            consumed: 1
        }
    );
    assert_eq!(
        read_frame_length(&vec![0xac, 0x02, 9], 10, 1000),
        FrameLength::Complete {
            length: 300,
            consumed: 2
        }
    );
    assert_eq!(
        read_frame_length(&vec![0xac], 10, 1000),
        FrameLength::Incomplete
    );
    assert_eq!(
        read_frame_length(&vec![0xac, 0x02], 10, 299),
        FrameLength::TooLarge { length: 300 }
    );
    assert_eq!(
        read_frame_length(&vec![0xff; 10], 10, 1000),
        FrameLength::Overlong
    );
}

#[test]
fn synchronised_scrolling_is_turned_on_and_off() {
    let mut session = new_session("s");
    session.set_sync_scrollback_offset("one".to_string(), 7);
    let state = session.get_sync_scrollback();
    assert_eq!(format!("{state:?}").matches('7').count(), 1);
    session.disable_sync_scrollback();
    assert!(format!("{:?}", session.get_sync_scrollback()).contains("false"));
    assert!(session.is_empty());
    assert!(session.add_window("w".to_string()));
    assert!(!session.add_window("w".to_string()));
    assert_eq!(session.window_count(), 1);
    assert!(session.has_window("w"));
    session.remove_window("w");
    assert!(!session.has_window("w"));
    session.layout = LayoutTree::with_pane("n".to_string(), "p".to_string());
    session.set_focused_pane("p".to_string());
    assert_eq!(session.get_focused_pane(), Some("p"));
}

#[test]
fn a_writer_that_ends_stops_the_reader() {
    let mut state = TaskState::Running;
    assert_eq!(
        wait_for_connection_tasks(&mut state, TaskEvent::WriterEnded),
        TaskAction::StopReader
    );
    assert_eq!(
        wait_for_connection_tasks(&mut state, TaskEvent::ReaderEnded),
        TaskAction::CleanUp
    );
    assert_eq!(state, TaskState::Closed);
}

#[test]
fn a_reader_that_ends_lets_the_writer_finish() {
    let mut state = TaskState::Running;
    assert_eq!(
        wait_for_connection_tasks(&mut state, TaskEvent::ReaderEnded),
        TaskAction::CleanUpAndDrain
    );
    let mut stalled = state;
    assert_eq!(
        wait_for_connection_tasks(&mut state, TaskEvent::WriterEnded),
        TaskAction::Wait
    );
    assert_eq!(state, TaskState::Closed);
    assert_eq!(
        wait_for_connection_tasks(&mut stalled, TaskEvent::DrainExpired),
        TaskAction::StopWriter
    );
    assert_eq!(
        wait_for_connection_tasks(&mut stalled, TaskEvent::WriterEnded),
        TaskAction::Wait
    );
    assert_eq!(stalled, TaskState::Closed);
}

#[test]
fn the_clipboard_is_set_by_those_that_may() {
    let sessions = two_panes();
    let entry = || {
        Some(ClipboardEntry {
            is_text: true,
            data: b"x".to_vec(),
            origin_host: String::new(),
        })
    };
    let change = handle_set_clipboard(&sessions, &None, entry()).expect("set");
    assert_eq!(change.entry.data, b"x");
    assert_eq!(change.recipients, vec!["client"]);
    let error = handle_set_clipboard(&sessions, &None, None).err().expect("refused");
    assert_eq!(error, ClipboardError::NoEntry);
    assert_eq!(error.message(), "empty clipboard entry");
    assert_eq!(
        handle_set_clipboard(&sessions, &Some("gone".to_string()), entry()).err(),
        Some(ClipboardError::NotAttached)
    );
}

#[test]
fn clients_that_cannot_be_reached_are_forgotten() {
    let mut session = new_session("s");
    for client in ["a", "b", "c"] {
        session.add_lifecycle_subscriber(client.to_string());
    }
    session.drop_lifecycle_subscribers(&vec!["c".to_string(), "a".to_string()]);
    assert_eq!(session.lifecycle_subscribers, vec!["b"]);
}

#[test]
fn what_is_known_of_a_pane_is_taken_over() {
    let mut sessions = two_panes();
    let metadata = || PaneMetadata {
        title: "top".to_string(),
        generation: 9,
        cols: 77,
        rows: 11,
        is_alive: false,
        zoomed: true,
    };
    assert!(refresh_pane(&mut sessions, "two", metadata(), "/new".to_string()));
    let two = &sessions[0].panes[1];
    assert_eq!((two.title.as_str(), two.cwd.as_str()), ("top", "/new"));
    assert_eq!((two.generation, two.cols, two.rows), (9, 77, 11));
    assert!(!two.is_alive && two.zoomed);
    let one = &sessions[0].panes[0];
    assert_eq!((one.title.as_str(), one.generation, one.cols), ("sh", 0, 100));
    assert!(!refresh_pane(&mut sessions, "none", metadata(), String::new()));
}

#[test]
fn kicked_client_is_rejected_before_pane_mutation() {
    let mut session = new_session("session-1");
    let mut kicked_pane = pane("kicked-pane");
    kicked_pane.title = String::new();
    kicked_pane.cols = 20;
    kicked_pane.rows = 5;
    session.panes.push(kicked_pane);
    session.add_attached_client(
        "client-1".to_string(),
        AttachMode::Shared,
        ClientRole::ReadWrite,
        None,
    );
    let mut sessions = vec![session];

    // The connection keeps its name, but the session no longer lists it.
    sessions[0].remove_attached_client("client-1");
    let kicked = Some("client-1".to_string());

    let title = "should-not-stick".to_string();
    let error = set_pane_title(&mut sessions, &kicked, "kicked-pane", title)
        .err()
        .expect("a client that was put out sets no title");
    assert!(refusal_is_answered(error));
    assert_eq!(sessions[0].panes[0].title, "");

    let error = focus_pane(&mut sessions, &kicked, "kicked-pane")
        .err()
        .expect("a client that was put out moves no focus");
    assert!(refusal_is_answered(error));
    assert_eq!(sessions[0].focused_pane, None);

    let error = zoom_pane(&mut sessions, &kicked, "kicked-pane", true)
        .err()
        .expect("a client that was put out zooms nothing");
    assert!(refusal_is_answered(error));
    assert!(!sessions[0].panes[0].zoomed);

    // A connection that never attached names its pane, and may change it.
    let title = "cli-title".to_string();
    assert!(set_pane_title(&mut sessions, &None, "kicked-pane", title).is_ok());
    assert_eq!(sessions[0].panes[0].title, "cli-title");
}

#[test]
fn split_spawn_failure_preserves_layout_and_registry() {
    let mut session = new_session("split-session");
    let mut parent = pane("parent-pane");
    parent.cols = 20;
    parent.rows = 5;
    session.panes.push(parent);
    session.add_tab("tab-1".to_string(), "shell".to_string());
    session.tabs[0].pane_ids.push("parent-pane".to_string());
    session.layout = LayoutTree::with_pane("node-1".to_string(), "parent-pane".to_string());
    session.focused_pane = Some("parent-pane".to_string());
    session.focused_tab = Some("tab-1".to_string());
    let sessions = vec![session];

    // The plan stands; the program cannot be started, so nothing is registered.
    let plan = plan_split_pane(&sessions, &None, "parent-pane", 1, &None).expect("split plan");
    assert_eq!((plan.session_id.as_str(), plan.tab_id.as_str()), ("split-session", "tab-1"));

    let session = &sessions[0];
    assert_eq!(session.layout.pane_ids(), vec!["parent-pane"]);
    let registered: Vec<&str> = session.panes.iter().map(|pane| pane.id.as_str()).collect();
    assert_eq!(registered, vec!["parent-pane"]);
    assert_eq!(session.tabs[0].pane_ids, vec!["parent-pane"]);
    assert_eq!(session.focused_pane.as_deref(), Some("parent-pane"));
}

#[test]
fn spawn_into_second_tab_keeps_layout_registry_and_focus_coherent() {
    let mut session = new_session("tab-session");
    session.add_tab("tab-1".to_string(), "one".to_string());
    session.focused_tab = Some("tab-1".to_string());
    let mut sessions = vec![session];

    let pane_ids = ["pane-1", "pane-2"];
    for (tab_id, pane_id) in ["tab-1", "tab-2"].into_iter().zip(pane_ids) {
        let plan = plan_spawn_pane(&sessions, &None, "tab-session", &None, Some((20, 5)))
            .expect("spawn plan");
        let mut record = pane(pane_id);
        record.cwd = plan.cwd;
        record.cols = plan.cols;
        record.rows = plan.rows;
        register_spawned_pane(&mut sessions, "tab-session", tab_id, record, MAX_WIRE)
            .expect("spawn tab pane");
    }

    let session = &sessions[0];
    let mut layout_ids = session.layout.pane_ids();
    layout_ids.sort();
    let mut registry_ids: Vec<String> = session.panes.iter().map(|pane| pane.id.clone()).collect();
    registry_ids.sort();
    assert_eq!(layout_ids, registry_ids);
    let panes_of = |id: &str| {
        let tab = session.tabs.iter().find(|tab| tab.id == id).expect("tab");
        tab.pane_ids.clone()
    };
    assert_eq!(panes_of("tab-1"), vec![pane_ids[0]]);
    assert_eq!(panes_of("tab-2"), vec![pane_ids[1]]);
    assert_eq!(session.focused_tab.as_deref(), Some("tab-2"));
    assert_eq!(session.focused_pane.as_deref(), Some(pane_ids[1]));
}

#[test]
fn fetch_scrollback_rejects_malformed_requests_with_typed_error() {
    let fits = |count: u32| u64::from(count) * 4 <= 1_000_000;
    let told = |direction: u32, count: u32| {
        check_scrollback_request(direction, fits(count))
            .map_err(|error| error.message(direction, count, "exceeds protocol grid limit"))
    };

    assert_eq!(check_scrollback_request(2, fits(10)), Err(ScrollbackError::Direction));
    assert_eq!(told(2, 10), Err("invalid scrollback direction: 2".to_string()));

    assert_eq!(check_scrollback_request(1, fits(u32::MAX)), Err(ScrollbackError::Rows));
    assert_eq!(
        told(1, u32::MAX),
        Err("invalid scrollback count 4294967295: exceeds protocol grid limit".to_string())
    );

    assert_eq!(told(1, 10), Ok(()));
    assert_eq!(told(0, 10), Ok(()));
}

fn said(answers: &[Answer<u32>]) -> Vec<(u64, Result<u32, String>)> {
    answers
        .iter()
        .map(|answer| {
            let body = match &answer.body {
                AnswerBody::Body(body) => Ok(*body),
                AnswerBody::Error(message) => Err(message.clone()),
            };
            (answer.request_id, body)
        })
        .collect()
}

#[test]
fn every_request_is_answered_once() {
    let trust = ConnectionTrust::LocalSocket;
    let mut answers: Vec<Answer<u32>> = Vec::new();
    assert_eq!(begin_request(&mut answers, 1, None, None, trust), None);
    let reader = Some(ClientRole::ReadOnly);
    let kind = Some(RequestKind::KillSession);
    assert_eq!(begin_request(&mut answers, 2, kind, reader, trust), None);
    let admin = Some(ClientRole::Admin);
    let stop = Some(RequestKind::Shutdown);
    assert_eq!(begin_request(&mut answers, 3, stop, admin, trust), None);
    let list = RequestKind::ListSessions;
    assert_eq!(begin_request(&mut answers, 4, Some(list), reader, trust), Some(list));
    assert!(finish_request(&mut answers, 4, list, Ok(7)));
    let changed = RequestKind::ListChangedFiles;
    assert_eq!(begin_request(&mut answers, 5, Some(changed), reader, trust), Some(changed));
    assert!(finish_request(&mut answers, 5, changed, Err("no watch".to_string())));
    assert_eq!(
        said(&answers),
        vec![
            (1, Err("empty request body".to_string())),
            (2, Err("permission denied: admin required".to_string())),
            (3, Err(String::new())),
            (4, Ok(7)),
            (5, Err("no watch".to_string())),
        ]
    );

    // A failure that ends the connection is not answered.
    assert!(!finish_request(&mut answers, 6, list, Err("broken".to_string())));
    assert_eq!(answers.len(), 5);
}
