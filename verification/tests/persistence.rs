use mux_server::layout::{LayoutTree, SplitDirection};
use mux_server::layout_messages::error_message;
use mux_server::layout_persist::{PersistedLayoutNode, PersistedLayoutTree};
use mux_server::persistence::{
    decode_persisted_state, persisted_session_state, recovery_candidate, recovery_candidates,
    snapshot_sessions, PersistedPane, PersistedSessionState, RecoveryError, RecoveryScan,
    SaveError, StoredSession, StoredState, RECOVERY_FORMAT_VERSION,
};
use mux_server::ratio::Ratio;
use mux_server::recovery::{
    begin_recovery, end_recovery, finish_recovery, list_recovery_candidates,
    validate_recovered_session, ConfirmError,
};
use mux_server::registry::Notification;
use mux_server::session::{PaneRecord, Session, Tab};
use serde_json::Value;

const MAX_WIRE: usize = 30;

fn ratio(value: f32) -> Ratio {
    Ratio {
        bits: value.to_bits(),
    }
}

fn texts(list: &[&str]) -> Vec<String> {
    list.iter().map(|text| text.to_string()).collect()
}

fn value_of(text: &str) -> Value {
    Value::String(text.to_string())
}

fn object(members: Vec<(&str, Value)>) -> Value {
    let mut map = serde_json::Map::new();
    for (key, value) in members {
        map.insert(key.to_string(), value);
    }
    Value::Object(map)
}

fn layout_value(layout: &PersistedLayoutTree) -> Value {
    let nodes = layout
        .nodes
        .iter()
        .map(|node| match node {
            PersistedLayoutNode::Pane { id, pane_id } => object(vec![
                ("type", value_of("pane")),
                ("id", value_of(id)),
                ("pane_id", value_of(pane_id)),
            ]),
            PersistedLayoutNode::Split {
                id,
                direction,
                children,
                ratios,
            } => object(vec![
                ("type", value_of("split")),
                ("id", value_of(id)),
                ("direction", value_of(&format!("{direction:?}"))),
                (
                    "children",
                    Value::Array(children.iter().map(|child| Value::from(*child)).collect()),
                ),
                (
                    "ratios",
                    Value::Array(
                        ratios
                            .iter()
                            .map(|ratio| Value::from(f32::from_bits(ratio.bits)))
                            .collect(),
                    ),
                ),
            ]),
        })
        .collect();
    object(vec![("nodes", Value::Array(nodes))])
}

fn optional(text: &Option<String>) -> Value {
    match text {
        Some(text) => value_of(text),
        None => Value::Null,
    }
}

fn encode(state: &PersistedSessionState) -> Value {
    object(vec![
        ("version", Value::from(state.version)),
        ("layout", layout_value(&state.layout)),
        (
            "tabs",
            Value::Array(
                state
                    .tabs
                    .iter()
                    .map(|tab| {
                        object(vec![
                            ("id", value_of(&tab.id)),
                            ("title", value_of(&tab.title)),
                            (
                                "pane_ids",
                                Value::Array(tab.pane_ids.iter().map(|id| value_of(id)).collect()),
                            ),
                        ])
                    })
                    .collect(),
            ),
        ),
        (
            "panes",
            Value::Array(
                state
                    .panes
                    .iter()
                    .map(|pane| {
                        object(vec![
                            ("id", value_of(&pane.id)),
                            ("cwd", value_of(&pane.cwd)),
                            ("title", value_of(&pane.title)),
                            ("cols", Value::from(pane.cols)),
                            ("rows", Value::from(pane.rows)),
                        ])
                    })
                    .collect(),
            ),
        ),
        ("focused_tab", optional(&state.focused_tab)),
        ("focused_pane", optional(&state.focused_pane)),
    ])
}

fn member<'a>(value: &'a Value, key: &str) -> Result<&'a Value, String> {
    value
        .get(key)
        .ok_or_else(|| format!("missing field `{key}`"))
}

fn text_in(value: &Value, key: &str) -> Result<String, String> {
    Ok(member(value, key)?.as_str().ok_or(key)?.to_string())
}

fn optional_in(value: &Value, key: &str) -> Option<String> {
    value.get(key).and_then(Value::as_str).map(str::to_string)
}

fn list_in<'a>(value: &'a Value, key: &str) -> Result<&'a Vec<Value>, String> {
    Ok(member(value, key)?.as_array().ok_or(key)?)
}

fn read_layout(value: &Value) -> Result<PersistedLayoutTree, String> {
    let mut nodes = Vec::new();
    for node in list_in(value, "nodes")? {
        nodes.push(match text_in(node, "type")?.as_str() {
            "pane" => PersistedLayoutNode::Pane {
                id: text_in(node, "id")?,
                pane_id: text_in(node, "pane_id")?,
            },
            _ => PersistedLayoutNode::Split {
                id: text_in(node, "id")?,
                direction: match text_in(node, "direction")?.as_str() {
                    "LeftRight" => SplitDirection::LeftRight,
                    _ => SplitDirection::TopBottom,
                },
                children: list_in(node, "children")?
                    .iter()
                    .map(|child| child.as_u64().unwrap_or(0) as usize)
                    .collect(),
                ratios: list_in(node, "ratios")?
                    .iter()
                    .map(|share| ratio(share.as_f64().unwrap_or(0.0) as f32))
                    .collect(),
            },
        });
    }
    Ok(PersistedLayoutTree { nodes })
}

fn read(text: &str) -> Result<PersistedSessionState, String> {
    let value: Value = serde_json::from_str(text).map_err(|error| error.to_string())?;
    let mut tabs = Vec::new();
    for tab in list_in(&value, "tabs")? {
        tabs.push(Tab {
            id: text_in(tab, "id")?,
            title: text_in(tab, "title")?,
            pane_ids: list_in(tab, "pane_ids")?
                .iter()
                .map(|id| id.as_str().unwrap_or("").to_string())
                .collect(),
        });
    }
    let mut panes = Vec::new();
    for pane in list_in(&value, "panes")? {
        panes.push(PersistedPane {
            id: text_in(pane, "id")?,
            cwd: text_in(pane, "cwd")?,
            title: text_in(pane, "title")?,
            cols: member(pane, "cols")?.as_u64().unwrap_or(0) as u32,
            rows: member(pane, "rows")?.as_u64().unwrap_or(0) as u32,
        });
    }
    Ok(PersistedSessionState {
        version: member(&value, "version")?.as_u64().ok_or("version")? as u32,
        layout: read_layout(member(&value, "layout")?)?,
        tabs,
        panes,
        focused_tab: optional_in(&value, "focused_tab"),
        focused_pane: optional_in(&value, "focused_pane"),
    })
}

/// The rows of the table of sessions.
struct Rows(Vec<(String, String)>);

impl Rows {
    fn new() -> Rows {
        Rows(Vec::new())
    }

    fn insert(&mut self, id: &str, text: &str) {
        self.0.push((id.to_string(), text.to_string()));
    }

    fn delete_session(&mut self, id: &str) {
        self.0.retain(|row| row.0 != id);
    }

    fn scan(&self) -> RecoveryScan {
        let stored = self.0.iter().map(|row| stored(&row.0, &row.1)).collect();
        recovery_candidates(stored, MAX_WIRE)
    }
}

fn stored(id: &str, text: &str) -> StoredSession {
    let state = decode_persisted_state(text, read(text));
    let count = match &state {
        StoredState::State(state) => state.panes.len(),
        _ => 0,
    };
    StoredSession {
        id: id.to_string(),
        name: id.to_string(),
        cwd: "/tmp".to_string(),
        state,
        sizes_fit: vec![true; count],
    }
}

fn raw_layout(pane_id: &str) -> Value {
    layout_value(
        &LayoutTree::with_pane(format!("{pane_id}-node"), pane_id.to_string()).to_persisted(),
    )
}

fn persisted_pane(id: &str) -> PersistedPane {
    PersistedPane {
        id: id.to_string(),
        cwd: "/tmp".to_string(),
        title: "cat".to_string(),
        cols: 80,
        rows: 24,
    }
}

fn envelope(pane_id: &str) -> PersistedSessionState {
    PersistedSessionState {
        version: RECOVERY_FORMAT_VERSION,
        layout: LayoutTree::with_pane(format!("{pane_id}-node"), pane_id.to_string())
            .to_persisted(),
        tabs: vec![Tab {
            id: "tab-1".to_string(),
            title: "shell".to_string(),
            pane_ids: vec![pane_id.to_string()],
        }],
        panes: vec![persisted_pane(pane_id)],
        focused_tab: Some("tab-1".to_string()),
        focused_pane: Some(pane_id.to_string()),
    }
}

fn envelope_json(pane_id: &str) -> String {
    encode(&envelope(pane_id)).to_string()
}

#[test]
fn deleted_session_is_not_recovered() {
    let mut rows = Rows::new();
    rows.insert("keep", &envelope_json("keep-pane"));
    rows.insert("kill", &envelope_json("kill-pane"));

    rows.delete_session("kill");
    let scan = rows.scan();

    assert!(scan.rejected.is_empty());
    assert_eq!(scan.candidates.len(), 1);
    assert_eq!(scan.candidates[0].id, "keep");
    assert_eq!(scan.candidates[0].layout.pane_ids(), vec!["keep-pane"]);
    assert_eq!(scan.candidates[0].panes[0].id, "keep-pane");
    assert_eq!(scan.candidates[0].tabs[0].id, "tab-1");
}

#[test]
fn legacy_raw_layout_row_is_rejected_after_typed_cutover() {
    let mut rows = Rows::new();
    rows.insert("legacy", &raw_layout("legacy-pane").to_string());
    let scan = rows.scan();

    assert!(scan.candidates.is_empty());
    assert_eq!(scan.rejected.len(), 1);
    assert!(
        scan.rejected[0].contains("unsupported recovery format"),
        "unexpected rejection: {}",
        scan.rejected[0]
    );
    assert_eq!(
        scan.rejected[0],
        "unsupported recovery format 0 for session legacy"
    );
}

#[test]
fn unsupported_recovery_format_version_is_rejected() {
    let mut rows = Rows::new();
    let mut envelope: Value =
        serde_json::from_str(&envelope_json("pane-1")).expect("decode test recovery envelope");
    envelope["version"] = Value::from(1u32);
    rows.insert("old-format", &envelope.to_string());

    let scan = rows.scan();
    assert!(scan.candidates.is_empty());
    assert_eq!(scan.rejected.len(), 1);
    assert!(scan.rejected[0].contains("unsupported recovery format"));
    assert_eq!(
        scan.rejected[0],
        "unsupported recovery format 1 for session old-format"
    );
}

#[test]
fn only_the_low_half_of_a_version_counts() {
    let mut envelope: Value = serde_json::from_str(&envelope_json("pane-1")).expect("envelope");
    envelope["version"] = Value::from(0x1_0000_0005u64);
    let mut rows = Rows::new();
    rows.insert("large", &envelope.to_string());
    envelope["version"] = value_of("2");
    rows.insert("text", &envelope.to_string());
    assert_eq!(
        rows.scan().rejected,
        vec![
            "unsupported recovery format 5 for session large",
            "unsupported recovery format 0 for session text"
        ]
    );
}

#[test]
fn invalid_recovery_focus_is_rejected_before_shell_spawn() {
    let mut rows = Rows::new();
    let mut envelope: Value =
        serde_json::from_str(&envelope_json("pane-1")).expect("decode test recovery envelope");
    envelope["focused_pane"] = value_of("missing-pane");
    rows.insert("bad-focus", &envelope.to_string());

    let scan = rows.scan();
    assert!(scan.candidates.is_empty());
    assert_eq!(scan.rejected.len(), 1);
    assert!(scan.rejected[0].contains("invalid focused pane"));
}

#[test]
fn corrupt_persisted_layout_is_not_published_as_a_candidate() {
    let mut rows = Rows::new();
    rows.insert("broken", "not-a-layout");

    let scan = rows.scan();
    assert!(scan.candidates.is_empty());
    assert_eq!(scan.rejected.len(), 1);
    assert!(scan.rejected[0].contains("invalid persisted layout"));
}

#[test]
fn empty_session_is_not_published_as_a_recovery_candidate() {
    let mut rows = Rows::new();
    let empty = PersistedSessionState {
        version: RECOVERY_FORMAT_VERSION,
        layout: LayoutTree::empty().to_persisted(),
        tabs: Vec::new(),
        panes: Vec::new(),
        focused_tab: None,
        focused_pane: None,
    };
    rows.insert("empty", &encode(&empty).to_string());

    let scan = rows.scan();
    assert!(scan.candidates.is_empty());
    assert_eq!(scan.rejected.len(), 1);
    assert!(scan.rejected[0].contains("no recoverable panes"));
}

fn pane_record(id: &str) -> PaneRecord {
    PaneRecord {
        id: id.to_string(),
        cwd: "/tmp".to_string(),
        title: "cat".to_string(),
        command: Some("/bin/cat".to_string()),
        cols: 80,
        rows: 24,
        generation: 0,
        is_alive: true,
        zoomed: false,
    }
}

fn session_with_pane(session_id: &str, pane_id: &str) -> Session {
    let mut session = Session::new(
        session_id.to_string(),
        session_id.to_string(),
        "/tmp".to_string(),
        0,
    );
    session.panes.push(pane_record(pane_id));
    session.add_tab("tab-1".to_string(), "shell".to_string());
    session.tabs[0].pane_ids.push(pane_id.to_string());
    session.layout = LayoutTree::with_pane("node-1".to_string(), pane_id.to_string());
    session.set_focused_pane(pane_id.to_string());
    session.focused_tab = Some("tab-1".to_string());
    session
}

#[test]
fn snapshot_persists_complete_recovery_metadata() {
    let sessions = vec![session_with_pane("meta", "pane-1")];
    let snapshot = snapshot_sessions(&sessions);
    assert!(snapshot.failure.is_none());
    let mut rows = Rows::new();
    for row in &snapshot.rows {
        rows.insert(&row.id, &encode(&row.state).to_string());
    }
    let scan = rows.scan();

    assert!(scan.rejected.is_empty());
    assert_eq!(scan.candidates.len(), 1);
    let candidate = &scan.candidates[0];
    assert_eq!(candidate.panes.len(), 1);
    assert_eq!(candidate.panes[0].id, "pane-1");
    assert_eq!(candidate.focused_pane.as_deref(), Some("pane-1"));
    assert_eq!(candidate.tabs[0].pane_ids, vec!["pane-1"]);
    assert_eq!(
        format!("{:?}", candidate.layout.root),
        format!("{:?}", sessions[0].layout.root),
        "snapshotted layout must round-trip the exact tree"
    );
}

fn multi_level_layout() -> LayoutTree {
    let mut layout = LayoutTree::with_pane("node-1".to_string(), "pane-1".to_string());
    layout
        .split(
            "pane-1",
            "pane-2".to_string(),
            SplitDirection::LeftRight,
            MAX_WIRE,
        )
        .expect("split left-right");
    layout
        .resize_pane("pane-1", SplitDirection::LeftRight, ratio(0.2), MAX_WIRE)
        .expect("resize outer split");
    layout
        .split(
            "pane-2",
            "pane-3".to_string(),
            SplitDirection::TopBottom,
            MAX_WIRE,
        )
        .expect("split top-bottom");
    layout
        .resize_pane("pane-2", SplitDirection::TopBottom, ratio(0.1), MAX_WIRE)
        .expect("resize inner split");
    layout
}

#[test]
fn multi_level_layout_and_focus_round_trip_through_recovery_scan() {
    let mut rows = Rows::new();
    let layout = multi_level_layout();
    let envelope = PersistedSessionState {
        version: RECOVERY_FORMAT_VERSION,
        layout: layout.to_persisted(),
        tabs: vec![Tab {
            id: "tab-1".to_string(),
            title: "shell".to_string(),
            pane_ids: texts(&["pane-1", "pane-2", "pane-3"]),
        }],
        panes: vec![
            persisted_pane("pane-1"),
            persisted_pane("pane-2"),
            persisted_pane("pane-3"),
        ],
        focused_tab: Some("tab-1".to_string()),
        focused_pane: Some("pane-3".to_string()),
    };
    rows.insert("multi", &encode(&envelope).to_string());

    let scan = rows.scan();
    assert!(scan.rejected.is_empty(), "rejections: {:?}", scan.rejected);
    assert_eq!(scan.candidates.len(), 1);
    let candidate = &scan.candidates[0];
    assert_eq!(
        format!("{:?}", candidate.layout.root),
        format!("{:?}", layout.root),
        "multi-level mixed-axis tree must round-trip exactly"
    );
    assert_eq!(candidate.focused_tab.as_deref(), Some("tab-1"));
    assert_eq!(candidate.focused_pane.as_deref(), Some("pane-3"));
    assert_eq!(
        candidate.layout.pane_ids(),
        vec!["pane-1", "pane-2", "pane-3"]
    );
}

#[test]
fn stale_persisted_layout_referencing_unknown_pane_is_rejected() {
    let mut rows = Rows::new();
    let mut envelope: Value =
        serde_json::from_str(&envelope_json("pane-1")).expect("decode test recovery envelope");
    envelope["layout"] = raw_layout("ghost-pane");
    rows.insert("stale", &envelope.to_string());

    let scan = rows.scan();
    assert!(scan.candidates.is_empty());
    assert_eq!(scan.rejected.len(), 1);
    assert!(scan.rejected[0].contains("does not match its layout"));
}

fn refused(state: PersistedSessionState, sizes_fit: Vec<bool>) -> String {
    let stored = StoredSession {
        id: "s".to_string(),
        name: "s".to_string(),
        cwd: "/tmp".to_string(),
        state: StoredState::State(state),
        sizes_fit,
    };
    match recovery_candidate(stored, MAX_WIRE) {
        Ok(candidate) => panic!("offered {candidate:?}"),
        Err(error) => error.message("s"),
    }
}

#[test]
fn each_reason_to_refuse_a_stored_session_is_told() {
    let nothing = StoredSession {
        id: "s".to_string(),
        name: "s".to_string(),
        cwd: "/tmp".to_string(),
        state: decode_persisted_state("", Err(String::new())),
        sizes_fit: Vec::new(),
    };
    let error = recovery_candidate(nothing, MAX_WIRE).err().expect("refused");
    assert!(matches!(error, RecoveryError::NoLayout));
    assert_eq!(error.message("s"), "session s has no persisted layout");

    let mut twice = envelope("pane-1");
    twice.panes.push(persisted_pane("pane-1"));
    assert_eq!(
        refused(twice, vec![true, true]),
        "persisted pane metadata for session s contains duplicate pane ids"
    );
    assert_eq!(
        refused(envelope("pane-1"), vec![false]),
        "persisted pane metadata for session s contains an invalid pane size"
    );
    let mut unnamed = envelope("pane-1");
    unnamed.tabs[0].id = String::new();
    assert_eq!(
        refused(unnamed, vec![true]),
        "persisted tab metadata for session s contains invalid tab ids"
    );
    let mut unknown = envelope("pane-1");
    unknown.tabs[0].pane_ids.push("pane-9".to_string());
    assert_eq!(
        refused(unknown, vec![true]),
        "persisted tab metadata for session s references an unknown pane"
    );
    let mut unassigned = envelope("pane-1");
    unassigned.tabs[0].pane_ids.clear();
    assert_eq!(
        refused(unassigned, vec![true]),
        "persisted pane metadata for session s contains an unassigned pane"
    );
    let mut focus = envelope("pane-1");
    focus.focused_tab = Some("tab-9".to_string());
    assert_eq!(
        refused(focus, vec![true]),
        "persisted session s has an invalid focused tab"
    );
    let mut broken = envelope("pane-1");
    broken.layout.nodes.clear();
    assert_eq!(
        refused(broken, vec![true]),
        "invalid persisted layout for session s: persisted layout has no nodes"
    );
}

#[test]
fn a_session_that_does_not_fit_together_is_not_saved() {
    let good = session_with_pane("s", "pane-1");
    assert!(persisted_session_state(&good).is_ok());

    let mut layout = session_with_pane("s", "pane-1");
    layout.layout = LayoutTree::empty();
    assert_eq!(
        persisted_session_state(&layout).err(),
        Some(SaveError::LayoutMismatch)
    );
    let mut unknown = session_with_pane("s", "pane-1");
    unknown.tabs[0].pane_ids.push("pane-9".to_string());
    assert_eq!(
        persisted_session_state(&unknown).err(),
        Some(SaveError::UnknownTabPane)
    );
    let mut unassigned = session_with_pane("s", "pane-1");
    unassigned.tabs[0].pane_ids.clear();
    assert_eq!(
        persisted_session_state(&unassigned).err(),
        Some(SaveError::UnassignedPane)
    );
    let mut tab = session_with_pane("s", "pane-1");
    tab.focused_tab = Some("tab-9".to_string());
    assert_eq!(
        persisted_session_state(&tab).err(),
        Some(SaveError::InvalidFocusedTab)
    );
    let mut pane = session_with_pane("s", "pane-1");
    pane.focused_pane = Some("pane-9".to_string());
    assert_eq!(
        persisted_session_state(&pane).err(),
        Some(SaveError::InvalidFocusedPane)
    );
    assert_eq!(
        SaveError::UnassignedPane.message("s"),
        "session s has a pane not assigned to a tab"
    );

    let sessions = vec![session_with_pane("a", "pane-1"), layout, good];
    let snapshot = snapshot_sessions(&sessions);
    assert_eq!(snapshot.rows.len(), 1);
    assert_eq!(
        snapshot.failure.as_deref(),
        Some("session s layout panes do not match its pane registry")
    );
}

#[test]
fn a_saved_session_lists_its_parts_in_order() {
    let mut session = session_with_pane("s", "pane-b");
    session
        .layout
        .split(
            "pane-b",
            "pane-a".to_string(),
            SplitDirection::LeftRight,
            MAX_WIRE,
        )
        .expect("split");
    session.panes.push(pane_record("pane-a"));
    session.add_tab("tab-0".to_string(), "first".to_string());
    session.tabs[1].pane_ids.push("pane-a".to_string());
    let state = persisted_session_state(&session).expect("saved");
    assert_eq!(state.version, 2);
    let panes: Vec<&str> = state.panes.iter().map(|pane| pane.id.as_str()).collect();
    assert_eq!(panes, vec!["pane-a", "pane-b"]);
    let tabs: Vec<&str> = state.tabs.iter().map(|tab| tab.id.as_str()).collect();
    assert_eq!(tabs, vec!["tab-0", "tab-1"]);
}

#[test]
fn confirmed_recovery_restores_exact_multi_level_layout_projection() {
    let layout = multi_level_layout();
    let mut session = session_with_pane("s", "pane-1");
    session.layout = layout;
    for id in ["pane-2", "pane-3"] {
        session.panes.push(pane_record(id));
        session.tabs[0].pane_ids.push(id.to_string());
    }
    session.focused_pane = Some("pane-3".to_string());
    let saved = persisted_session_state(&session).expect("saved");
    let mut rows = Rows::new();
    rows.insert("s", &encode(&saved).to_string());
    let mut live: Vec<Session> = Vec::new();
    let mut reserved = Vec::new();

    let offers = list_recovery_candidates(&rows.scan().candidates, &live);
    assert_eq!(offers.len(), 1);
    assert!(offers[0].metadata_complete);
    assert_eq!(offers[0].pane_ids, vec!["pane-1", "pane-2", "pane-3"]);

    let candidate = begin_recovery(rows.scan().candidates, "s", &live, &mut reserved)
        .expect("recovery begins");
    assert_eq!(
        begin_recovery(rows.scan().candidates, "s", &live, &mut reserved).err(),
        Some(ConfirmError::InProgress),
        "one recovery of a session at a time"
    );
    let confirmed = finish_recovery(&mut live, candidate, 7).expect("recovery");
    end_recovery("s", &mut reserved);
    assert!(reserved.is_empty());
    assert_eq!(confirmed.session_id, "s");
    assert_eq!(confirmed.pane_ids, vec!["pane-1", "pane-2", "pane-3"]);
    assert!(matches!(
        &confirmed.notice.event,
        Notification::LayoutChanged { session_id } if session_id == "s"
    ));
    assert_eq!(live.len(), 1);
    assert_eq!(
        format!("{:?}", live[0].layout.root),
        format!("{:?}", session.layout.root)
    );
    assert_eq!(live[0].focused_pane.as_deref(), Some("pane-3"));
    assert_eq!(live[0].created_timestamp, 7);
    assert!(live[0].panes.iter().all(|pane| pane.generation == 1));
    assert!(validate_recovered_session(&live[0]).is_ok());

    assert!(list_recovery_candidates(&rows.scan().candidates, &live).is_empty());
    let error = begin_recovery(rows.scan().candidates, "s", &live, &mut reserved)
        .err()
        .expect("already live");
    assert_eq!(error, ConfirmError::AlreadyLive);
    assert_eq!(
        begin_recovery(Vec::new(), "gone", &live, &mut reserved)
            .err()
            .expect("not found")
            .message("gone"),
        "recovery candidate not found: gone"
    );
}

#[test]
fn corrupt_persisted_row_confirm_fails_without_publishing_session() {
    let mut rows = Rows::new();
    rows.insert("corrupt", "not-json");
    let live: Vec<Session> = Vec::new();
    let mut reserved = Vec::new();
    let error = begin_recovery(rows.scan().candidates, "corrupt", &live, &mut reserved)
        .err()
        .expect("refused");
    assert_eq!(error, ConfirmError::NotFound);
    assert!(reserved.is_empty());
    assert!(live.is_empty());
}

#[test]
fn what_keeps_a_saved_layout_from_loading_is_told() {
    fn pane(id: &str, pane_id: &str) -> PersistedLayoutNode {
        PersistedLayoutNode::Pane {
            id: id.to_string(),
            pane_id: pane_id.to_string(),
        }
    }
    fn split(id: &str, children: Vec<usize>, ratios: Vec<Ratio>) -> PersistedLayoutNode {
        PersistedLayoutNode::Split {
            id: id.to_string(),
            direction: SplitDirection::LeftRight,
            children,
            ratios,
        }
    }
    let half = ratio(0.5);
    let cases = vec![
        (vec![pane("", "p")], "persisted pane node id must not be empty"),
        (vec![pane("n", "")], "persisted pane id must not be empty"),
        (
            vec![split("", vec![1, 2], vec![half, half]), pane("a", "p"), pane("b", "q")],
            "persisted split node id must not be empty",
        ),
        (
            vec![split("s", vec![1, 2], vec![half, half]), pane("a", "p"), pane("a", "q")],
            "duplicate persisted node id: a",
        ),
        (
            vec![split("s", vec![1, 2], vec![half, half]), pane("a", "p"), pane("b", "p")],
            "duplicate persisted pane id: p",
        ),
        (
            vec![split("s", vec![1], vec![half]), pane("a", "p")],
            "persisted split needs at least two children",
        ),
        (
            vec![split("s", vec![1, 2], vec![half]), pane("a", "p"), pane("b", "q")],
            "persisted split has mismatched children and ratios",
        ),
        (
            vec![split("s", vec![2, 1], vec![half, half]), pane("a", "p"), pane("b", "q")],
            "persisted split children must be strictly increasing pre-order indices",
        ),
        (
            vec![split("s", vec![1, 7], vec![half, half]), pane("a", "p"), pane("b", "q")],
            "persisted split child index out of bounds: 7",
        ),
        (
            vec![
                split("s", vec![1, 2], vec![half, ratio(f32::NAN)]),
                pane("a", "p"),
                pane("b", "q"),
            ],
            "persisted layout ratios must be finite and positive",
        ),
        (
            vec![
                split("s", vec![1, 2], vec![ratio(f32::MAX), ratio(f32::MAX)]),
                pane("a", "p"),
                pane("b", "q"),
            ],
            "persisted layout ratio sum must be finite and positive",
        ),
        (
            vec![pane("a", "p"), pane("b", "q")],
            "persisted layout nodes must form a single tree rooted at node 0",
        ),
    ];
    for (nodes, expected) in cases {
        let tree = PersistedLayoutTree { nodes };
        let error = LayoutTree::from_persisted(&tree, MAX_WIRE)
            .err()
            .expect("refused");
        assert_eq!(error_message(error, &tree, MAX_WIRE), expected);
    }
}
