//! Attaching to a session and leaving it again.
use crate::layout_model;
use crate::layout_wire;
use crate::layout_wire::{layout_tree_to_wire, WireModel, WireNode};
use crate::persistence;
use crate::protocol;
use crate::protocol::{effective_attach_role, proto_role_to_client_role, ConnectionTrust};
use crate::registry;
use crate::registry::{
    broadcast_window_removals, ensure_mutation_allowed, find_session,
    unregister_client_from_sessions, ConnectionState, HandlerError, Notice, NoticeModel,
    Notification, NotificationModel, ReleasedWindow,
};
use crate::session;
use crate::session::{
    copy_pane, position_of_pane, AttachMode, ClientModel, ClientRole, PaneModel, PaneRecord,
    Session, SessionModel, TabModel,
};
use crate::session_laws;
use crate::text;
use crate::text::{contains_text, joined, same_text};
use vstd::prelude::*;

verus! {

/// Who a client says it is.
#[derive(Debug)]
pub struct ClientIdentity {
    pub client_id: String,
    /// The number of the role that it asks for.
    pub role: i32,
}

/// A request to attach to a session.
#[derive(Debug)]
pub struct AttachRequest {
    pub session_id: String,
    pub identity: Option<ClientIdentity>,
    pub mode: i32,
    /// The window that the client stands for; empty where it is none.
    pub window_id: String,
}

/// What a snapshot says of a tab.
#[derive(Debug)]
pub struct TabInfo {
    pub id: String,
    pub title: String,
    pub panes: Vec<PaneRecord>,
}

/// The state of a session that a client starts from.
#[derive(Debug)]
pub struct SessionSnapshot {
    pub session_id: String,
    pub focused_pane_id: String,
    pub focused_tab_id: String,
    pub tabs: Vec<TabInfo>,
    pub layout: Option<WireNode>,
}

pub struct TabInfoModel {
    pub id: Seq<char>,
    pub title: Seq<char>,
    pub panes: Seq<PaneModel>,
}

/// The mathematical value of a snapshot.
pub struct SnapshotModel {
    pub session_id: Seq<char>,
    pub focused_pane_id: Seq<char>,
    pub focused_tab_id: Seq<char>,
    pub tabs: Seq<TabInfoModel>,
    pub layout: Option<WireModel>,
}

impl View for TabInfo {
    type V = TabInfoModel;

    open spec fn view(&self) -> TabInfoModel {
        TabInfoModel {
            id: self.id@,
            title: self.title@,
            panes: session::pane_models(self.panes@),
        }
    }
}

impl View for SessionSnapshot {
    type V = SnapshotModel;

    open spec fn view(&self) -> SnapshotModel {
        SnapshotModel {
            session_id: self.session_id@,
            focused_pane_id: self.focused_pane_id@,
            focused_tab_id: self.focused_tab_id@,
            tabs: self.tabs@.map_values(|t: TabInfo| t@),
            layout: match self.layout {
                Some(node) => Some(node.model()),
                None => None,
            },
        }
    }
}

/// The first pane of an identifier, from `k` on; their number where there is
/// none.
pub open spec fn pane_index(panes: Seq<PaneModel>, pane: Seq<char>, k: int) -> int
    decreases panes.len() - k,
{
    if k >= panes.len() {
        panes.len() as int
    } else if panes[k].id == pane {
        k
    } else {
        pane_index(panes, pane, k + 1)
    }
}

/// The panes of a tab that the session has, in the tab's order.
pub open spec fn panes_listed(panes: Seq<PaneModel>, ids: Seq<Seq<char>>) -> Seq<PaneModel>
    decreases ids.len(),
{
    if ids.len() == 0 {
        Seq::empty()
    } else {
        let earlier = panes_listed(panes, ids.drop_last());
        let k = pane_index(panes, ids.last(), 0);
        if k < panes.len() {
            earlier.push(panes[k])
        } else {
            earlier
        }
    }
}

/// The text, or an empty one.
pub open spec fn or_empty(text: Option<Seq<char>>) -> Seq<char> {
    match text {
        Some(t) => t,
        None => Seq::empty(),
    }
}

/// The state of a session that a client starts from.
pub open spec fn snapshot_of(s: SessionModel) -> SnapshotModel {
    SnapshotModel {
        session_id: s.id,
        focused_pane_id: or_empty(s.focused_pane),
        focused_tab_id: or_empty(s.focused_tab),
        tabs: s.tabs.map_values(
            |t: TabModel|
                TabInfoModel {
                    id: t.id,
                    title: t.title,
                    panes: panes_listed(s.panes, t.pane_ids),
                },
        ),
        layout: layout_wire::wire(s.layout),
    }
}

pub proof fn lemma_pane_index(panes: Seq<PaneModel>, pane: Seq<char>, k: int, w: int)
    requires
        0 <= k <= w <= panes.len(),
        w < panes.len() ==> panes[w].id == pane,
        forall|j: int| k <= j < w ==> (#[trigger] panes[j]).id != pane,
    ensures
        pane_index(panes, pane, k) == w,
    decreases w - k,
{
    if k < w {
        lemma_pane_index(panes, pane, k + 1, w);
    }
}

fn list_panes(panes: &Vec<PaneRecord>, ids: &Vec<String>) -> (listed: Vec<PaneRecord>)
    ensures
        session::pane_models(listed@) == panes_listed(
            session::pane_models(panes@),
            text::texts(ids@),
        ),
{
    let ghost all = session::pane_models(panes@);
    let ghost names = text::texts(ids@);
    let mut listed: Vec<PaneRecord> = Vec::new();
    let mut i: usize = 0;
    proof {
        assert(session::pane_models(listed@) =~= panes_listed(all, names.take(0)));
    }
    while i < ids.len()
        invariant
            i <= ids.len(),
            all == session::pane_models(panes@),
            names == text::texts(ids@),
            session::pane_models(listed@) == panes_listed(all, names.take(i as int)),
        decreases ids.len() - i,
    {
        let ghost so_far = listed@;
        let k: usize = position_of_pane(panes, ids[i].as_str());
        proof {
            assert(names.take(i + 1).drop_last() =~= names.take(i as int));
            assert(names.take(i + 1).last() == ids@[i as int]@);
            assert forall|j: int| 0 <= j < k implies (#[trigger] all[j]).id != ids@[i as int]@ by {
                assert(panes@[j].id@ != ids@[i as int]@);
            }
            lemma_pane_index(all, ids@[i as int]@, 0, k as int);
        }
        if k < panes.len() {
            let copy = copy_pane(&panes[k]);
            listed.push(copy);
            proof {
                assert(session::pane_models(listed@) =~= session::pane_models(so_far).push(copy@));
            }
        }
        i = i + 1;
    }
    proof {
        assert(names.take(ids.len() as int) =~= names);
    }
    listed
}

fn text_or_empty(text: &Option<String>) -> (result: String)
    ensures
        result@ == or_empty(text::optional(*text)),
{
    match text {
        Some(t) => t.clone(),
        None => String::new(),
    }
}

/// The state of a session that a client starts from.
pub fn session_snapshot(session: &Session) -> (snapshot: SessionSnapshot)
    ensures
        snapshot@ == snapshot_of(session@),
{
    let mut tabs: Vec<TabInfo> = Vec::new();
    let mut i: usize = 0;
    while i < session.tabs.len()
        invariant
            i <= session.tabs.len(),
            tabs.len() == i,
            forall|j: int|
                0 <= j < i ==> (#[trigger] tabs@[j])@ == snapshot_of(session@).tabs[j],
        decreases session.tabs.len() - i,
    {
        let tab = TabInfo {
            id: session.tabs[i].id.clone(),
            title: session.tabs[i].title.clone(),
            panes: list_panes(&session.panes, &session.tabs[i].pane_ids),
        };
        tabs.push(tab);
        i = i + 1;
    }
    let snapshot = SessionSnapshot {
        session_id: session.id.clone(),
        focused_pane_id: text_or_empty(&session.focused_pane),
        focused_tab_id: text_or_empty(&session.focused_tab),
        tabs,
        layout: layout_tree_to_wire(&session.layout),
    };
    proof {
        assert(snapshot@.tabs =~= snapshot_of(session@).tabs);
    }
    snapshot
}

/// The identifier of a client that has none yet: made of the name it gives
/// itself and a suffix, or else the fallback.
pub fn mint_client_id(
    identity: &Option<ClientIdentity>,
    suffix: &str,
    fallback: String,
) -> (client_id: String)
    ensures
        client_id@ == match *identity {
            Some(who) => if who.client_id@.len() > 0 {
                who.client_id@ + "-"@ + suffix@
            } else {
                fallback@
            },
            None => fallback@,
        },
{
    match identity {
        Some(who) => if who.client_id.as_str().is_empty() {
            fallback
        } else {
            let named: String = joined(who.client_id.as_str(), "-");
            joined(named.as_str(), suffix)
        },
        None => fallback,
    }
}

/// The mode of a number.
pub open spec fn mode_of(number: i32) -> AttachMode {
    if number == 2 {
        AttachMode::Steal
    } else if number == 3 {
        AttachMode::ReadOnly
    } else {
        AttachMode::Shared
    }
}

/// The role that a client asks for: the one it names, else the one it has,
/// else what the transport vouches for.
pub open spec fn asked_role(
    identity: Option<ClientIdentity>,
    current: Option<ClientRole>,
    trust: ConnectionTrust,
) -> ClientRole {
    match identity {
        Some(who) => match who.role {
            2i32 => ClientRole::ReadWrite,
            3i32 => ClientRole::Admin,
            _ => ClientRole::ReadOnly,
        },
        None => match current {
            Some(role) => role,
            None => protocol::default_role(trust),
        },
    }
}

/// The windows that left, but for the one that comes back at once.
pub open spec fn stale(
    released: Seq<(Seq<char>, Seq<char>)>,
    session: Seq<char>,
    window: Seq<char>,
) -> Seq<(Seq<char>, Seq<char>)>
    decreases released.len(),
{
    if released.len() == 0 {
        Seq::empty()
    } else {
        let earlier = stale(released.drop_last(), session, window);
        if window.len() > 0 && released.last() == (session, window) {
            earlier
        } else {
            earlier.push(released.last())
        }
    }
}

/// The windows that the clients of a session have claimed.
pub open spec fn claimed_windows(clients: Seq<ClientModel>) -> Seq<Seq<char>>
    decreases clients.len(),
{
    if clients.len() == 0 {
        Seq::empty()
    } else {
        match clients.last().window_id {
            Some(window) => claimed_windows(clients.drop_last()).push(window),
            None => claimed_windows(clients.drop_last()),
        }
    }
}

/// The clients that leave a session when another one takes it over: those
/// attached and those subscribed.
pub open spec fn kicked_clients(
    clients: Seq<ClientModel>,
    subscribers: Seq<Seq<char>>,
) -> Seq<Seq<char>> {
    merged(merged(Seq::empty(), clients.map_values(|c: ClientModel| c.client_id)), subscribers)
}

/// A list with the texts of another added that are not there yet.
pub open spec fn merged(list: Seq<Seq<char>>, more: Seq<Seq<char>>) -> Seq<Seq<char>>
    decreases more.len(),
{
    if more.len() == 0 {
        list
    } else {
        session::with_text(merged(list, more.drop_last()), more.last())
    }
}

/// The windows left after some were taken out.
pub open spec fn windows_without(windows: Seq<Seq<char>>, gone: Seq<Seq<char>>) -> Seq<Seq<char>>
    decreases gone.len(),
{
    if gone.len() == 0 {
        windows
    } else {
        text::without(windows_without(windows, gone.drop_last()), gone.last())
    }
}

/// What the clients of a session are told of windows taken out: each window
/// once.
pub open spec fn takeover_notices(s: SessionModel, gone: Seq<Seq<char>>) -> Seq<NoticeModel>
    decreases gone.len(),
{
    if gone.len() == 0 {
        seq![registry::told(s, NotificationModel::LayoutCleared)]
    } else {
        let earlier = takeover_notices(s, gone.drop_last());
        if windows_without(s.windows, gone.drop_last()).contains(gone.last()) {
            earlier.push(
                registry::told(
                    s,
                    NotificationModel::WindowRemoved { session_id: s.id, window_id: gone.last() },
                ),
            )
        } else {
            earlier
        }
    }
}

/// A session that has been taken over: nobody is attached to it.
pub open spec fn taken_over(s: SessionModel) -> SessionModel {
    SessionModel {
        clients: Seq::empty(),
        subscribers: Seq::empty(),
        windows: windows_without(s.windows, claimed_windows(s.clients)),
        ..s
    }
}

/// A session with a client attached.
pub open spec fn with_client(
    s: SessionModel,
    client: Seq<char>,
    mode: AttachMode,
    role: ClientRole,
    window: Seq<char>,
) -> SessionModel {
    SessionModel {
        clients: s.clients.push(
            ClientModel {
                client_id: client,
                mode,
                window_id: if window.len() > 0 {
                    Some(window)
                } else {
                    None
                },
                role,
            },
        ),
        subscribers: session::with_text(s.subscribers, client),
        windows: if window.len() > 0 {
            session::with_text(s.windows, window)
        } else {
            s.windows
        },
        ..s
    }
}

/// What attaching did.
#[derive(Debug)]
pub struct AttachOutcome {
    /// What to tell whom, in this order.
    pub notices: Vec<Notice>,
    /// The clients that were put out, and are to be cut off from the panes.
    pub kicked: Vec<String>,
    pub snapshot: SessionSnapshot,
}

/// The session that a client attached to, before the client joins.
pub open spec fn before_joining(s: SessionModel, mode: AttachMode) -> SessionModel {
    if mode == AttachMode::Steal {
        taken_over(s)
    } else {
        s
    }
}

/// What is told to whom when a client attaches: the windows that left with it
/// elsewhere, what taking over the session ends, and the window that joins,
/// unless it was there just before.
pub open spec fn attach_notices(
    r: Seq<SessionModel>,
    released: Seq<(Seq<char>, Seq<char>)>,
    s: SessionModel,
    client: Seq<char>,
    mode: AttachMode,
    role: ClientRole,
    window: Seq<char>,
) -> Seq<NoticeModel> {
    let base = before_joining(s, mode);
    let left = registry::removal_notices(r, stale(released, s.id, window));
    let ended = if mode == AttachMode::Steal {
        takeover_notices(s, claimed_windows(s.clients))
    } else {
        Seq::empty()
    };
    let joined = if window.len() > 0 && !base.windows.contains(window) && !released.contains(
        (s.id, window),
    ) {
        seq![
            registry::told(
                with_client(base, client, mode, role, window),
                NotificationModel::WindowAdded { session_id: s.id, window_id: window },
            ),
        ]
    } else {
        Seq::empty()
    };
    left + ended + joined
}

/// The windows to tell of, and whether the window comes back at once.
fn split_released(
    released: Vec<ReleasedWindow>,
    session_id: &str,
    window_id: &str,
) -> (result: (Vec<ReleasedWindow>, bool))
    ensures
        registry::released_models(result.0@) == stale(
            registry::released_models(released@),
            session_id@,
            window_id@,
        ),
        result.1 == (window_id@.len() > 0 && registry::released_models(released@).contains(
            (session_id@, window_id@),
        )),
{
    let ghost all = registry::released_models(released@);
    let mut left: Vec<ReleasedWindow> = Vec::new();
    let mut back: bool = false;
    let mut i: usize = 0;
    proof {
        assert(registry::released_models(left@) =~= stale(all.take(0), session_id@, window_id@));
    }
    while i < released.len()
        invariant
            i <= released.len(),
            all == registry::released_models(released@),
            registry::released_models(left@) == stale(
                all.take(i as int),
                session_id@,
                window_id@,
            ),
            back == (window_id@.len() > 0 && exists|j: int|
                0 <= j < i && #[trigger] all[j] == (session_id@, window_id@)),
        decreases released.len() - i,
    {
        let ghost so_far = left@;
        proof {
            assert(all.take(i + 1).drop_last() =~= all.take(i as int));
            assert(all.take(i + 1).last() == all[i as int]);
        }
        if !window_id.is_empty() && same_text(released[i].session_id.as_str(), session_id)
            && same_text(released[i].window_id.as_str(), window_id) {
            back = true;
            assert(all[i as int] == (session_id@, window_id@));
        } else {
            let window = ReleasedWindow {
                session_id: released[i].session_id.clone(),
                window_id: released[i].window_id.clone(),
            };
            left.push(window);
            proof {
                assert(registry::released_models(left@) =~= registry::released_models(so_far).push(
                    all[i as int],
                ));
            }
        }
        i = i + 1;
    }
    proof {
        assert(all.take(released.len() as int) =~= all);
        if all.contains((session_id@, window_id@)) {
            let k = choose|k: int| 0 <= k < all.len() && all[k] == (session_id@, window_id@);
            assert(all[k] == (session_id@, window_id@));
        }
    }
    (left, back)
}

/// The windows that the clients of a session have claimed.
fn windows_claimed(session: &Session) -> (windows: Vec<String>)
    ensures
        text::texts(windows@) == claimed_windows(session@.clients),
{
    let ghost all = session@.clients;
    let mut windows: Vec<String> = Vec::new();
    let mut i: usize = 0;
    proof {
        assert(text::texts(windows@) =~= claimed_windows(all.take(0)));
    }
    while i < session.attached_clients.len()
        invariant
            i <= session.attached_clients.len(),
            all == session@.clients,
            text::texts(windows@) == claimed_windows(all.take(i as int)),
        decreases session.attached_clients.len() - i,
    {
        let ghost so_far = windows@;
        proof {
            assert(all.take(i + 1).drop_last() =~= all.take(i as int));
            assert(all.take(i + 1).last() == session.attached_clients@[i as int]@);
        }
        if let Some(window) = &session.attached_clients[i].window_id {
            windows.push(window.clone());
            proof {
                text::lemma_texts_push(so_far, *window);
            }
        }
        i = i + 1;
    }
    proof {
        assert(all.take(session.attached_clients.len() as int) =~= all);
    }
    windows
}

fn add_text(list: &mut Vec<String>, added: &String)
    ensures
        text::texts(final(list)@) == session::with_text(text::texts(old(list)@), added@),
{
    if !contains_text(list, added.as_str()) {
        list.push(added.clone());
        proof {
            text::lemma_texts_push(old(list)@, *added);
        }
    }
}

/// The clients that leave a session when another one takes it over.
fn clients_kicked(session: &Session) -> (kicked: Vec<String>)
    ensures
        text::texts(kicked@) == kicked_clients(session@.clients, session@.subscribers),
{
    let ghost ids = session@.clients.map_values(|c: ClientModel| c.client_id);
    let mut kicked: Vec<String> = Vec::new();
    let mut i: usize = 0;
    proof {
        assert(text::texts(kicked@) =~= merged(Seq::empty(), ids.take(0)));
    }
    while i < session.attached_clients.len()
        invariant
            i <= session.attached_clients.len(),
            ids == session@.clients.map_values(|c: ClientModel| c.client_id),
            text::texts(kicked@) == merged(Seq::empty(), ids.take(i as int)),
        decreases session.attached_clients.len() - i,
    {
        proof {
            assert(ids.take(i + 1).drop_last() =~= ids.take(i as int));
            assert(ids.take(i + 1).last() == session.attached_clients@[i as int].client_id@);
        }
        add_text(&mut kicked, &session.attached_clients[i].client_id);
        i = i + 1;
    }
    proof {
        assert(ids.take(session.attached_clients.len() as int) =~= ids);
    }
    let ghost first = text::texts(kicked@);
    let ghost subscribers = session@.subscribers;
    let mut j: usize = 0;
    proof {
        assert(subscribers.take(0) =~= Seq::<Seq<char>>::empty());
    }
    while j < session.lifecycle_subscribers.len()
        invariant
            j <= session.lifecycle_subscribers.len(),
            subscribers == session@.subscribers,
            text::texts(kicked@) == merged(first, subscribers.take(j as int)),
        decreases session.lifecycle_subscribers.len() - j,
    {
        proof {
            assert(subscribers.take(j + 1).drop_last() =~= subscribers.take(j as int));
            assert(subscribers.take(j + 1).last() == session.lifecycle_subscribers@[j as int]@);
        }
        add_text(&mut kicked, &session.lifecycle_subscribers[j]);
        j = j + 1;
    }
    proof {
        assert(subscribers.take(session.lifecycle_subscribers.len() as int) =~= subscribers);
    }
    kicked
}

/// Puts everybody out of a session and adds what they are told.
fn take_over(session: &mut Session, notices: &mut Vec<Notice>) -> (kicked: Vec<String>)
    ensures
        final(session)@ == taken_over(old(session)@),
        registry::notice_models(final(notices)@) == registry::notice_models(old(notices)@)
            + takeover_notices(old(session)@, claimed_windows(old(session)@.clients)),
        text::texts(kicked@) == kicked_clients(old(session)@.clients, old(session)@.subscribers),
{
    let ghost s = session@;
    let ghost start = registry::notice_models(notices@);
    let kicked: Vec<String> = clients_kicked(session);
    let windows: Vec<String> = windows_claimed(session);
    let ghost gone = claimed_windows(s.clients);
    let ghost so_far = notices@;
    let cleared = registry::tell(session, Notification::LayoutCleared);
    notices.push(cleared);
    session.attached_clients = Vec::new();
    let mut i: usize = 0;
    proof {
        registry::lemma_notices_push(so_far, cleared);
        assert(session@.clients =~= Seq::<ClientModel>::empty());
        assert(gone.take(0) =~= Seq::<Seq<char>>::empty());
        assert(registry::notice_models(notices@) =~= start + takeover_notices(s, gone.take(0)));
    }
    while i < windows.len()
        invariant
            i <= windows.len(),
            gone == text::texts(windows@),
            s == old(session)@,
            session@ == (SessionModel {
                clients: Seq::empty(),
                windows: windows_without(s.windows, gone.take(i as int)),
                ..s
            }),
            registry::notice_models(notices@) == start + takeover_notices(
                s,
                gone.take(i as int),
            ),
        decreases windows.len() - i,
    {
        let ghost so_far = notices@;
        proof {
            assert(gone.take(i + 1).drop_last() =~= gone.take(i as int));
            assert(gone.take(i + 1).last() == windows@[i as int]@);
        }
        if session.release_window(windows[i].as_str()) {
            let notice = registry::tell(
                session,
                Notification::WindowRemoved {
                    session_id: session.id.clone(),
                    window_id: windows[i].clone(),
                },
            );
            notices.push(notice);
            proof {
                registry::lemma_notices_push(so_far, notice);
                assert(registry::notice_models(notices@) =~= start + takeover_notices(
                    s,
                    gone.take(i + 1),
                ));
            }
        }
        i = i + 1;
    }
    let _ = session.clear_lifecycle_subscribers();
    proof {
        assert(gone.take(windows.len() as int) =~= gone);
    }
    kicked
}

/// Attaches the client of a connection to a session. It leaves every session
/// first; in the mode that takes over, everybody else leaves the session.
/// `minted` is the identifier of a connection that has none yet.
pub fn handle_attach(
    request: &AttachRequest,
    sessions: &mut Vec<Session>,
    connection: &mut ConnectionState,
    trust: ConnectionTrust,
    minted: String,
) -> (result: Result<AttachOutcome, HandlerError>)
    ensures
        ({
            let before = registry::registry(old(sessions)@);
            let after = registry::registry(final(sessions)@);
            let k = registry::session_index(before, request.session_id@, 0);
            let client = match old(connection).client_id {
                Some(id) => id@,
                None => minted@,
            };
            let mode = mode_of(request.mode);
            let role = protocol::attach_role(
                asked_role(request.identity, old(connection).role, trust),
                mode,
            );
            let window = request.window_id@;
            let r = registry::registry_without(before, client);
            let released = registry::windows_leaving(before, client);
            match result {
                Err(e) => k == before.len() && e == HandlerError::SessionNotFound && after == before
                    && *final(connection) == *old(connection),
                Ok(outcome) => {
                    &&& k < before.len()
                    &&& after == r.update(
                        k,
                        with_client(before_joining(r[k], mode), client, mode, role, window),
                    )
                    &&& final(connection).role == Some(role)
                    &&& text::optional(final(connection).client_id) == Some(client)
                    &&& registry::notice_models(outcome.notices@) == attach_notices(
                        r,
                        released,
                        r[k],
                        client,
                        mode,
                        role,
                        window,
                    )
                    &&& text::texts(outcome.kicked@) == if mode == AttachMode::Steal {
                        kicked_clients(r[k].clients, r[k].subscribers)
                    } else {
                        Seq::empty()
                    }
                    &&& outcome.snapshot@ == snapshot_of(after[k])
                },
            }
        }),
{
    let ghost before = registry::registry(sessions@);
    proof {
        registry::lemma_session_index(before, request.session_id@, 0);
    }
    let k: usize = find_session(sessions, request.session_id.as_str());
    if k >= sessions.len() {
        return Err(HandlerError::SessionNotFound);
    }
    let client: String = match &connection.client_id {
        Some(id) => id.clone(),
        None => minted,
    };
    connection.client_id = Some(client.clone());
    let released: Vec<ReleasedWindow> = unregister_client_from_sessions(
        sessions,
        client.as_str(),
    );
    let ghost r = registry::registry(sessions@);
    let ghost all = registry::released_models(released@);
    let ghost s = r[k as int];
    let (left, back) = split_released(
        released,
        request.session_id.as_str(),
        request.window_id.as_str(),
    );
    let mut notices: Vec<Notice> = broadcast_window_removals(sessions, &left);
    let requested: ClientRole = match &request.identity {
        Some(who) => proto_role_to_client_role(who.role),
        None => match connection.role {
            Some(role) => role,
            None => trust.attach_default_role(),
        },
    };
    let mode: AttachMode = match request.mode {
        2 => AttachMode::Steal,
        3 => AttachMode::ReadOnly,
        _ => AttachMode::Shared,
    };
    let role: ClientRole = effective_attach_role(requested, mode);
    connection.role = Some(role);
    let ghost list = sessions@;
    let mut kicked: Vec<String> = Vec::new();
    let ghost told_so_far = registry::notice_models(notices@);
    proof {
        assert(text::texts(kicked@) =~= Seq::<Seq<char>>::empty());
        assert(list[k as int]@ == s);
        assert(s.id == request.session_id@);
    }
    if mode == AttachMode::Steal {
        kicked = take_over(&mut sessions[k], &mut notices);
    } else {
        proof {
            assert(told_so_far =~= told_so_far + Seq::empty());
        }
    }
    let ghost told_then = registry::notice_models(notices@);
    let ghost base = before_joining(s, mode);
    proof {
        assert(sessions@[k as int]@ == base);
    }
    let window: Option<String> = if request.window_id.as_str().is_empty() {
        None
    } else {
        Some(request.window_id.clone())
    };
    sessions[k].add_attached_client(client.clone(), mode, role, window);
    sessions[k].add_lifecycle_subscriber(client.clone());
    if !request.window_id.as_str().is_empty() {
        let added: bool = sessions[k].add_window(request.window_id.clone());
        if added && !back {
            let ghost so_far = notices@;
            let notice = registry::tell(
                &sessions[k],
                Notification::WindowAdded {
                    session_id: request.session_id.clone(),
                    window_id: request.window_id.clone(),
                },
            );
            notices.push(notice);
            proof {
                registry::lemma_notices_push(so_far, notice);
            }
        }
    }
    proof {
        registry::lemma_registry_update(list, sessions@, k as int);
        assert(sessions@[k as int]@ == with_client(base, client@, mode, role, request.window_id@));
        assert(registry::notice_models(notices@) =~= attach_notices(
            r,
            all,
            s,
            client@,
            mode,
            role,
            request.window_id@,
        ));
    }
    let snapshot = session_snapshot(&sessions[k]);
    Ok(AttachOutcome { notices, kicked, snapshot })
}

/// Takes the client of a connection out of every session. The connection is
/// then as one that has not attached.
pub fn handle_detach(sessions: &mut Vec<Session>, connection: &mut ConnectionState) -> (notices:
    Vec<Notice>)
    ensures
        final(connection).role == old(connection).role,
        final(connection).client_id is None,
        match old(connection).client_id {
            Some(client) => registry::registry(final(sessions)@) == registry::registry_without(
                registry::registry(old(sessions)@),
                client@,
            ) && registry::notice_models(notices@) == registry::removal_notices(
                registry::registry(final(sessions)@),
                registry::windows_leaving(registry::registry(old(sessions)@), client@),
            ),
            None => registry::registry(final(sessions)@) == registry::registry(old(sessions)@)
                && notices@.len() == 0,
        },
{
    match connection.client_id.take() {
        Some(client) => {
            let released = unregister_client_from_sessions(sessions, client.as_str());
            broadcast_window_removals(sessions, &released)
        },
        None => Vec::new(),
    }
}

/// Takes the client of a closed connection out of every session.
pub fn cleanup_connection_state(sessions: &mut Vec<Session>, client_id: &Option<String>) -> (notices:
    Vec<Notice>)
    ensures
        match *client_id {
            Some(client) => registry::registry(final(sessions)@) == registry::registry_without(
                registry::registry(old(sessions)@),
                client@,
            ) && registry::notice_models(notices@) == registry::removal_notices(
                registry::registry(final(sessions)@),
                registry::windows_leaving(registry::registry(old(sessions)@), client@),
            ),
            None => registry::registry(final(sessions)@) == registry::registry(old(sessions)@)
                && notices@.len() == 0,
        },
{
    match client_id {
        Some(client) => {
            let released = unregister_client_from_sessions(sessions, client.as_str());
            broadcast_window_removals(sessions, &released)
        },
        None => Vec::new(),
    }
}

/// The state of a session that a new window starts from. The window joins the
/// session when it attaches, not before.
pub fn handle_new_window(
    sessions: &Vec<Session>,
    client_id: &Option<String>,
    session_id: &str,
) -> (result: Result<SessionSnapshot, HandlerError>)
    ensures
        ({
            let r = registry::registry(sessions@);
            let k = registry::session_index(r, session_id@, 0);
            match result {
                Err(e) => e == if registry::may_mutate(r, text::optional(*client_id)) {
                    HandlerError::SessionNotFound
                } else {
                    HandlerError::NotAttached
                } && (registry::may_mutate(r, text::optional(*client_id)) ==> k == r.len()),
                Ok(snapshot) => registry::may_mutate(r, text::optional(*client_id)) && k < r.len()
                    && snapshot@ == snapshot_of(r[k]),
            }
        }),
{
    match ensure_mutation_allowed(sessions, client_id) {
        Err(e) => {
            return Err(e);
        },
        Ok(_) => {},
    }
    proof {
        registry::lemma_session_index(registry::registry(sessions@), session_id@, 0);
    }
    let k: usize = find_session(sessions, session_id);
    if k >= sessions.len() {
        return Err(HandlerError::SessionNotFound);
    }
    Ok(session_snapshot(&sessions[k]))
}

proof fn lemma_clients_without_absent(clients: Seq<ClientModel>, client: Seq<char>)
    requires
        !session::has_client(clients, client),
    ensures
        session::clients_without(clients, client) == clients,
    decreases clients.len(),
{
    if clients.len() > 0 {
        session::lemma_has_client_last(clients, client);
        lemma_clients_without_absent(clients.drop_last(), client);
        assert(clients.drop_last().push(clients.last()) =~= clients);
    } else {
        assert(session::clients_without(clients, client) =~= clients);
    }
}

proof fn lemma_without_absent(list: Seq<Seq<char>>, gone: Seq<char>)
    requires
        !list.contains(gone),
    ensures
        text::without(list, gone) == list,
    decreases list.len(),
{
    if list.len() > 0 {
        text::lemma_contains_last(list, gone);
        lemma_without_absent(list.drop_last(), gone);
        assert(list.drop_last().push(list.last()) =~= list);
    } else {
        assert(text::without(list, gone) =~= list);
    }
}

/// Detaching a client that joined a session, with a window of its own or with
/// none, leaves the session as it was before.
pub proof fn law_leaving_undoes_joining(
    s: SessionModel,
    client: Seq<char>,
    mode: AttachMode,
    role: ClientRole,
    window: Seq<char>,
)
    requires
        !session::has_client(s.clients, client),
        !s.subscribers.contains(client),
        window.len() > 0 ==> !s.windows.contains(window) && !session::is_claimed(s.clients, window),
    ensures
        registry::without_client(with_client(s, client, mode, role, window), client) == s,
{
    let after = with_client(s, client, mode, role, window);
    let added = after.clients.last();
    assert(after.clients.drop_last() =~= s.clients);
    lemma_clients_without_absent(s.clients, client);
    session::lemma_has_client_last(after.clients, client);
    assert(session::clients_without(after.clients, client) == s.clients);
    lemma_without_absent(s.subscribers, client);
    assert(after.subscribers.drop_last() =~= s.subscribers);
    if window.len() > 0 {
        lemma_without_absent(s.windows, window);
        assert(after.windows.drop_last() =~= s.windows);
        assert(session::claimed_window(after.clients, client) == Some(window));
    } else {
        assert(session::claimed_window(after.clients, client) is None);
    }
}

/// A client that is put out of a session, and is attached to no other one, may
/// change nothing any longer.
pub proof fn law_who_is_put_out_is_refused(
    r: Seq<SessionModel>,
    k: int,
    other: Seq<char>,
    client: Seq<char>,
    role: ClientRole,
    window: Seq<char>,
)
    requires
        0 <= k < r.len(),
        other != client,
        forall|i: int|
            0 <= i < r.len() && i != k ==> !session::has_client((#[trigger] r[i]).clients, other),
    ensures
        !registry::may_mutate(
            r.update(
                k,
                with_client(taken_over(r[k]), client, AttachMode::Steal, role, window),
            ),
            Some(other),
        ),
{
    let joined = with_client(taken_over(r[k]), client, AttachMode::Steal, role, window);
    let after = r.update(k, joined);
    assert(joined.clients.drop_last() =~= Seq::<ClientModel>::empty());
    session::lemma_has_client_last(joined.clients, other);
    assert forall|i: int| 0 <= i < after.len() implies !session::has_client(
        (#[trigger] after[i]).clients,
        other,
    ) by {
        if i != k {
            assert(after[i] == r[i]);
        }
    }
}

/// Nobody but the new client is left in a session that was taken over: nobody
/// else is attached or told anything.
pub proof fn law_takeover_leaves_one_client(
    s: SessionModel,
    client: Seq<char>,
    role: ClientRole,
    window: Seq<char>,
)
    ensures
        with_client(taken_over(s), client, AttachMode::Steal, role, window).clients.len() == 1,
        with_client(taken_over(s), client, AttachMode::Steal, role, window).subscribers == seq![
            client,
        ],
{
    let after = with_client(taken_over(s), client, AttachMode::Steal, role, window);
    assert(after.subscribers =~= seq![client]);
}

/// Whether a list of panes has one of an identifier.
pub open spec fn shows(panes: Seq<PaneModel>, pane: Seq<char>) -> bool {
    exists|j: int| 0 <= j < panes.len() && (#[trigger] panes[j]).id == pane
}

proof fn lemma_pane_index_bounds(panes: Seq<PaneModel>, pane: Seq<char>, k: int)
    requires
        0 <= k <= panes.len(),
    ensures
        k <= pane_index(panes, pane, k) <= panes.len(),
        pane_index(panes, pane, k) < panes.len() ==> panes[pane_index(panes, pane, k)].id == pane,
        forall|j: int| k <= j < pane_index(panes, pane, k) ==> (#[trigger] panes[j]).id != pane,
    decreases panes.len() - k,
{
    if k < panes.len() && panes[k].id != pane {
        lemma_pane_index_bounds(panes, pane, k + 1);
    }
}

proof fn lemma_listed_panes(panes: Seq<PaneModel>, ids: Seq<Seq<char>>, x: Seq<char>)
    ensures
        shows(panes_listed(panes, ids), x) <==> ids.contains(x) && shows(panes, x),
        forall|j: int|
            0 <= j < panes_listed(panes, ids).len() ==> panes.contains(
                #[trigger] panes_listed(panes, ids)[j],
            ),
    decreases ids.len(),
{
    let listed = panes_listed(panes, ids);
    if ids.len() > 0 {
        let last = ids.last();
        let earlier = panes_listed(panes, ids.drop_last());
        let k = pane_index(panes, last, 0);
        lemma_listed_panes(panes, ids.drop_last(), x);
        lemma_pane_index_bounds(panes, last, 0);
        text::lemma_contains_last(ids, x);
        if k < panes.len() {
            assert(panes[k].id == last);
            assert(listed.last() == panes[k]);
            assert(listed[listed.len() - 1] == panes[k]);
        }
        if shows(listed, x) {
            let j = choose|j: int| 0 <= j < listed.len() && (#[trigger] listed[j]).id == x;
            if j < earlier.len() {
                assert(earlier[j].id == x);
                assert(shows(earlier, x));
            } else {
                assert(panes[k].id == x);
            }
        }
        if ids.contains(x) && shows(panes, x) {
            if shows(earlier, x) {
                let j = choose|j: int| 0 <= j < earlier.len() && (#[trigger] earlier[j]).id == x;
                assert(listed[j].id == x);
            } else {
                assert(x == last);
                let w = choose|w: int| 0 <= w < panes.len() && (#[trigger] panes[w]).id == x;
                assert(k <= w);
                assert(listed[listed.len() - 1].id == x);
            }
        }
        assert forall|j: int| 0 <= j < listed.len() implies panes.contains(#[trigger] listed[j]) by {
            if j < earlier.len() {
                assert(listed[j] == earlier[j]);
            } else {
                assert(listed[j] == panes[k]);
            }
        }
    }
}

proof fn lemma_all_listed(panes: Seq<PaneModel>, ids: Seq<Seq<char>>)
    requires
        forall|j: int| 0 <= j < ids.len() ==> shows(panes, #[trigger] ids[j]),
    ensures
        panes_listed(panes, ids).len() == ids.len(),
        forall|j: int|
            0 <= j < ids.len() ==> (#[trigger] panes_listed(panes, ids)[j]).id == ids[j],
    decreases ids.len(),
{
    if ids.len() > 0 {
        let init = ids.drop_last();
        assert forall|j: int| 0 <= j < init.len() implies shows(panes, #[trigger] init[j]) by {
            assert(shows(panes, ids[j]));
        }
        lemma_all_listed(panes, init);
        lemma_pane_index_bounds(panes, ids.last(), 0);
        assert(shows(panes, ids[ids.len() - 1]));
        let w = choose|w: int| 0 <= w < panes.len() && (#[trigger] panes[w]).id == ids.last();
        assert(pane_index(panes, ids.last(), 0) <= w);
        let listed = panes_listed(panes, ids);
        assert forall|j: int| 0 <= j < ids.len() implies (#[trigger] listed[j]).id == ids[j] by {
            if j < init.len() {
                assert(listed[j] == panes_listed(panes, init)[j]);
                assert(init[j] == ids[j]);
            }
        }
    }
}

/// A snapshot names the session and what is focused in it, and has the tabs of
/// the session, in their order and under their titles.
pub proof fn law_snapshots_name_the_session(session: Session, snapshot: SessionSnapshot)
    requires
        snapshot@ == snapshot_of(session@),
    ensures
        snapshot.session_id@ == session.id@,
        match session.focused_pane {
            Some(pane) => snapshot.focused_pane_id@ == pane@,
            None => snapshot.focused_pane_id@.len() == 0,
        },
        match session.focused_tab {
            Some(tab) => snapshot.focused_tab_id@ == tab@,
            None => snapshot.focused_tab_id@.len() == 0,
        },
        snapshot.tabs@.len() == session.tabs@.len(),
        forall|i: int|
            0 <= i < session.tabs@.len() ==> (#[trigger] snapshot.tabs@[i]).id@
                == session.tabs@[i].id@ && snapshot.tabs@[i].title@ == session.tabs@[i].title@,
{
    let tabs = snapshot@.tabs;
    assert(tabs.len() == snapshot.tabs@.len());
    assert forall|i: int| 0 <= i < session.tabs@.len() implies (#[trigger] snapshot.tabs@[i]).id@
        == session.tabs@[i].id@ && snapshot.tabs@[i].title@ == session.tabs@[i].title@ by {
        assert(tabs[i] == snapshot.tabs@[i]@);
        assert(session@.tabs[i] == session.tabs@[i]@);
    }
}

/// A tab of a snapshot lists a pane just where the tab at the same place in
/// the session names it and the session has it; and it lists nothing but panes
/// of the session, as they are.
pub proof fn law_tabs_list_their_own_panes(
    session: Session,
    snapshot: SessionSnapshot,
    i: int,
    pane: Seq<char>,
)
    requires
        snapshot@ == snapshot_of(session@),
        0 <= i < session.tabs@.len(),
    ensures
        (exists|j: int|
            0 <= j < snapshot.tabs@[i].panes@.len() && (#[trigger] snapshot.tabs@[i].panes@[j]).id@
                == pane) <==> {
            &&& exists|j: int|
                0 <= j < session.tabs@[i].pane_ids@.len()
                    && (#[trigger] session.tabs@[i].pane_ids@[j])@ == pane
            &&& exists|j: int|
                0 <= j < session.panes@.len() && (#[trigger] session.panes@[j]).id@ == pane
        },
        forall|j: int|
            0 <= j < snapshot.tabs@[i].panes@.len() ==> exists|k: int|
                0 <= k < session.panes@.len() && (#[trigger] session.panes@[k])@
                    == (#[trigger] snapshot.tabs@[i].panes@[j])@,
{
    law_snapshots_name_the_session(session, snapshot);
    let tab = session.tabs@[i];
    let shown = snapshot.tabs@[i].panes@;
    let panes = session@.panes;
    let ids = text::texts(tab.pane_ids@);
    let listed = panes_listed(panes, ids);
    assert(snapshot@.tabs[i] == snapshot.tabs@[i]@);
    assert(session@.tabs[i] == tab@);
    assert(session::pane_models(shown) == listed);
    lemma_listed_panes(panes, ids, pane);
    if exists|j: int| 0 <= j < shown.len() && (#[trigger] shown[j]).id@ == pane {
        let j = choose|j: int| 0 <= j < shown.len() && (#[trigger] shown[j]).id@ == pane;
        assert(listed[j].id == pane);
        assert(shows(listed, pane));
        let a = choose|a: int| 0 <= a < ids.len() && ids[a] == pane;
        assert(tab.pane_ids@[a]@ == pane);
        let b = choose|b: int| 0 <= b < panes.len() && (#[trigger] panes[b]).id == pane;
        assert(session.panes@[b].id@ == pane);
    }
    if (exists|j: int| 0 <= j < tab.pane_ids@.len() && (#[trigger] tab.pane_ids@[j])@ == pane) && (
    exists|j: int| 0 <= j < session.panes@.len() && (#[trigger] session.panes@[j]).id@ == pane) {
        let a = choose|a: int| 0 <= a < tab.pane_ids@.len() && (#[trigger] tab.pane_ids@[a])@ == pane;
        assert(ids[a] == pane);
        let b = choose|b: int|
            0 <= b < session.panes@.len() && (#[trigger] session.panes@[b]).id@ == pane;
        assert(panes[b].id == pane);
        assert(shows(listed, pane));
        let j = choose|j: int| 0 <= j < listed.len() && (#[trigger] listed[j]).id == pane;
        assert(shown[j].id@ == pane);
    }
    assert forall|j: int| 0 <= j < shown.len() implies exists|k: int|
        0 <= k < session.panes@.len() && (#[trigger] session.panes@[k])@ == (
        #[trigger] shown[j])@ by {
        assert(listed[j] == shown[j]@);
        assert(panes.contains(listed[j]));
        let k = choose|k: int| 0 <= k < panes.len() && panes[k] == listed[j];
        assert(session.panes@[k]@ == shown[j]@);
    }
}

/// Whether a pane is listed in one of these tabs.
pub open spec fn stands_in(tabs: Seq<TabInfo>, pane: PaneModel) -> bool {
    exists|i: int, j: int|
        0 <= i < tabs.len() && 0 <= j < tabs[i].panes@.len() && (#[trigger] tabs[i].panes@[j])@
            == pane
}

/// In the snapshot of a coherent session each tab lists the panes that the tab
/// of the session names, in that order; so a pane stands at a place in the
/// snapshot just where the session lists it there, and every pane of the
/// session stands somewhere.
pub proof fn law_snapshots_hold_every_pane(session: Session, snapshot: SessionSnapshot, max_wire: int)
    requires
        snapshot@ == snapshot_of(session@),
        session_laws::coherent(session@, max_wire),
    ensures
        forall|i: int|
            0 <= i < session.tabs@.len() ==> (#[trigger] snapshot.tabs@[i]).panes@.len()
                == session.tabs@[i].pane_ids@.len(),
        forall|i: int, j: int|
            0 <= i < session.tabs@.len() && 0 <= j < session.tabs@[i].pane_ids@.len() ==> (
            #[trigger] snapshot.tabs@[i].panes@[j]).id@ == session.tabs@[i].pane_ids@[j]@,
        forall|k: int|
            0 <= k < session.panes@.len() ==> stands_in(
                snapshot.tabs@,
                (#[trigger] session.panes@[k])@,
            ),
{
    law_snapshots_name_the_session(session, snapshot);
    let panes = session@.panes;
    let keys = session::pane_keys(panes);
    assert forall|i: int| 0 <= i < session.tabs@.len() implies {
        let shown = (#[trigger] snapshot.tabs@[i]).panes@;
        &&& shown.len() == session.tabs@[i].pane_ids@.len()
        &&& forall|j: int|
            0 <= j < shown.len() ==> (#[trigger] shown[j]).id@ == session.tabs@[i].pane_ids@[j]@
                && panes.contains(shown[j]@)
    } by {
        let shown = snapshot.tabs@[i].panes@;
        let ids = text::texts(session.tabs@[i].pane_ids@);
        assert(snapshot@.tabs[i] == snapshot.tabs@[i]@);
        assert(session@.tabs[i] == session.tabs@[i]@);
        assert(session::pane_models(shown) == panes_listed(panes, ids));
        assert forall|j: int| 0 <= j < ids.len() implies shows(panes, #[trigger] ids[j]) by {
            assert(session@.tabs[i].pane_ids[j] == ids[j]);
            assert(keys.contains(session@.tabs[i].pane_ids[j]));
            let w = choose|w: int| 0 <= w < keys.len() && keys[w] == ids[j];
            assert(panes[w].id == ids[j]);
        }
        lemma_all_listed(panes, ids);
        lemma_listed_panes(panes, ids, Seq::empty());
        assert forall|j: int| 0 <= j < shown.len() implies (#[trigger] shown[j]).id@
            == session.tabs@[i].pane_ids@[j]@ && panes.contains(shown[j]@) by {
            assert(panes_listed(panes, ids)[j] == shown[j]@);
            assert(ids[j] == session.tabs@[i].pane_ids@[j]@);
        }
    }
    assert forall|i: int, j: int|
        0 <= i < session.tabs@.len() && 0 <= j < session.tabs@[i].pane_ids@.len() implies (
    #[trigger] snapshot.tabs@[i].panes@[j]).id@ == session.tabs@[i].pane_ids@[j]@ by {
        assert(snapshot.tabs@[i].panes@.len() == session.tabs@[i].pane_ids@.len());
    }
    assert(snapshot@.tabs.len() == snapshot.tabs@.len());
    assert forall|k: int| 0 <= k < session.panes@.len() implies stands_in(
        snapshot.tabs@,
        (#[trigger] session.panes@[k])@,
    ) by {
        let pane = session.panes@[k]@;
        assert(panes[k] == pane);
        assert(keys[k] == pane.id);
        assert(persistence::is_listed(session@.tabs, keys[k]));
        let i = choose|i: int|
            0 <= i < session@.tabs.len() && (#[trigger] session@.tabs[i]).pane_ids.contains(
                pane.id,
            );
        assert(session@.tabs[i] == session.tabs@[i]@);
        let ids = session@.tabs[i].pane_ids;
        let j = choose|j: int| 0 <= j < ids.len() && ids[j] == pane.id;
        assert(ids[j] == session.tabs@[i].pane_ids@[j]@);
        let shown = snapshot.tabs@[i].panes@;
        assert(shown[j].id@ == pane.id && panes.contains(shown[j]@));
        let w = choose|w: int| 0 <= w < panes.len() && panes[w] == shown[j]@;
        assert(keys[w] == keys[k]);
        assert(w == k);
        assert(snapshot.tabs@[i].panes@[j]@ == session.panes@[k]@);
    }
}

/// A client that joins a session is the last one attached, as it asked to be,
/// and is told of the session; a window that it names is there. All else about
/// the session stays.
pub proof fn law_joining_clients_are_attached(
    s: SessionModel,
    client: Seq<char>,
    mode: AttachMode,
    role: ClientRole,
    window: Seq<char>,
)
    ensures
        ({
            let after = with_client(s, client, mode, role, window);
            &&& after.clients.len() == s.clients.len() + 1
            &&& after.clients.drop_last() == s.clients
            &&& after.clients.last().client_id == client
            &&& after.clients.last().mode == mode
            &&& after.clients.last().role == role
            &&& window.len() > 0 ==> after.clients.last().window_id == Some(window)
            &&& window.len() == 0 ==> after.clients.last().window_id is None
            &&& after.subscribers.contains(client)
            &&& s.subscribers.is_prefix_of(after.subscribers)
            &&& after.subscribers.len() <= s.subscribers.len() + 1
            &&& window.len() > 0 ==> after.windows.contains(window)
            &&& s.windows.is_prefix_of(after.windows)
            &&& after.windows.len() <= s.windows.len() + 1
            &&& window.len() == 0 || s.windows.contains(window) ==> after.windows == s.windows
            &&& after.id == s.id && after.name == s.name && after.cwd == s.cwd
            &&& after.created_timestamp == s.created_timestamp
            &&& after.tabs == s.tabs && after.panes == s.panes && after.layout == s.layout
            &&& after.focused_pane == s.focused_pane && after.focused_tab == s.focused_tab
            &&& after.sync == s.sync
        }),
{
    let after = with_client(s, client, mode, role, window);
    assert(after.clients.drop_last() =~= s.clients);
    session::law_added_texts_are_there(s.subscribers, client);
    session::law_added_texts_are_there(s.windows, window);
}

proof fn lemma_claimed(clients: Seq<ClientModel>, window: Seq<char>)
    ensures
        claimed_windows(clients).contains(window) <==> session::is_claimed(clients, window),
    decreases clients.len(),
{
    let all = claimed_windows(clients);
    if clients.len() > 0 {
        let init = clients.drop_last();
        let earlier = claimed_windows(init);
        lemma_claimed(init, window);
        if all.contains(window) {
            let k = choose|k: int| 0 <= k < all.len() && all[k] == window;
            if k < earlier.len() {
                assert(earlier[k] == window);
                let i = choose|i: int|
                    0 <= i < init.len() && (#[trigger] init[i]).window_id == Some(window);
                assert(clients[i].window_id == Some(window));
            } else {
                assert(clients[clients.len() - 1].window_id == Some(window));
            }
        }
        if session::is_claimed(clients, window) {
            let i = choose|i: int|
                0 <= i < clients.len() && (#[trigger] clients[i]).window_id == Some(window);
            if i < init.len() {
                assert(init[i].window_id == Some(window));
                let k = choose|k: int| 0 <= k < earlier.len() && earlier[k] == window;
                assert(all[k] == window);
            } else {
                assert(all[earlier.len() as int] == window);
            }
        }
    }
}

proof fn lemma_windows_without(windows: Seq<Seq<char>>, gone: Seq<Seq<char>>, window: Seq<char>)
    ensures
        windows_without(windows, gone).contains(window) <==> windows.contains(window)
            && !gone.contains(window),
    decreases gone.len(),
{
    if gone.len() > 0 {
        lemma_windows_without(windows, gone.drop_last(), window);
        text::lemma_without(windows_without(windows, gone.drop_last()), gone.last(), window);
        text::lemma_contains_last(gone, window);
    }
}

/// Taking over a session puts everybody out, and the windows that they had
/// claimed with them; other windows stay, and all else about the session.
pub proof fn law_takeover_clears_the_session(s: SessionModel, window: Seq<char>)
    ensures
        ({
            let after = taken_over(s);
            &&& after.clients.len() == 0
            &&& after.subscribers.len() == 0
            &&& after.windows.contains(window) <==> s.windows.contains(window)
                && !session::is_claimed(s.clients, window)
            &&& after.id == s.id && after.name == s.name && after.cwd == s.cwd
            &&& after.created_timestamp == s.created_timestamp
            &&& after.tabs == s.tabs && after.panes == s.panes && after.layout == s.layout
            &&& after.focused_pane == s.focused_pane && after.focused_tab == s.focused_tab
            &&& after.sync == s.sync
        }),
{
    lemma_claimed(s.clients, window);
    lemma_windows_without(s.windows, claimed_windows(s.clients), window);
}

/// Only in the mode that takes over does anybody leave the session that a
/// client attaches to.
pub proof fn law_only_takeover_clears(s: SessionModel, mode: AttachMode)
    ensures
        mode is Steal ==> before_joining(s, mode) == taken_over(s),
        !(mode is Steal) ==> before_joining(s, mode) == s,
{
}

proof fn lemma_merged(list: Seq<Seq<char>>, more: Seq<Seq<char>>, x: Seq<char>)
    ensures
        merged(list, more).contains(x) <==> list.contains(x) || more.contains(x),
        list.no_duplicates() ==> merged(list, more).no_duplicates(),
    decreases more.len(),
{
    if more.len() > 0 {
        let earlier = merged(list, more.drop_last());
        let last = more.last();
        lemma_merged(list, more.drop_last(), x);
        text::lemma_contains_last(more, x);
        if !earlier.contains(last) {
            let all = earlier.push(last);
            text::lemma_contains_last(all, x);
            assert(all.drop_last() =~= earlier);
            if list.no_duplicates() {
                layout_model::lemma_fresh_push(earlier, last);
            }
        }
    }
}

/// Those who are put out of a session are just the clients that are attached to
/// it and those that are told of it, each of them once.
pub proof fn law_everybody_is_put_out_once(
    clients: Seq<ClientModel>,
    subscribers: Seq<Seq<char>>,
    who: Seq<char>,
)
    ensures
        kicked_clients(clients, subscribers).contains(who) <==> session::has_client(clients, who)
            || subscribers.contains(who),
        kicked_clients(clients, subscribers).no_duplicates(),
{
    let ids = clients.map_values(|c: ClientModel| c.client_id);
    lemma_merged(Seq::empty(), ids, who);
    lemma_merged(merged(Seq::empty(), ids), subscribers, who);
    if ids.contains(who) {
        let k = choose|k: int| 0 <= k < ids.len() && ids[k] == who;
        assert(clients[k].client_id == who);
    }
    if session::has_client(clients, who) {
        let k = choose|k: int| 0 <= k < clients.len() && (#[trigger] clients[k]).client_id == who;
        assert(ids[k] == who);
    }
}

/// Whether a notice tells the subscribers of a session that a window left it.
pub open spec fn tells_removal(notice: NoticeModel, s: SessionModel, window: Seq<char>) -> bool {
    notice.recipients == s.subscribers && notice.event == (NotificationModel::WindowRemoved {
        session_id: s.id,
        window_id: window,
    })
}

/// What those who are put out are told: first that the layout is cleared, then
/// of each window of theirs that was there that it left.
pub proof fn law_takeovers_are_told(s: SessionModel, gone: Seq<Seq<char>>, window: Seq<char>)
    ensures
        ({
            let notices = takeover_notices(s, gone);
            &&& notices.len() >= 1
            &&& notices[0].recipients == s.subscribers && notices[0].event is LayoutCleared
            &&& forall|i: int|
                1 <= i < notices.len() ==> (#[trigger] notices[i]).recipients == s.subscribers
                    && notices[i].event is WindowRemoved
            &&& s.windows.contains(window) && gone.contains(window) <==> exists|i: int|
                1 <= i < notices.len() && tells_removal(#[trigger] notices[i], s, window)
        }),
    decreases gone.len(),
{
    let notices = takeover_notices(s, gone);
    if gone.len() > 0 {
        let init = gone.drop_last();
        let earlier = takeover_notices(s, init);
        let last = gone.last();
        law_takeovers_are_told(s, init, window);
        text::lemma_contains_last(gone, window);
        lemma_windows_without(s.windows, init, last);
        lemma_windows_without(s.windows, init, window);
        assert(forall|i: int| 0 <= i < earlier.len() ==> notices[i] == earlier[i]);
        if s.windows.contains(window) && gone.contains(window) {
            if init.contains(window) {
                let i = choose|i: int|
                    1 <= i < earlier.len() && tells_removal(#[trigger] earlier[i], s, window);
                assert(tells_removal(notices[i], s, window));
            } else {
                assert(tells_removal(notices[earlier.len() as int], s, window));
            }
        }
        if exists|i: int|
            1 <= i < notices.len() && tells_removal(#[trigger] notices[i], s, window) {
            let i = choose|i: int|
                1 <= i < notices.len() && tells_removal(#[trigger] notices[i], s, window);
            if i < earlier.len() {
                assert(tells_removal(earlier[i], s, window));
            }
        }
    }
}

/// The test for any window of a session but this one.
pub open spec fn other_window(session: Seq<char>, window: Seq<char>) -> spec_fn(
    (Seq<char>, Seq<char>),
) -> bool {
    |w: (Seq<char>, Seq<char>)| !(window.len() > 0 && w == (session, window))
}

/// Of the windows that left with a client all are told but the one that comes
/// back at once.
pub proof fn law_windows_that_come_back_are_not_told(
    released: Seq<(Seq<char>, Seq<char>)>,
    session: Seq<char>,
    window: Seq<char>,
)
    ensures
        stale(released, session, window) == released.filter(other_window(session, window)),
    decreases released.len(),
{
    reveal(Seq::filter);
    if released.len() > 0 {
        law_windows_that_come_back_are_not_told(released.drop_last(), session, window);
    }
}

proof fn lemma_removals_only(r: Seq<SessionModel>, released: Seq<(Seq<char>, Seq<char>)>)
    ensures
        forall|i: int|
            0 <= i < registry::removal_notices(r, released).len() ==> (#[trigger] registry::removal_notices(
                r,
                released,
            )[i]).event is WindowRemoved,
    decreases released.len(),
{
    if released.len() > 0 {
        lemma_removals_only(r, released.drop_last());
        let earlier = registry::removal_notices(r, released.drop_last());
        let all = registry::removal_notices(r, released);
        assert forall|i: int| 0 <= i < all.len() implies (#[trigger] all[i]).event is WindowRemoved by {
            if i < earlier.len() {
                assert(all[i] == earlier[i]);
            }
        }
    }
}

/// A window that joins a session is told, to all who are told of the session and
/// to the new client, unless it was there already or had left just before. It is
/// told last, after the windows that left elsewhere and after what taking over
/// the session ended; and taking it over is told just where it is taken over.
pub proof fn law_new_windows_are_told(
    r: Seq<SessionModel>,
    released: Seq<(Seq<char>, Seq<char>)>,
    s: SessionModel,
    client: Seq<char>,
    mode: AttachMode,
    role: ClientRole,
    window: Seq<char>,
)
    ensures
        ({
            let notices = attach_notices(r, released, s, client, mode, role, window);
            let base = before_joining(s, mode);
            let joins = window.len() > 0 && !base.windows.contains(window) && !released.contains(
                (s.id, window),
            );
            let left = registry::removal_notices(r, stale(released, s.id, window));
            let ended = if mode is Steal {
                takeover_notices(s, claimed_windows(s.clients))
            } else {
                Seq::empty()
            };
            &&& joins ==> notices == (left + ended).push(
                NoticeModel {
                    recipients: session::with_text(base.subscribers, client),
                    event: NotificationModel::WindowAdded { session_id: s.id, window_id: window },
                },
            )
            &&& !joins ==> notices == left + ended
            &&& !joins ==> forall|i: int|
                0 <= i < notices.len() ==> !((#[trigger] notices[i]).event is WindowAdded)
        }),
{
    let notices = attach_notices(r, released, s, client, mode, role, window);
    let left = registry::removal_notices(r, stale(released, s.id, window));
    let gone = claimed_windows(s.clients);
    let base = before_joining(s, mode);
    let joins = window.len() > 0 && !base.windows.contains(window) && !released.contains(
        (s.id, window),
    );
    lemma_removals_only(r, stale(released, s.id, window));
    law_takeovers_are_told(s, gone, window);
    if joins {
        let last = NoticeModel {
            recipients: session::with_text(base.subscribers, client),
            event: NotificationModel::WindowAdded { session_id: s.id, window_id: window },
        };
        assert(notices =~= notices.drop_last().push(last));
        if mode is Steal {
            assert(notices =~= (left + takeover_notices(s, gone)).push(last));
        } else {
            assert(notices =~= (left + Seq::<NoticeModel>::empty()).push(last));
        }
    } else {
        if mode is Steal {
            assert(notices =~= left + takeover_notices(s, gone));
        } else {
            assert(notices =~= left + Seq::<NoticeModel>::empty());
        }
        assert forall|i: int| 0 <= i < notices.len() implies !((
        #[trigger] notices[i]).event is WindowAdded) by {
            if i < left.len() {
                assert(notices[i] == registry::removal_notices(r, stale(released, s.id, window))[i]);
            } else {
                assert(notices[i] == takeover_notices(s, gone)[i - left.len()]);
            }
        }
    }
}

/// The numbers of the ways to attach, and what a client may do that names no
/// role: what it could do before, or else what its transport stands for.
pub proof fn law_attaching_goes_by_the_numbers(
    number: i32,
    who: ClientIdentity,
    current: Option<ClientRole>,
    trust: ConnectionTrust,
)
    ensures
        mode_of(number) is Steal <==> number == 2,
        mode_of(number) is ReadOnly <==> number == 3,
        asked_role(Some(who), current, trust) is ReadWrite <==> who.role == 2,
        asked_role(Some(who), current, trust) is Admin <==> who.role == 3,
        current is Some ==> asked_role(None, current, trust) == current->0,
        current is None && trust is LocalSocket ==> asked_role(None, current, trust) is Admin,
        current is None && trust is Unauthenticated ==> asked_role(None, current, trust) is ReadOnly,
{
}

} // verus!
