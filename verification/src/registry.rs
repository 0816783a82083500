//! The sessions of a server, and what requests do to them.
use crate::layout;
use crate::layout::LayoutError;
use crate::session;
use crate::session::{is_attached, ClientRole, Session, SessionModel, TabModel};
use crate::text;
use crate::text::{copy_texts, same_text};
use vstd::prelude::*;

verus! {

/// The mathematical values of the sessions.
pub open spec fn registry(sessions: Seq<Session>) -> Seq<SessionModel> {
    sessions.map_values(|s: Session| s@)
}

pub proof fn lemma_registry_update(before: Seq<Session>, after: Seq<Session>, i: int)
    requires
        0 <= i < before.len(),
        before.len() == after.len(),
        forall|j: int| 0 <= j < before.len() && j != i ==> #[trigger] after[j] == before[j],
    ensures
        registry(after) == registry(before).update(i, after[i]@),
{
    assert(registry(after) =~= registry(before).update(i, after[i]@));
}

/// The first session of an identifier, from `k` on; their number where there
/// is none.
pub open spec fn session_index(r: Seq<SessionModel>, id: Seq<char>, k: int) -> int
    decreases r.len() - k,
{
    if k >= r.len() {
        r.len() as int
    } else if r[k].id == id {
        k
    } else {
        session_index(r, id, k + 1)
    }
}

pub proof fn lemma_session_index(r: Seq<SessionModel>, id: Seq<char>, k: int)
    requires
        0 <= k <= r.len(),
    ensures
        k <= session_index(r, id, k) <= r.len(),
        session_index(r, id, k) < r.len() ==> r[session_index(r, id, k)].id == id,
    decreases r.len() - k,
{
    if k < r.len() && r[k].id != id {
        lemma_session_index(r, id, k + 1);
    }
}

/// The first session of an identifier; their number where there is none.
pub fn find_session(sessions: &Vec<Session>, id: &str) -> (index: usize)
    ensures
        index == session_index(registry(sessions@), id@, 0),
        index <= sessions.len(),
{
    let mut i: usize = 0;
    while i < sessions.len()
        invariant
            i <= sessions.len(),
            session_index(registry(sessions@), id@, 0) == session_index(
                registry(sessions@),
                id@,
                i as int,
            ),
        decreases sessions.len() - i,
    {
        if same_text(sessions[i].id.as_str(), id) {
            return i;
        }
        i = i + 1;
    }
    i
}

/// A window that left a session.
#[derive(Debug, PartialEq)]
pub struct ReleasedWindow {
    pub session_id: String,
    pub window_id: String,
}

/// The mathematical value of a window that left a session: the session and
/// the window.
pub open spec fn released_models(released: Seq<ReleasedWindow>) -> Seq<(Seq<char>, Seq<char>)> {
    released.map_values(|w: ReleasedWindow| (w.session_id@, w.window_id@))
}

/// The window that leaves a session with a client: the one the client had
/// claimed, where no other client claims it.
pub open spec fn window_leaving(s: SessionModel, client: Seq<char>) -> Option<Seq<char>> {
    let claimed = session::claimed_window(s.clients, client);
    let left = session::clients_without(s.clients, client);
    if claimed is Some && !session::is_claimed(left, claimed->0) && s.windows.contains(claimed->0) {
        claimed
    } else {
        None
    }
}

/// A session without a client.
pub open spec fn without_client(s: SessionModel, client: Seq<char>) -> SessionModel {
    let claimed = session::claimed_window(s.clients, client);
    let left = session::clients_without(s.clients, client);
    SessionModel {
        clients: left,
        subscribers: text::without(s.subscribers, client),
        windows: if claimed is Some && !session::is_claimed(left, claimed->0) {
            text::without(s.windows, claimed->0)
        } else {
            s.windows
        },
        ..s
    }
}

/// The windows that leave the sessions with a client.
pub open spec fn windows_leaving(r: Seq<SessionModel>, client: Seq<char>) -> Seq<
    (Seq<char>, Seq<char>),
>
    decreases r.len(),
{
    if r.len() == 0 {
        Seq::empty()
    } else {
        let earlier = windows_leaving(r.drop_last(), client);
        match window_leaving(r.last(), client) {
            Some(window) => earlier.push((r.last().id, window)),
            None => earlier,
        }
    }
}

/// The sessions without a client.
pub open spec fn registry_without(r: Seq<SessionModel>, client: Seq<char>) -> Seq<SessionModel> {
    r.map_values(|s: SessionModel| without_client(s, client))
}

/// Takes a client out of every session and says which windows left with it.
pub fn unregister_client_from_sessions(sessions: &mut Vec<Session>, client_id: &str) -> (released:
    Vec<ReleasedWindow>)
    ensures
        registry(final(sessions)@) == registry_without(registry(old(sessions)@), client_id@),
        released_models(released@) == windows_leaving(registry(old(sessions)@), client_id@),
{
    let ghost before = registry(sessions@);
    let mut released: Vec<ReleasedWindow> = Vec::new();
    let mut i: usize = 0;
    proof {
        assert(released_models(released@) =~= windows_leaving(before.take(0), client_id@));
    }
    while i < sessions.len()
        invariant
            i <= sessions.len(),
            sessions.len() == before.len(),
            before == registry(old(sessions)@),
            forall|j: int|
                0 <= j < i ==> (#[trigger] sessions@[j])@ == without_client(before[j], client_id@),
            forall|j: int| i <= j < sessions.len() ==> (#[trigger] sessions@[j])@ == before[j],
            released_models(released@) == windows_leaving(before.take(i as int), client_id@),
        decreases sessions.len() - i,
    {
        let ghost list = sessions@;
        let ghost s = before[i as int];
        proof {
            assert(sessions@[i as int]@ == s);
            assert(before.take(i + 1).drop_last() =~= before.take(i as int));
            assert(before.take(i + 1).last() == s);
        }
        let claimed: Option<String> = sessions[i].remove_attached_client(client_id);
        sessions[i].remove_lifecycle_subscriber(client_id);
        if let Some(window_id) = claimed {
            let left: bool = sessions[i].release_window(window_id.as_str());
            if left {
                let ghost so_far = released@;
                let window = ReleasedWindow { session_id: sessions[i].id.clone(), window_id };
                released.push(window);
                proof {
                    assert(released_models(released@) =~= released_models(so_far).push(
                        (s.id, window_id@),
                    ));
                }
            }
        }
        proof {
            assert(sessions@[i as int]@ == without_client(s, client_id@));
        }
        i = i + 1;
    }
    proof {
        assert(before.take(sessions.len() as int) =~= before);
        assert(registry(sessions@) =~= registry_without(before, client_id@));
    }
    released
}

/// What the clients of a session are told.
#[derive(Debug)]
pub enum Notification {
    WindowAdded { session_id: String, window_id: String },
    WindowRemoved { session_id: String, window_id: String },
    /// The client has been put out of the session; there is no layout left.
    LayoutCleared,
    /// The layout of the session changed.
    LayoutChanged { session_id: String },
    PaneAdded { pane_id: String, tab_id: String },
    PaneRemoved { pane_id: String, exit_code: i32 },
    PaneFocused { pane_id: String },
    PaneTitleChanged { pane_id: String, title: String },
    PaneZoomed { pane_id: String, zoomed: bool },
}

/// The mathematical value of a notification.
pub enum NotificationModel {
    WindowAdded { session_id: Seq<char>, window_id: Seq<char> },
    WindowRemoved { session_id: Seq<char>, window_id: Seq<char> },
    LayoutCleared,
    LayoutChanged { session_id: Seq<char> },
    PaneAdded { pane_id: Seq<char>, tab_id: Seq<char> },
    PaneRemoved { pane_id: Seq<char>, exit_code: i32 },
    PaneFocused { pane_id: Seq<char> },
    PaneTitleChanged { pane_id: Seq<char>, title: Seq<char> },
    PaneZoomed { pane_id: Seq<char>, zoomed: bool },
}

impl View for Notification {
    type V = NotificationModel;

    open spec fn view(&self) -> NotificationModel {
        match *self {
            Notification::WindowAdded { session_id, window_id } => NotificationModel::WindowAdded {
                session_id: session_id@,
                window_id: window_id@,
            },
            Notification::WindowRemoved {
                session_id,
                window_id,
            } => NotificationModel::WindowRemoved {
                session_id: session_id@,
                window_id: window_id@,
            },
            Notification::LayoutCleared => NotificationModel::LayoutCleared,
            Notification::LayoutChanged { session_id } => NotificationModel::LayoutChanged {
                session_id: session_id@,
            },
            Notification::PaneAdded { pane_id, tab_id } => NotificationModel::PaneAdded {
                pane_id: pane_id@,
                tab_id: tab_id@,
            },
            Notification::PaneRemoved { pane_id, exit_code } => NotificationModel::PaneRemoved {
                pane_id: pane_id@,
                exit_code,
            },
            Notification::PaneFocused { pane_id } => NotificationModel::PaneFocused {
                pane_id: pane_id@,
            },
            Notification::PaneTitleChanged {
                pane_id,
                title,
            } => NotificationModel::PaneTitleChanged { pane_id: pane_id@, title: title@ },
            Notification::PaneZoomed { pane_id, zoomed } => NotificationModel::PaneZoomed {
                pane_id: pane_id@,
                zoomed,
            },
        }
    }
}

/// A notification and the clients that get it.
#[derive(Debug)]
pub struct Notice {
    pub recipients: Vec<String>,
    pub event: Notification,
}

/// The mathematical value of a notice.
pub struct NoticeModel {
    pub recipients: Seq<Seq<char>>,
    pub event: NotificationModel,
}

impl View for Notice {
    type V = NoticeModel;

    open spec fn view(&self) -> NoticeModel {
        NoticeModel { recipients: text::texts(self.recipients@), event: self.event@ }
    }
}

pub open spec fn notice_models(notices: Seq<Notice>) -> Seq<NoticeModel> {
    notices.map_values(|n: Notice| n@)
}

/// A notification to all subscribers of a session.
pub open spec fn told(s: SessionModel, event: NotificationModel) -> NoticeModel {
    NoticeModel { recipients: s.subscribers, event }
}

/// A notification to all subscribers of a session.
pub fn tell(session: &Session, event: Notification) -> (notice: Notice)
    ensures
        notice@ == told(session@, event@),
{
    Notice { recipients: copy_texts(&session.lifecycle_subscribers), event }
}

pub proof fn lemma_notices_push(notices: Seq<Notice>, notice: Notice)
    ensures
        notice_models(notices.push(notice)) == notice_models(notices).push(notice@),
{
    assert(notice_models(notices.push(notice)) =~= notice_models(notices).push(notice@));
}

/// What the sessions are told of windows that left: each its own.
pub open spec fn removal_notices(
    r: Seq<SessionModel>,
    released: Seq<(Seq<char>, Seq<char>)>,
) -> Seq<NoticeModel>
    decreases released.len(),
{
    if released.len() == 0 {
        Seq::empty()
    } else {
        let earlier = removal_notices(r, released.drop_last());
        let (session, window) = released.last();
        let k = session_index(r, session, 0);
        if k < r.len() {
            earlier.push(
                told(
                    r[k],
                    NotificationModel::WindowRemoved { session_id: session, window_id: window },
                ),
            )
        } else {
            earlier
        }
    }
}

/// Tells the sessions of windows that left.
pub fn broadcast_window_removals(sessions: &Vec<Session>, released: &Vec<ReleasedWindow>) -> (notices:
    Vec<Notice>)
    ensures
        notice_models(notices@) == removal_notices(
            registry(sessions@),
            released_models(released@),
        ),
{
    let ghost r = registry(sessions@);
    let ghost all = released_models(released@);
    let mut notices: Vec<Notice> = Vec::new();
    let mut i: usize = 0;
    proof {
        assert(notice_models(notices@) =~= removal_notices(r, all.take(0)));
    }
    while i < released.len()
        invariant
            i <= released.len(),
            r == registry(sessions@),
            all == released_models(released@),
            notice_models(notices@) == removal_notices(r, all.take(i as int)),
        decreases released.len() - i,
    {
        let ghost so_far = notices@;
        proof {
            assert(all.take(i + 1).drop_last() =~= all.take(i as int));
            assert(all.take(i + 1).last() == all[i as int]);
            lemma_session_index(r, all[i as int].0, 0);
        }
        let k: usize = find_session(sessions, released[i].session_id.as_str());
        if k < sessions.len() {
            let notice = tell(
                &sessions[k],
                Notification::WindowRemoved {
                    session_id: released[i].session_id.clone(),
                    window_id: released[i].window_id.clone(),
                },
            );
            notices.push(notice);
            proof {
                lemma_notices_push(so_far, notice);
            }
        }
        i = i + 1;
    }
    proof {
        assert(all.take(released.len() as int) =~= all);
    }
    notices
}

/// What the server knows of a connection.
#[derive(Debug)]
pub struct ConnectionState {
    /// The role that attaching gave.
    pub role: Option<ClientRole>,
    /// The identifier that attaching gave.
    pub client_id: Option<String>,
}

/// Whether a client may change anything: it has no identifier, or a session
/// lists the one that it has. A client that was put out has one that none
/// lists.
pub open spec fn may_mutate(r: Seq<SessionModel>, client: Option<Seq<char>>) -> bool {
    client is None || exists|i: int|
        0 <= i < r.len() && session::has_client((#[trigger] r[i]).clients, client->0)
}

/// Whether a client may change anything.
pub fn client_still_attached(sessions: &Vec<Session>, client_id: &Option<String>) -> (yes: bool)
    ensures
        yes == may_mutate(registry(sessions@), text::optional(*client_id)),
{
    let client: &String = match client_id {
        Some(client) => client,
        None => {
            return true;
        },
    };
    let mut i: usize = 0;
    while i < sessions.len()
        invariant
            i <= sessions.len(),
            text::optional(*client_id) == Some(client@),
            forall|j: int|
                0 <= j < i ==> !session::has_client(
                    (#[trigger] registry(sessions@)[j]).clients,
                    client@,
                ),
        decreases sessions.len() - i,
    {
        if is_attached(&sessions[i].attached_clients, client.as_str()) {
            assert(session::has_client(registry(sessions@)[i as int].clients, client@));
            return true;
        }
        i = i + 1;
    }
    false
}

/// What a handler refuses.
#[derive(Clone, Copy, Debug, PartialEq, Eq, Structural)]
pub enum HandlerError {
    /// The client was put out of its session or has detached.
    NotAttached,
    SessionNotFound,
    PaneNotFound,
    InvalidDirection,
    /// The pane is listed in no tab.
    PaneWithoutTab,
    /// The layout shows no pane beside which a new one could go.
    NoAnchor,
    /// The layout does not take the change.
    Layout(LayoutError),
    /// The layout does not let the pane go.
    PaneStuck(LayoutError),
}

/// Whether a refusal is answered; any other ends the connection.
pub fn refusal_is_answered(error: HandlerError) -> (answered: bool)
    ensures
        answered == !(error is SessionNotFound || error is PaneWithoutTab || error is NoAnchor
            || error is PaneStuck),
{
    match error {
        HandlerError::SessionNotFound
        | HandlerError::PaneWithoutTab
        | HandlerError::NoAnchor
        | HandlerError::PaneStuck(_) => false,
        _ => true,
    }
}

/// Refuses a client that may not change anything.
pub fn ensure_mutation_allowed(sessions: &Vec<Session>, client_id: &Option<String>) -> (result:
    Result<(), HandlerError>)
    ensures
        result == if may_mutate(registry(sessions@), text::optional(*client_id)) {
            Ok::<(), HandlerError>(())
        } else {
            Err::<(), HandlerError>(HandlerError::NotAttached)
        },
{
    if client_still_attached(sessions, client_id) {
        Ok(())
    } else {
        Err(HandlerError::NotAttached)
    }
}

/// Takes a session out.
pub fn take_session(sessions: &mut Vec<Session>, session_id: &str) -> (taken: Option<Session>)
    ensures
        ({
            let r = registry(old(sessions)@);
            let k = session_index(r, session_id@, 0);
            match taken {
                Some(session) => k < r.len() && session@ == r[k] && registry(final(sessions)@)
                    == r.remove(k),
                None => k == r.len() && registry(final(sessions)@) == r,
            }
        }),
{
    let ghost before = sessions@;
    proof {
        lemma_session_index(registry(sessions@), session_id@, 0);
    }
    let k: usize = find_session(sessions, session_id);
    if k < sessions.len() {
        let session = sessions.remove(k);
        proof {
            assert(registry(sessions@) =~= registry(before).remove(k as int));
        }
        Some(session)
    } else {
        None
    }
}

/// Ends a session, where it is there.
pub fn kill_session(
    sessions: &mut Vec<Session>,
    client_id: &Option<String>,
    session_id: &str,
) -> (result: Result<Option<Session>, HandlerError>)
    ensures
        ({
            let r = registry(old(sessions)@);
            let k = session_index(r, session_id@, 0);
            match result {
                Err(e) => e == HandlerError::NotAttached && !may_mutate(
                    r,
                    text::optional(*client_id),
                ) && registry(final(sessions)@) == r,
                Ok(taken) => may_mutate(r, text::optional(*client_id)) && match taken {
                    Some(session) => k < r.len() && session@ == r[k] && registry(final(sessions)@)
                        == r.remove(k),
                    None => k == r.len() && registry(final(sessions)@) == r,
                },
            }
        }),
{
    match ensure_mutation_allowed(sessions, client_id) {
        Err(e) => Err(e),
        Ok(_) => Ok(take_session(sessions, session_id)),
    }
}

/// What a list of sessions says of one.
#[derive(Debug)]
pub struct SessionInfo {
    pub id: String,
    pub name: String,
    pub cwd: String,
    pub created_timestamp: u64,
    pub attached_clients: u32,
}

pub struct SessionInfoModel {
    pub id: Seq<char>,
    pub name: Seq<char>,
    pub cwd: Seq<char>,
    pub created_timestamp: u64,
    pub attached_clients: u32,
}

impl View for SessionInfo {
    type V = SessionInfoModel;

    open spec fn view(&self) -> SessionInfoModel {
        SessionInfoModel {
            id: self.id@,
            name: self.name@,
            cwd: self.cwd@,
            created_timestamp: self.created_timestamp,
            attached_clients: self.attached_clients,
        }
    }
}

pub open spec fn info_of(s: SessionModel) -> SessionInfoModel {
    SessionInfoModel {
        id: s.id,
        name: s.name,
        cwd: s.cwd,
        created_timestamp: s.created_timestamp,
        attached_clients: s.clients.len() as u32,
    }
}

/// All sessions, in the order in which they were created.
pub fn list_sessions(sessions: &Vec<Session>) -> (infos: Vec<SessionInfo>)
    ensures
        infos@.map_values(|i: SessionInfo| i@) == registry(sessions@).map_values(
            |s: SessionModel| info_of(s),
        ),
{
    let mut infos: Vec<SessionInfo> = Vec::new();
    let mut i: usize = 0;
    while i < sessions.len()
        invariant
            i <= sessions.len(),
            infos.len() == i,
            forall|j: int| 0 <= j < i ==> (#[trigger] infos@[j])@ == info_of(sessions@[j]@),
        decreases sessions.len() - i,
    {
        infos.push(
            SessionInfo {
                id: sessions[i].id.clone(),
                name: sessions[i].name.clone(),
                cwd: sessions[i].cwd.clone(),
                created_timestamp: sessions[i].created_timestamp,
                attached_clients: sessions[i].attached_client_count(),
            },
        );
        i = i + 1;
    }
    proof {
        assert(infos@.map_values(|i: SessionInfo| i@) =~= registry(sessions@).map_values(
            |s: SessionModel| info_of(s),
        ));
    }
    infos
}

/// A new session: it has one tab, which is named after it and focused.
pub open spec fn fresh_session(
    id: Seq<char>,
    name: Seq<char>,
    cwd: Seq<char>,
    created_timestamp: u64,
) -> SessionModel {
    SessionModel {
        id,
        name,
        cwd,
        created_timestamp,
        tabs: seq![TabModel { id: "tab-0"@, title: name, pane_ids: Seq::empty() }],
        layout: layout::empty_model(),
        focused_pane: None,
        focused_tab: Some("tab-0"@),
        clients: Seq::empty(),
        panes: Seq::empty(),
        sync: session::SyncModel { pane_id: None, scroll_offset: 0, enabled: false },
        windows: Seq::empty(),
        subscribers: Seq::empty(),
    }
}

/// Creates a session. The answer names no creation time and no clients.
pub fn create_session(
    sessions: &mut Vec<Session>,
    id: String,
    name: String,
    cwd: String,
    created_timestamp: u64,
) -> (info: SessionInfo)
    ensures
        registry(final(sessions)@) == registry(old(sessions)@).push(
            fresh_session(id@, name@, cwd@, created_timestamp),
        ),
        info@ == (SessionInfoModel {
            id: id@,
            name: name@,
            cwd: cwd@,
            created_timestamp: 0,
            attached_clients: 0,
        }),
{
    let ghost before = sessions@;
    let mut session = Session::new(id.clone(), name.clone(), cwd.clone(), created_timestamp);
    let tab: String = "tab-0".to_owned();
    proof {
        assert(session::tab_keys(session@.tabs) =~= Seq::<Seq<char>>::empty());
    }
    session.add_tab(tab.clone(), name.clone());
    session.focused_tab = Some(tab);
    proof {
        assert(session@.tabs =~= fresh_session(id@, name@, cwd@, created_timestamp).tabs);
    }
    sessions.push(session);
    proof {
        assert(registry(sessions@) =~= registry(before).push(session@));
    }
    SessionInfo { id, name, cwd, created_timestamp: 0, attached_clients: 0 }
}

/// Renames a session.
pub fn rename_session(
    sessions: &mut Vec<Session>,
    client_id: &Option<String>,
    session_id: &str,
    name: String,
) -> (result: Result<(), HandlerError>)
    ensures
        ({
            let r = registry(old(sessions)@);
            let k = session_index(r, session_id@, 0);
            if !may_mutate(r, text::optional(*client_id)) {
                result == Err::<(), HandlerError>(HandlerError::NotAttached) && registry(
                    final(sessions)@,
                ) == r
            } else if k == r.len() {
                result == Err::<(), HandlerError>(HandlerError::SessionNotFound) && registry(
                    final(sessions)@,
                ) == r
            } else {
                result == Ok::<(), HandlerError>(()) && registry(final(sessions)@) == r.update(
                    k,
                    SessionModel { name: name@, ..r[k] },
                )
            }
        }),
{
    let ghost before = sessions@;
    match ensure_mutation_allowed(sessions, client_id) {
        Err(e) => {
            return Err(e);
        },
        Ok(_) => {},
    }
    proof {
        lemma_session_index(registry(sessions@), session_id@, 0);
    }
    let k: usize = find_session(sessions, session_id);
    if k >= sessions.len() {
        return Err(HandlerError::SessionNotFound);
    }
    sessions[k].name = name;
    proof {
        lemma_registry_update(before, sessions@, k as int);
    }
    Ok(())
}

/// The session found under an identifier is the first one that has it; where
/// none has it, none is found.
pub proof fn law_first_session_is_found(r: Seq<SessionModel>, id: Seq<char>)
    ensures
        ({
            let k = session_index(r, id, 0);
            &&& 0 <= k <= r.len()
            &&& k < r.len() ==> r[k].id == id
            &&& forall|i: int| 0 <= i < k ==> (#[trigger] r[i]).id != id
        }),
{
    lemma_session_index(r, id, 0);
    lemma_earlier_sessions(r, id, 0);
}

proof fn lemma_earlier_sessions(r: Seq<SessionModel>, id: Seq<char>, k: int)
    requires
        0 <= k <= r.len(),
    ensures
        forall|i: int| k <= i < session_index(r, id, k) ==> (#[trigger] r[i]).id != id,
    decreases r.len() - k,
{
    if k < r.len() && r[k].id != id {
        lemma_earlier_sessions(r, id, k + 1);
    }
}

/// A client that leaves a session is neither attached to it nor told anything
/// any longer. Its window goes unless another client has claimed it too; the
/// other clients, subscribers and windows stay in their order, and all else
/// about the session stays.
pub proof fn law_a_client_that_leaves_takes_its_window(s: SessionModel, client: Seq<char>)
    ensures
        ({
            let after = without_client(s, client);
            let claimed = session::claimed_window(s.clients, client);
            &&& !session::has_client(after.clients, client)
            &&& !after.subscribers.contains(client)
            &&& after.clients == s.clients.filter(session::other_client(client))
            &&& after.subscribers == s.subscribers.filter(text::other_text(client))
            &&& claimed is Some && !session::is_claimed(after.clients, claimed->0)
                ==> after.windows == s.windows.filter(text::other_text(claimed->0))
            &&& claimed is None || session::is_claimed(after.clients, claimed->0)
                ==> after.windows == s.windows
            &&& after.id == s.id && after.name == s.name && after.cwd == s.cwd
            &&& after.created_timestamp == s.created_timestamp
            &&& after.tabs == s.tabs && after.panes == s.panes && after.layout == s.layout
            &&& after.focused_pane == s.focused_pane && after.focused_tab == s.focused_tab
            &&& after.sync == s.sync
        }),
{
    let after = without_client(s, client);
    session::law_other_clients_stay(s.clients, client);
    text::law_other_texts_stay(s.subscribers, client);
    text::lemma_without(s.subscribers, client, client);
    broadcast use vstd::seq_lib::group_filter_ensures;

    if let Some(window) = session::claimed_window(s.clients, client) {
        text::law_other_texts_stay(s.windows, window);
    }
    if session::has_client(after.clients, client) {
        let i = choose|i: int|
            0 <= i < after.clients.len() && (#[trigger] after.clients[i]).client_id == client;
        assert(session::other_client(client)(after.clients[i]));
    }
}

/// The window that leaves a session with a client is one that the session had
/// before and has no longer.
pub proof fn law_leaving_windows_are_gone(s: SessionModel, client: Seq<char>, window: Seq<char>)
    ensures
        window_leaving(s, client) == Some(window) <==> s.windows.contains(window)
            && !without_client(s, client).windows.contains(window),
{
    if let Some(claimed) = session::claimed_window(s.clients, client) {
        text::lemma_without(s.windows, claimed, window);
    }
}

/// The windows that leave with a client are told with their sessions: a pair is
/// told just where a session of that identifier loses the window.
pub proof fn law_every_leaving_window_is_told(
    r: Seq<SessionModel>,
    client: Seq<char>,
    id: Seq<char>,
    window: Seq<char>,
)
    ensures
        windows_leaving(r, client).contains((id, window)) <==> exists|i: int|
            0 <= i < r.len() && (#[trigger] r[i]).id == id && r[i].windows.contains(window)
                && !without_client(r[i], client).windows.contains(window),
    decreases r.len(),
{
    let told = windows_leaving(r, client);
    if r.len() > 0 {
        let init = r.drop_last();
        let earlier = windows_leaving(init, client);
        let last = r.len() - 1;
        law_every_leaving_window_is_told(init, client, id, window);
        law_leaving_windows_are_gone(r.last(), client, window);
        if told.contains((id, window)) {
            let k = choose|k: int| 0 <= k < told.len() && told[k] == (id, window);
            if k < earlier.len() {
                assert(earlier[k] == (id, window));
                let i = choose|i: int|
                    0 <= i < init.len() && (#[trigger] init[i]).id == id
                        && init[i].windows.contains(window) && !without_client(
                        init[i],
                        client,
                    ).windows.contains(window);
                assert(r[i] == init[i]);
            } else {
                assert(r[last].id == id);
            }
        }
        if exists|i: int|
            0 <= i < r.len() && (#[trigger] r[i]).id == id && r[i].windows.contains(window)
                && !without_client(r[i], client).windows.contains(window) {
            let i = choose|i: int|
                0 <= i < r.len() && (#[trigger] r[i]).id == id && r[i].windows.contains(window)
                    && !without_client(r[i], client).windows.contains(window);
            if i < last {
                assert(init[i] == r[i]);
                let k = choose|k: int| 0 <= k < earlier.len() && earlier[k] == (id, window);
                assert(told[k] == (id, window));
            } else {
                assert(told[earlier.len() as int] == (id, window));
            }
        }
    }
}

/// What is told of a session is told to those who asked to be told of it.
pub proof fn law_subscribers_are_told(s: SessionModel, event: NotificationModel)
    ensures
        told(s, event).recipients == s.subscribers,
        told(s, event).event == event,
{
}

/// Of each window that left a session that is there its subscribers are told,
/// in the order in which the windows left.
pub proof fn law_removals_are_told_in_order(
    r: Seq<SessionModel>,
    released: Seq<(Seq<char>, Seq<char>)>,
)
    requires
        forall|i: int|
            0 <= i < released.len() ==> session_index(r, (#[trigger] released[i]).0, 0) < r.len(),
    ensures
        removal_notices(r, released).len() == released.len(),
        forall|i: int|
            0 <= i < released.len() ==> {
                let notice = #[trigger] removal_notices(r, released)[i];
                &&& notice.recipients == r[session_index(r, released[i].0, 0)].subscribers
                &&& notice.event == (NotificationModel::WindowRemoved {
                    session_id: released[i].0,
                    window_id: released[i].1,
                })
            },
    decreases released.len(),
{
    if released.len() > 0 {
        let init = released.drop_last();
        assert forall|i: int| 0 <= i < init.len() implies session_index(
            r,
            (#[trigger] init[i]).0,
            0,
        ) < r.len() by {
            assert(init[i] == released[i]);
        }
        law_removals_are_told_in_order(r, init);
        let notices = removal_notices(r, released);
        assert(session_index(r, released[released.len() - 1].0, 0) < r.len());
        assert forall|i: int| 0 <= i < released.len() implies {
            let notice = #[trigger] notices[i];
            &&& notice.recipients == r[session_index(r, released[i].0, 0)].subscribers
            &&& notice.event == (NotificationModel::WindowRemoved {
                session_id: released[i].0,
                window_id: released[i].1,
            })
        } by {
            if i < init.len() {
                assert(notices[i] == removal_notices(r, init)[i]);
                assert(init[i] == released[i]);
            }
        }
    }
}

/// A list of sessions names each session, in their order, with what it is
/// called, where it works, when it was made and how many clients it has.
pub proof fn law_listed_sessions_are_the_sessions(sessions: Seq<Session>, infos: Seq<SessionInfo>)
    requires
        infos.map_values(|i: SessionInfo| i@) == registry(sessions).map_values(
            |s: SessionModel| info_of(s),
        ),
    ensures
        infos.len() == sessions.len(),
        forall|i: int|
            0 <= i < sessions.len() ==> {
                &&& (#[trigger] infos[i]).id@ == sessions[i].id@
                &&& infos[i].name@ == sessions[i].name@
                &&& infos[i].cwd@ == sessions[i].cwd@
                &&& infos[i].created_timestamp == sessions[i].created_timestamp
                &&& sessions[i].attached_clients@.len() <= u32::MAX ==> infos[i].attached_clients
                    == sessions[i].attached_clients@.len()
            },
{
    let all = infos.map_values(|i: SessionInfo| i@);
    assert(all.len() == infos.len());
    assert forall|i: int| 0 <= i < sessions.len() implies {
        &&& (#[trigger] infos[i]).id@ == sessions[i].id@
        &&& infos[i].name@ == sessions[i].name@
        &&& infos[i].cwd@ == sessions[i].cwd@
        &&& infos[i].created_timestamp == sessions[i].created_timestamp
        &&& sessions[i].attached_clients@.len() <= u32::MAX ==> infos[i].attached_clients
            == sessions[i].attached_clients@.len()
    } by {
        assert(all[i] == infos[i]@);
        assert(registry(sessions)[i] == sessions[i]@);
    }
}

/// A new session has what it was made with, and one focused tab under its name;
/// it has no panes, and nobody is attached to it or told of it.
pub proof fn law_new_sessions_are_empty(
    id: Seq<char>,
    name: Seq<char>,
    cwd: Seq<char>,
    created_timestamp: u64,
)
    ensures
        ({
            let s = fresh_session(id, name, cwd, created_timestamp);
            &&& s.id == id && s.name == name && s.cwd == cwd
            &&& s.created_timestamp == created_timestamp
            &&& s.tabs.len() == 1 && s.tabs[0].title == name && s.tabs[0].pane_ids.len() == 0
            &&& s.focused_tab == Some(s.tabs[0].id)
            &&& s.focused_pane is None
            &&& s.panes.len() == 0 && s.layout == layout::empty_model()
            &&& s.clients.len() == 0 && s.windows.len() == 0 && s.subscribers.len() == 0
            &&& !s.sync.enabled
        }),
{
}

} // verus!
