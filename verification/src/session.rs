//! A session: its tabs and panes, its layout, and the clients and windows that
//! are attached to it.
use crate::layout;
use crate::layout::{LayoutError, LayoutTree};
use crate::layout_model;
use crate::layout_model::NodeModel;
use crate::text;
use crate::text::{contains_text, copy_optional, copy_texts, remove_text, same_text};
use vstd::prelude::*;

verus! {

/// A tab.
#[derive(Debug)]
pub struct Tab {
    pub id: String,
    pub title: String,
    pub pane_ids: Vec<String>,
}

/// What a client may do.
#[derive(Clone, Copy, Debug, PartialEq, Eq, Hash, Structural)]
pub enum ClientRole {
    /// Reads, and changes nothing.
    ReadOnly,
    /// Works with panes.
    ReadWrite,
    /// Also kills, renames and installs.
    Admin,
}

impl Default for ClientRole {
    fn default() -> (role: ClientRole)
        ensures
            role == ClientRole::ReadWrite,
    {
        ClientRole::ReadWrite
    }
}

/// How a client attaches.
#[derive(Clone, Copy, Debug, PartialEq, Eq, Hash, Structural)]
pub enum AttachMode {
    /// Beside other clients.
    Shared,
    /// In place of the other clients.
    Steal,
    /// Beside other clients, to read only.
    ReadOnly,
}

/// A client that is attached to a session.
#[derive(Debug)]
pub struct AttachedClient {
    pub client_id: String,
    pub mode: AttachMode,
    pub window_id: Option<String>,
    pub role: ClientRole,
}

/// The scroll position that the windows of a session share.
#[derive(Debug)]
pub struct SyncScrollbackState {
    pub pane_id: Option<String>,
    pub scroll_offset: u32,
    pub enabled: bool,
}

impl Default for SyncScrollbackState {
    fn default() -> (state: SyncScrollbackState)
        ensures
            state.pane_id is None,
            state.scroll_offset == 0,
            !state.enabled,
    {
        SyncScrollbackState { pane_id: None, scroll_offset: 0, enabled: false }
    }
}

/// What a session records of one of its panes.
#[derive(Debug)]
pub struct PaneRecord {
    pub id: String,
    pub cwd: String,
    pub title: String,
    pub command: Option<String>,
    pub cols: u32,
    pub rows: u32,
    pub generation: u64,
    pub is_alive: bool,
    pub zoomed: bool,
}

/// A session.
#[derive(Debug)]
pub struct Session {
    pub id: String,
    pub name: String,
    pub cwd: String,
    /// Milliseconds since the Unix epoch.
    pub created_timestamp: u64,
    pub tabs: Vec<Tab>,
    pub layout: LayoutTree,
    pub focused_pane: Option<String>,
    pub focused_tab: Option<String>,
    pub attached_clients: Vec<AttachedClient>,
    pub panes: Vec<PaneRecord>,
    pub sync_scrollback: SyncScrollbackState,
    pub connected_windows: Vec<String>,
    /// The clients that get lifecycle notifications.
    pub lifecycle_subscribers: Vec<String>,
}

pub struct TabModel {
    pub id: Seq<char>,
    pub title: Seq<char>,
    pub pane_ids: Seq<Seq<char>>,
}

pub struct ClientModel {
    pub client_id: Seq<char>,
    pub mode: AttachMode,
    pub window_id: Option<Seq<char>>,
    pub role: ClientRole,
}

pub struct PaneModel {
    pub id: Seq<char>,
    pub cwd: Seq<char>,
    pub title: Seq<char>,
    pub command: Option<Seq<char>>,
    pub cols: u32,
    pub rows: u32,
    pub generation: u64,
    pub is_alive: bool,
    pub zoomed: bool,
}

pub struct SyncModel {
    pub pane_id: Option<Seq<char>>,
    pub scroll_offset: u32,
    pub enabled: bool,
}

/// The mathematical value of a session.
pub struct SessionModel {
    pub id: Seq<char>,
    pub name: Seq<char>,
    pub cwd: Seq<char>,
    pub created_timestamp: u64,
    pub tabs: Seq<TabModel>,
    pub layout: NodeModel,
    pub focused_pane: Option<Seq<char>>,
    pub focused_tab: Option<Seq<char>>,
    pub clients: Seq<ClientModel>,
    pub panes: Seq<PaneModel>,
    pub sync: SyncModel,
    pub windows: Seq<Seq<char>>,
    pub subscribers: Seq<Seq<char>>,
}

impl View for Tab {
    type V = TabModel;

    open spec fn view(&self) -> TabModel {
        TabModel { id: self.id@, title: self.title@, pane_ids: text::texts(self.pane_ids@) }
    }
}

impl View for AttachedClient {
    type V = ClientModel;

    open spec fn view(&self) -> ClientModel {
        ClientModel {
            client_id: self.client_id@,
            mode: self.mode,
            window_id: text::optional(self.window_id),
            role: self.role,
        }
    }
}

impl View for PaneRecord {
    type V = PaneModel;

    open spec fn view(&self) -> PaneModel {
        PaneModel {
            id: self.id@,
            cwd: self.cwd@,
            title: self.title@,
            command: text::optional(self.command),
            cols: self.cols,
            rows: self.rows,
            generation: self.generation,
            is_alive: self.is_alive,
            zoomed: self.zoomed,
        }
    }
}

impl View for SyncScrollbackState {
    type V = SyncModel;

    open spec fn view(&self) -> SyncModel {
        SyncModel {
            pane_id: text::optional(self.pane_id),
            scroll_offset: self.scroll_offset,
            enabled: self.enabled,
        }
    }
}

pub open spec fn tab_models(tabs: Seq<Tab>) -> Seq<TabModel> {
    tabs.map_values(|t: Tab| t@)
}

pub open spec fn client_models(clients: Seq<AttachedClient>) -> Seq<ClientModel> {
    clients.map_values(|c: AttachedClient| c@)
}

pub open spec fn pane_models(panes: Seq<PaneRecord>) -> Seq<PaneModel> {
    panes.map_values(|p: PaneRecord| p@)
}

impl View for Session {
    type V = SessionModel;

    open spec fn view(&self) -> SessionModel {
        SessionModel {
            id: self.id@,
            name: self.name@,
            cwd: self.cwd@,
            created_timestamp: self.created_timestamp,
            tabs: tab_models(self.tabs@),
            layout: self.layout@,
            focused_pane: text::optional(self.focused_pane),
            focused_tab: text::optional(self.focused_tab),
            clients: client_models(self.attached_clients@),
            panes: pane_models(self.panes@),
            sync: self.sync_scrollback@,
            windows: text::texts(self.connected_windows@),
            subscribers: text::texts(self.lifecycle_subscribers@),
        }
    }
}

/// The identifiers of panes.
pub open spec fn pane_keys(panes: Seq<PaneModel>) -> Seq<Seq<char>> {
    panes.map_values(|p: PaneModel| p.id)
}

/// The identifiers of tabs.
pub open spec fn tab_keys(tabs: Seq<TabModel>) -> Seq<Seq<char>> {
    tabs.map_values(|t: TabModel| t.id)
}

impl SessionModel {
    pub open spec fn has_pane(self, pane: Seq<char>) -> bool {
        pane_keys(self.panes).contains(pane)
    }

    /// No tab, pane, window or subscriber is recorded twice.
    pub open spec fn wf(self) -> bool {
        &&& tab_keys(self.tabs).no_duplicates()
        &&& pane_keys(self.panes).no_duplicates()
        &&& self.windows.no_duplicates()
        &&& self.subscribers.no_duplicates()
    }
}

/// The panes without the one of an identifier.
pub open spec fn panes_without(panes: Seq<PaneModel>, pane: Seq<char>) -> Seq<PaneModel>
    decreases panes.len(),
{
    if panes.len() == 0 {
        Seq::empty()
    } else if panes.last().id == pane {
        panes_without(panes.drop_last(), pane)
    } else {
        panes_without(panes.drop_last(), pane).push(panes.last())
    }
}

/// The tabs, none of which lists a pane any longer.
pub open spec fn tabs_without_pane(tabs: Seq<TabModel>, pane: Seq<char>) -> Seq<TabModel> {
    tabs.map_values(
        |t: TabModel|
            TabModel { id: t.id, title: t.title, pane_ids: text::without(t.pane_ids, pane) },
    )
}

/// The first tab that lists a pane.
pub open spec fn tab_of_pane(tabs: Seq<TabModel>, pane: Seq<char>) -> Option<Seq<char>>
    decreases tabs.len(),
{
    if tabs.len() == 0 {
        None
    } else {
        match tab_of_pane(tabs.drop_last(), pane) {
            Some(id) => Some(id),
            None => if tabs.last().pane_ids.contains(pane) {
                Some(tabs.last().id)
            } else {
                None
            },
        }
    }
}

/// The first of the panes shown that the session has.
pub open spec fn first_live(shown: Seq<Seq<char>>, panes: Seq<PaneModel>) -> Option<Seq<char>>
    decreases shown.len(),
{
    if shown.len() == 0 {
        None
    } else {
        match first_live(shown.drop_last(), panes) {
            Some(id) => Some(id),
            None => if shown.last().len() > 0 && pane_keys(panes).contains(shown.last()) {
                Some(shown.last())
            } else {
                None
            },
        }
    }
}

/// The layout after a pane went: the placeholder where it was the only one,
/// the tree without it where it was shown.
pub open spec fn layout_without(layout: NodeModel, pane: Seq<char>, max_wire: int) -> Result<
    NodeModel,
    LayoutError,
> {
    let shown = layout_model::pane_ids(layout);
    if shown.len() == 1 && shown[0] == pane {
        Ok(layout::empty_model())
    } else if shown.contains(pane) {
        layout_model::remove_result(layout, pane, max_wire)
    } else {
        Ok(layout)
    }
}

/// The focused pane after panes went: the old one while it lives, else the
/// first pane shown that does.
pub open spec fn focus_after(
    focused: Option<Seq<char>>,
    layout: NodeModel,
    panes: Seq<PaneModel>,
) -> Option<Seq<char>> {
    if focused is Some && pane_keys(panes).contains(focused->0) {
        focused
    } else {
        first_live(layout_model::pane_ids(layout), panes)
    }
}

/// A session after a pane went, given the layout after that.
pub open spec fn session_without(s: SessionModel, pane: Seq<char>, layout: NodeModel) -> SessionModel {
    let panes = panes_without(s.panes, pane);
    let tabs = tabs_without_pane(s.tabs, pane);
    let focused = focus_after(s.focused_pane, layout, panes);
    SessionModel {
        layout,
        panes,
        tabs,
        focused_pane: focused,
        focused_tab: match focused {
            Some(pane_id) => tab_of_pane(tabs, pane_id),
            None => None,
        },
        ..s
    }
}

/// The clients without those of an identifier.
pub open spec fn clients_without(clients: Seq<ClientModel>, client: Seq<char>) -> Seq<ClientModel>
    decreases clients.len(),
{
    if clients.len() == 0 {
        Seq::empty()
    } else if clients.last().client_id == client {
        clients_without(clients.drop_last(), client)
    } else {
        clients_without(clients.drop_last(), client).push(clients.last())
    }
}

/// Whether a client is attached.
pub open spec fn has_client(clients: Seq<ClientModel>, client: Seq<char>) -> bool {
    exists|i: int| 0 <= i < clients.len() && (#[trigger] clients[i]).client_id == client
}

/// The window that the first client of an identifier has claimed.
pub open spec fn claimed_window(clients: Seq<ClientModel>, client: Seq<char>) -> Option<Seq<char>>
    decreases clients.len(),
{
    if clients.len() == 0 {
        None
    } else if has_client(clients.drop_last(), client) {
        claimed_window(clients.drop_last(), client)
    } else if clients.last().client_id == client {
        clients.last().window_id
    } else {
        None
    }
}

/// Whether a client has claimed a window.
pub open spec fn is_claimed(clients: Seq<ClientModel>, window: Seq<char>) -> bool {
    exists|i: int| 0 <= i < clients.len() && (#[trigger] clients[i]).window_id == Some(window)
}

/// A list with a text added, where it is not there yet.
pub open spec fn with_text(list: Seq<Seq<char>>, added: Seq<char>) -> Seq<Seq<char>> {
    if list.contains(added) {
        list
    } else {
        list.push(added)
    }
}

proof fn lemma_with_text_no_duplicates(list: Seq<Seq<char>>, added: Seq<char>)
    requires
        list.no_duplicates(),
    ensures
        with_text(list, added).no_duplicates(),
{
    if !list.contains(added) {
        layout_model::lemma_fresh_push(list, added);
    }
}

/// The tabs with one added, or replaced where its identifier is there.
pub open spec fn with_tab(tabs: Seq<TabModel>, tab: TabModel) -> Seq<TabModel> {
    if tab_keys(tabs).contains(tab.id) {
        tabs.map_values(
            |t: TabModel|
                if t.id == tab.id {
                    tab
                } else {
                    t
                },
        )
    } else {
        tabs.push(tab)
    }
}

/// A copy of a tab.
pub fn copy_tab(tab: &Tab) -> (copy: Tab)
    ensures
        copy@ == tab@,
{
    Tab { id: tab.id.clone(), title: tab.title.clone(), pane_ids: copy_texts(&tab.pane_ids) }
}

/// A copy of a client.
pub fn copy_client(client: &AttachedClient) -> (copy: AttachedClient)
    ensures
        copy@ == client@,
{
    AttachedClient {
        client_id: client.client_id.clone(),
        mode: client.mode,
        window_id: copy_optional(&client.window_id),
        role: client.role,
    }
}

/// A copy of a pane record.
pub fn copy_pane(pane: &PaneRecord) -> (copy: PaneRecord)
    ensures
        copy@ == pane@,
{
    PaneRecord {
        id: pane.id.clone(),
        cwd: pane.cwd.clone(),
        title: pane.title.clone(),
        command: copy_optional(&pane.command),
        cols: pane.cols,
        rows: pane.rows,
        generation: pane.generation,
        is_alive: pane.is_alive,
        zoomed: pane.zoomed,
    }
}

/// The position of the first pane of an identifier; their number where there
/// is none.
pub fn position_of_pane(panes: &Vec<PaneRecord>, pane_id: &str) -> (index: usize)
    ensures
        index <= panes.len(),
        index < panes.len() <==> pane_keys(pane_models(panes@)).contains(pane_id@),
        index < panes.len() ==> panes@[index as int].id@ == pane_id@,
        forall|j: int| 0 <= j < index ==> (#[trigger] panes@[j]).id@ != pane_id@,
{
    let ghost keys = pane_keys(pane_models(panes@));
    let mut i: usize = 0;
    while i < panes.len()
        invariant
            i <= panes.len(),
            keys == pane_keys(pane_models(panes@)),
            forall|j: int| 0 <= j < i ==> (#[trigger] panes@[j]).id@ != pane_id@,
        decreases panes.len() - i,
    {
        if same_text(panes[i].id.as_str(), pane_id) {
            assert(keys[i as int] == pane_id@);
            return i;
        }
        i = i + 1;
    }
    proof {
        if keys.contains(pane_id@) {
            let k = choose|k: int| 0 <= k < keys.len() && keys[k] == pane_id@;
            assert(panes@[k].id@ == pane_id@);
        }
    }
    i
}

/// The position of the first tab of an identifier; their number where there
/// is none.
pub fn position_of_tab(tabs: &Vec<Tab>, tab_id: &str) -> (index: usize)
    ensures
        index <= tabs.len(),
        index < tabs.len() <==> tab_keys(tab_models(tabs@)).contains(tab_id@),
        index < tabs.len() ==> tabs@[index as int].id@ == tab_id@,
        forall|j: int| 0 <= j < index ==> (#[trigger] tabs@[j]).id@ != tab_id@,
{
    let ghost keys = tab_keys(tab_models(tabs@));
    let mut i: usize = 0;
    while i < tabs.len()
        invariant
            i <= tabs.len(),
            keys == tab_keys(tab_models(tabs@)),
            forall|j: int| 0 <= j < i ==> (#[trigger] tabs@[j]).id@ != tab_id@,
        decreases tabs.len() - i,
    {
        if same_text(tabs[i].id.as_str(), tab_id) {
            assert(keys[i as int] == tab_id@);
            return i;
        }
        i = i + 1;
    }
    proof {
        if keys.contains(tab_id@) {
            let k = choose|k: int| 0 <= k < keys.len() && keys[k] == tab_id@;
            assert(tabs@[k].id@ == tab_id@);
        }
    }
    i
}

/// Putting a tab among others leaves each identifier there once.
pub proof fn lemma_with_tab(tabs: Seq<TabModel>, tab: TabModel)
    ensures
        tab_keys(tabs).no_duplicates() ==> tab_keys(with_tab(tabs, tab)).no_duplicates(),
{
    if tab_keys(tabs).contains(tab.id) {
        assert(tab_keys(with_tab(tabs, tab)) =~= tab_keys(tabs));
    } else {
        assert(tab_keys(with_tab(tabs, tab)) =~= tab_keys(tabs).push(tab.id));
        if tab_keys(tabs).no_duplicates() {
            layout_model::lemma_fresh_push(tab_keys(tabs), tab.id);
        }
    }
}

/// Puts a tab among others, in place of one that has its identifier.
pub fn put_tab(tabs: &mut Vec<Tab>, tab: Tab)
    ensures
        tab_models(final(tabs)@) == with_tab(tab_models(old(tabs)@), tab@),
{
    let ghost before = tab_models(tabs@);
    if position_of_tab(tabs, tab.id.as_str()) < tabs.len() {
        let mut i: usize = 0;
        while i < tabs.len()
            invariant
                i <= tabs.len(),
                tabs.len() == before.len(),
                tab_keys(before).contains(tab@.id),
                forall|j: int|
                    0 <= j < i ==> (#[trigger] tabs@[j])@ == with_tab(before, tab@)[j],
                forall|j: int| i <= j < tabs.len() ==> (#[trigger] tabs@[j])@ == before[j],
            decreases tabs.len() - i,
        {
            if same_text(tabs[i].id.as_str(), tab.id.as_str()) {
                let copy = copy_tab(&tab);
                tabs.set(i, copy);
            }
            i = i + 1;
        }
        proof {
            assert(tab_models(tabs@) =~= with_tab(before, tab@));
        }
    } else {
        tabs.push(tab);
        proof {
            assert(tab_models(tabs@) =~= before.push(tab@));
        }
    }
}

fn panes_left(panes: &Vec<PaneRecord>, pane_id: &str) -> (left: Vec<PaneRecord>)
    ensures
        pane_models(left@) == panes_without(pane_models(panes@), pane_id@),
{
    let ghost all = pane_models(panes@);
    let mut left: Vec<PaneRecord> = Vec::new();
    let mut i: usize = 0;
    proof {
        assert(pane_models(left@) =~= panes_without(all.take(0), pane_id@));
    }
    while i < panes.len()
        invariant
            i <= panes.len(),
            all == pane_models(panes@),
            pane_models(left@) == panes_without(all.take(i as int), pane_id@),
        decreases panes.len() - i,
    {
        let ghost before = left@;
        proof {
            assert(all.take(i + 1).drop_last() =~= all.take(i as int));
            assert(all.take(i + 1).last() == panes@[i as int]@);
        }
        if !same_text(panes[i].id.as_str(), pane_id) {
            let copy = copy_pane(&panes[i]);
            left.push(copy);
            proof {
                assert(pane_models(left@) =~= pane_models(before).push(copy@));
            }
        }
        i = i + 1;
    }
    proof {
        assert(all.take(panes.len() as int) =~= all);
    }
    left
}

fn tabs_left(tabs: &Vec<Tab>, pane_id: &str) -> (left: Vec<Tab>)
    ensures
        tab_models(left@) == tabs_without_pane(tab_models(tabs@), pane_id@),
{
    let ghost all = tabs_without_pane(tab_models(tabs@), pane_id@);
    let mut left: Vec<Tab> = Vec::new();
    let mut i: usize = 0;
    while i < tabs.len()
        invariant
            i <= tabs.len(),
            left.len() == i,
            all == tabs_without_pane(tab_models(tabs@), pane_id@),
            forall|j: int| 0 <= j < i ==> (#[trigger] left@[j])@ == all[j],
        decreases tabs.len() - i,
    {
        let mut copy = copy_tab(&tabs[i]);
        remove_text(&mut copy.pane_ids, pane_id);
        left.push(copy);
        i = i + 1;
    }
    proof {
        assert(tab_models(left@) =~= all);
    }
    left
}

/// The first tab that lists a pane.
pub fn find_tab_of_pane(tabs: &Vec<Tab>, pane_id: &str) -> (found: Option<String>)
    ensures
        text::optional(found) == tab_of_pane(tab_models(tabs@), pane_id@),
{
    let ghost all = tab_models(tabs@);
    let mut i: usize = 0;
    while i < tabs.len()
        invariant
            i <= tabs.len(),
            all == tab_models(tabs@),
            tab_of_pane(all.take(i as int), pane_id@) is None,
        decreases tabs.len() - i,
    {
        proof {
            assert(all.take(i + 1).drop_last() =~= all.take(i as int));
            assert(all.take(i + 1).last() == tabs@[i as int]@);
        }
        if contains_text(&tabs[i].pane_ids, pane_id) {
            proof {
                lemma_tab_of_pane_prefix(all, i + 1, pane_id@);
            }
            return Some(tabs[i].id.clone());
        }
        i = i + 1;
    }
    proof {
        assert(all.take(tabs.len() as int) =~= all);
    }
    None
}

proof fn lemma_tab_of_pane_prefix(tabs: Seq<TabModel>, k: int, pane: Seq<char>)
    requires
        0 <= k <= tabs.len(),
        tab_of_pane(tabs.take(k), pane) is Some,
    ensures
        tab_of_pane(tabs, pane) == tab_of_pane(tabs.take(k), pane),
    decreases tabs.len(),
{
    if k == tabs.len() {
        assert(tabs.take(k) =~= tabs);
    } else {
        assert(tabs.drop_last().take(k) =~= tabs.take(k));
        lemma_tab_of_pane_prefix(tabs.drop_last(), k, pane);
    }
}

fn find_first_live(shown: &Vec<String>, panes: &Vec<PaneRecord>) -> (found: Option<String>)
    ensures
        text::optional(found) == first_live(text::texts(shown@), pane_models(panes@)),
{
    let ghost all = text::texts(shown@);
    let mut i: usize = 0;
    while i < shown.len()
        invariant
            i <= shown.len(),
            all == text::texts(shown@),
            first_live(all.take(i as int), pane_models(panes@)) is None,
        decreases shown.len() - i,
    {
        proof {
            assert(all.take(i + 1).drop_last() =~= all.take(i as int));
            assert(all.take(i + 1).last() == shown@[i as int]@);
        }
        if !shown[i].as_str().is_empty() && position_of_pane(panes, shown[i].as_str()) < panes.len() {
            proof {
                lemma_first_live_prefix(all, i + 1, pane_models(panes@));
            }
            return Some(shown[i].clone());
        }
        i = i + 1;
    }
    proof {
        assert(all.take(shown.len() as int) =~= all);
    }
    None
}

proof fn lemma_first_live_prefix(shown: Seq<Seq<char>>, k: int, panes: Seq<PaneModel>)
    requires
        0 <= k <= shown.len(),
        first_live(shown.take(k), panes) is Some,
    ensures
        first_live(shown, panes) == first_live(shown.take(k), panes),
    decreases shown.len(),
{
    if k == shown.len() {
        assert(shown.take(k) =~= shown);
    } else {
        assert(shown.drop_last().take(k) =~= shown.take(k));
        lemma_first_live_prefix(shown.drop_last(), k, panes);
    }
}

/// Whether a client of an identifier is attached.
pub fn is_attached(clients: &Vec<AttachedClient>, client_id: &str) -> (yes: bool)
    ensures
        yes == has_client(client_models(clients@), client_id@),
{
    let mut i: usize = 0;
    while i < clients.len()
        invariant
            i <= clients.len(),
            forall|j: int| 0 <= j < i ==> (#[trigger] clients@[j]).client_id@ != client_id@,
        decreases clients.len() - i,
    {
        if same_text(clients[i].client_id.as_str(), client_id) {
            assert(client_models(clients@)[i as int].client_id == client_id@);
            return true;
        }
        i = i + 1;
    }
    proof {
        if has_client(client_models(clients@), client_id@) {
            let k = choose|k: int|
                0 <= k < clients.len() && (#[trigger] client_models(clients@)[k]).client_id
                    == client_id@;
            assert(clients@[k].client_id@ == client_id@);
        }
    }
    false
}

/// What is left of a list without some texts.
pub open spec fn without_all(list: Seq<Seq<char>>, gone: Seq<Seq<char>>) -> Seq<Seq<char>>
    decreases gone.len(),
{
    if gone.len() == 0 {
        list
    } else {
        text::without(without_all(list, gone.drop_last()), gone.last())
    }
}

impl Session {
    /// A session without tabs, panes or clients.
    pub fn new(id: String, name: String, cwd: String, created_timestamp: u64) -> (session: Session)
        ensures
            session@ == (SessionModel {
                id: id@,
                name: name@,
                cwd: cwd@,
                created_timestamp,
                tabs: Seq::empty(),
                layout: layout::empty_model(),
                focused_pane: None,
                focused_tab: None,
                clients: Seq::empty(),
                panes: Seq::empty(),
                sync: SyncModel { pane_id: None, scroll_offset: 0, enabled: false },
                windows: Seq::empty(),
                subscribers: Seq::empty(),
            }),
            session@.wf(),
    {
        let session = Session {
            id,
            name,
            cwd,
            created_timestamp,
            tabs: Vec::new(),
            layout: LayoutTree::empty(),
            focused_pane: None,
            focused_tab: None,
            attached_clients: Vec::new(),
            panes: Vec::new(),
            sync_scrollback: SyncScrollbackState {
                pane_id: None,
                scroll_offset: 0,
                enabled: false,
            },
            connected_windows: Vec::new(),
            lifecycle_subscribers: Vec::new(),
        };
        proof {
            assert(session@.tabs =~= Seq::<TabModel>::empty());
            assert(session@.clients =~= Seq::<ClientModel>::empty());
            assert(session@.panes =~= Seq::<PaneModel>::empty());
            assert(session@.windows =~= Seq::<Seq<char>>::empty());
            assert(session@.subscribers =~= Seq::<Seq<char>>::empty());
        }
        session
    }

    /// Adds a tab without panes; one of the same identifier gives way.
    pub fn add_tab(&mut self, id: String, title: String)
        ensures
            final(self)@ == (SessionModel {
                tabs: with_tab(
                    old(self)@.tabs,
                    TabModel { id: id@, title: title@, pane_ids: Seq::empty() },
                ),
                ..old(self)@
            }),
            old(self)@.wf() ==> final(self)@.wf(),
    {
        let ghost before = self.tabs@;
        let tab = Tab { id, title, pane_ids: Vec::new() };
        proof {
            assert(text::texts(tab.pane_ids@) =~= Seq::<Seq<char>>::empty());
            lemma_with_tab(tab_models(before), tab@);
        }
        put_tab(&mut self.tabs, tab);
    }

    /// The focused pane.
    pub fn get_focused_pane(&self) -> (focused: Option<&str>)
        ensures
            match focused {
                Some(pane) => self@.focused_pane == Some(pane@),
                None => self@.focused_pane is None,
            },
    {
        match &self.focused_pane {
            Some(pane) => Some(pane.as_str()),
            None => None,
        }
    }

    /// Focuses a pane.
    pub fn set_focused_pane(&mut self, pane_id: String)
        ensures
            final(self)@ == (SessionModel { focused_pane: Some(pane_id@), ..old(self)@ }),
    {
        self.focused_pane = Some(pane_id);
    }

    /// Whether the session has a pane.
    pub fn has_pane(&self, pane_id: &str) -> (yes: bool)
        ensures
            yes == self@.has_pane(pane_id@),
    {
        position_of_pane(&self.panes, pane_id) < self.panes.len()
    }

    /// Takes a pane out of the session: out of the panes, the layout and the
    /// tabs; the focus moves on where it was there. Says whether the session
    /// had the pane; the session is left as it was where that fails.
    pub fn remove_pane(&mut self, pane_id: &str, max_wire: usize) -> (result: Result<
        bool,
        LayoutError,
    >)
        ensures
            match result {
                Ok(had) => had == old(self)@.has_pane(pane_id@) && if had {
                    layout_without(old(self)@.layout, pane_id@, max_wire as int) is Ok
                        && final(self)@ == session_without(
                        old(self)@,
                        pane_id@,
                        layout_without(old(self)@.layout, pane_id@, max_wire as int)->Ok_0,
                    )
                } else {
                    final(self)@ == old(self)@
                },
                Err(e) => old(self)@.has_pane(pane_id@) && layout_without(
                    old(self)@.layout,
                    pane_id@,
                    max_wire as int,
                ) == Err::<NodeModel, LayoutError>(e) && final(self)@ == old(self)@,
            },
    {
        if !self.has_pane(pane_id) {
            return Ok(false);
        }
        let shown: Vec<String> = self.layout.pane_ids();
        proof {
            assert(text::texts(shown@).len() == shown@.len());
            if shown.len() == 1 {
                assert(text::texts(shown@)[0] == shown@[0]@);
            }
        }
        if shown.len() == 1 && same_text(shown[0].as_str(), pane_id) {
            self.layout = LayoutTree::empty();
        } else if contains_text(&shown, pane_id) {
            match self.layout.remove_pane(pane_id, max_wire) {
                Ok(_) => {},
                Err(e) => {
                    return Err(e);
                },
            }
        }
        self.panes = panes_left(&self.panes, pane_id);
        self.tabs = tabs_left(&self.tabs, pane_id);
        let valid: bool = match &self.focused_pane {
            Some(focused) => position_of_pane(&self.panes, focused.as_str()) < self.panes.len(),
            None => false,
        };
        if !valid {
            let left: Vec<String> = self.layout.pane_ids();
            self.focused_pane = find_first_live(&left, &self.panes);
        }
        self.focused_tab = match &self.focused_pane {
            Some(focused) => find_tab_of_pane(&self.tabs, focused.as_str()),
            None => None,
        };
        Ok(true)
    }

    /// Attaches a client.
    pub fn add_attached_client(
        &mut self,
        client_id: String,
        mode: AttachMode,
        role: ClientRole,
        window_id: Option<String>,
    )
        ensures
            final(self)@ == (SessionModel {
                clients: old(self)@.clients.push(
                    ClientModel {
                        client_id: client_id@,
                        mode,
                        window_id: text::optional(window_id),
                        role,
                    },
                ),
                ..old(self)@
            }),
    {
        let ghost before = self.attached_clients@;
        let client = AttachedClient { client_id, mode, window_id, role };
        self.attached_clients.push(client);
        proof {
            assert(client_models(self.attached_clients@) =~= client_models(before).push(client@));
        }
    }

    /// Detaches a client and says which window it had claimed.
    pub fn remove_attached_client(&mut self, client_id: &str) -> (window: Option<String>)
        ensures
            text::optional(window) == claimed_window(old(self)@.clients, client_id@),
            final(self)@ == (SessionModel {
                clients: clients_without(old(self)@.clients, client_id@),
                ..old(self)@
            }),
    {
        let ghost all = client_models(self.attached_clients@);
        let mut left: Vec<AttachedClient> = Vec::new();
        let mut found: bool = false;
        let mut window: Option<String> = None;
        let mut i: usize = 0;
        proof {
            assert(client_models(left@) =~= clients_without(all.take(0), client_id@));
        }
        while i < self.attached_clients.len()
            invariant
                i <= self.attached_clients.len(),
                *self == *old(self),
                all == client_models(self.attached_clients@),
                client_models(left@) == clients_without(all.take(i as int), client_id@),
                found == has_client(all.take(i as int), client_id@),
                text::optional(window) == claimed_window(all.take(i as int), client_id@),
            decreases self.attached_clients.len() - i,
        {
            let ghost before = left@;
            let ghost head = all.take(i as int);
            let ghost next = all.take(i + 1);
            proof {
                assert(next.drop_last() =~= head);
                assert(next.last() == self.attached_clients@[i as int]@);
                lemma_has_client_last(next, client_id@);
            }
            if same_text(self.attached_clients[i].client_id.as_str(), client_id) {
                if !found {
                    window = copy_optional(&self.attached_clients[i].window_id);
                    found = true;
                }
            } else {
                proof {
                    lemma_claimed_window_none(head, client_id@);
                }
                let copy = copy_client(&self.attached_clients[i]);
                left.push(copy);
                proof {
                    assert(client_models(left@) =~= client_models(before).push(copy@));
                }
            }
            i = i + 1;
        }
        proof {
            assert(all.take(self.attached_clients.len() as int) =~= all);
        }
        self.attached_clients = left;
        window
    }

    /// Subscribes a client to lifecycle notifications.
    pub fn add_lifecycle_subscriber(&mut self, client_id: String)
        ensures
            final(self)@ == (SessionModel {
                subscribers: with_text(old(self)@.subscribers, client_id@),
                ..old(self)@
            }),
            old(self)@.wf() ==> final(self)@.wf(),
    {
        proof {
            if self@.wf() {
                lemma_with_text_no_duplicates(self@.subscribers, client_id@);
            }
        }
        if !contains_text(&self.lifecycle_subscribers, client_id.as_str()) {
            let ghost before = self.lifecycle_subscribers@;
            self.lifecycle_subscribers.push(client_id);
            proof {
                text::lemma_texts_push(before, client_id);
            }
        }
    }

    /// Ends a client's subscription to lifecycle notifications.
    pub fn remove_lifecycle_subscriber(&mut self, client_id: &str)
        ensures
            final(self)@ == (SessionModel {
                subscribers: text::without(old(self)@.subscribers, client_id@),
                ..old(self)@
            }),
            old(self)@.wf() ==> final(self)@.wf(),
    {
        proof {
            if self@.wf() {
                text::lemma_without_no_duplicates(self@.subscribers, client_id@);
            }
        }
        remove_text(&mut self.lifecycle_subscribers, client_id);
    }

    /// Ends the subscriptions of clients that could not be reached.
    pub fn drop_lifecycle_subscribers(&mut self, gone: &Vec<String>)
        ensures
            final(self)@ == (SessionModel {
                subscribers: without_all(old(self)@.subscribers, text::texts(gone@)),
                ..old(self)@
            }),
            old(self)@.wf() ==> final(self)@.wf(),
    {
        let ghost before = self@;
        let ghost all = text::texts(gone@);
        let mut i: usize = 0;
        assert(all.take(0) =~= Seq::<Seq<char>>::empty());
        while i < gone.len()
            invariant
                i <= gone.len(),
                all == text::texts(gone@),
                self@ == (SessionModel {
                    subscribers: without_all(before.subscribers, all.take(i as int)),
                    ..before
                }),
                before.wf() ==> self@.wf(),
            decreases gone.len() - i,
        {
            proof {
                assert(all.take(i + 1).drop_last() =~= all.take(i as int));
                assert(all.take(i + 1).last() == gone@[i as int]@);
            }
            self.remove_lifecycle_subscriber(gone[i].as_str());
            i = i + 1;
        }
        assert(all.take(i as int) =~= all);
    }

    /// Ends all subscriptions and says whose they were.
    pub fn clear_lifecycle_subscribers(&mut self) -> (kicked: Vec<String>)
        ensures
            text::texts(kicked@) == old(self)@.subscribers,
            final(self)@ == (SessionModel { subscribers: Seq::empty(), ..old(self)@ }),
    {
        let kicked: Vec<String> = copy_texts(&self.lifecycle_subscribers);
        self.lifecycle_subscribers = Vec::new();
        proof {
            assert(text::texts(self.lifecycle_subscribers@) =~= Seq::<Seq<char>>::empty());
        }
        kicked
    }

    /// How many clients are attached.
    pub fn attached_client_count(&self) -> (count: u32)
        ensures
            count == self@.clients.len() as u32,
    {
        self.attached_clients.len() as u32
    }

    /// Whether the session has no pane.
    pub fn is_empty(&self) -> (yes: bool)
        ensures
            yes == (self@.panes.len() == 0),
    {
        self.panes.len() == 0
    }

    /// Shares a scroll position between the windows.
    pub fn set_sync_scrollback_offset(&mut self, pane_id: String, offset: u32)
        ensures
            final(self)@ == (SessionModel {
                sync: SyncModel {
                    pane_id: Some(pane_id@),
                    scroll_offset: offset,
                    enabled: true,
                },
                ..old(self)@
            }),
    {
        self.sync_scrollback =
        SyncScrollbackState { pane_id: Some(pane_id), scroll_offset: offset, enabled: true };
    }

    /// The shared scroll position.
    pub fn get_sync_scrollback(&self) -> (state: SyncScrollbackState)
        ensures
            state@ == self@.sync,
    {
        SyncScrollbackState {
            pane_id: copy_optional(&self.sync_scrollback.pane_id),
            scroll_offset: self.sync_scrollback.scroll_offset,
            enabled: self.sync_scrollback.enabled,
        }
    }

    /// Stops sharing a scroll position.
    pub fn disable_sync_scrollback(&mut self)
        ensures
            final(self)@ == (SessionModel {
                sync: SyncModel { pane_id: None, scroll_offset: 0, enabled: false },
                ..old(self)@
            }),
    {
        self.sync_scrollback =
        SyncScrollbackState { pane_id: None, scroll_offset: 0, enabled: false };
    }

    /// Connects a window; says whether it was not connected before.
    pub fn add_window(&mut self, window_id: String) -> (added: bool)
        ensures
            added == !old(self)@.windows.contains(window_id@),
            final(self)@ == (SessionModel {
                windows: with_text(old(self)@.windows, window_id@),
                ..old(self)@
            }),
            old(self)@.wf() ==> final(self)@.wf(),
    {
        proof {
            if self@.wf() {
                lemma_with_text_no_duplicates(self@.windows, window_id@);
            }
        }
        if contains_text(&self.connected_windows, window_id.as_str()) {
            return false;
        }
        let ghost before = self.connected_windows@;
        self.connected_windows.push(window_id);
        proof {
            text::lemma_texts_push(before, window_id);
        }
        true
    }

    /// Disconnects a window.
    pub fn remove_window(&mut self, window_id: &str)
        ensures
            final(self)@ == (SessionModel {
                windows: text::without(old(self)@.windows, window_id@),
                ..old(self)@
            }),
            old(self)@.wf() ==> final(self)@.wf(),
    {
        proof {
            if self@.wf() {
                text::lemma_without_no_duplicates(self@.windows, window_id@);
            }
        }
        remove_text(&mut self.connected_windows, window_id);
    }

    /// Disconnects a window that no attached client claims any longer; says
    /// whether it left.
    pub fn release_window(&mut self, window_id: &str) -> (left: bool)
        ensures
            left == (!is_claimed(old(self)@.clients, window_id@) && old(self)@.windows.contains(
                window_id@,
            )),
            final(self)@ == if is_claimed(old(self)@.clients, window_id@) {
                old(self)@
            } else {
                SessionModel { windows: text::without(old(self)@.windows, window_id@), ..old(self)@ }
            },
            old(self)@.wf() ==> final(self)@.wf(),
    {
        let mut i: usize = 0;
        while i < self.attached_clients.len()
            invariant
                i <= self.attached_clients.len(),
                *self == *old(self),
                forall|j: int|
                    0 <= j < i ==> (#[trigger] self@.clients[j]).window_id != Some(window_id@),
            decreases self.attached_clients.len() - i,
        {
            proof {
                assert(self@.clients[i as int] == self.attached_clients@[i as int]@);
            }
            if let Some(claimed) = &self.attached_clients[i].window_id {
                if same_text(claimed.as_str(), window_id) {
                    assert(self@.clients[i as int].window_id == Some(window_id@));
                    return false;
                }
            }
            i = i + 1;
        }
        let ghost before = text::texts(self.connected_windows@);
        let count: usize = self.connected_windows.len();
        proof {
            if self@.wf() {
                text::lemma_without_no_duplicates(self@.windows, window_id@);
            }
            text::lemma_without(before, window_id@, window_id@);
            assert(before.len() == count);
        }
        remove_text(&mut self.connected_windows, window_id);
        proof {
            assert(text::texts(self.connected_windows@).len() == self.connected_windows@.len());
        }
        self.connected_windows.len() != count
    }

    /// The connected windows.
    pub fn get_windows(&self) -> (windows: Vec<String>)
        ensures
            text::texts(windows@) == self@.windows,
    {
        copy_texts(&self.connected_windows)
    }

    /// How many windows are connected.
    pub fn window_count(&self) -> (count: usize)
        ensures
            count == self@.windows.len(),
    {
        self.connected_windows.len()
    }

    /// Whether a window is connected.
    pub fn has_window(&self, window_id: &str) -> (yes: bool)
        ensures
            yes == self@.windows.contains(window_id@),
    {
        contains_text(&self.connected_windows, window_id)
    }
}

pub proof fn lemma_has_client_last(clients: Seq<ClientModel>, client: Seq<char>)
    requires
        clients.len() > 0,
    ensures
        has_client(clients, client) <==> has_client(clients.drop_last(), client)
            || clients.last().client_id == client,
{
    let init = clients.drop_last();
    if has_client(clients, client) {
        let k = choose|k: int| 0 <= k < clients.len() && (#[trigger] clients[k]).client_id == client;
        if k < init.len() {
            assert(init[k].client_id == client);
        }
    }
    if has_client(init, client) {
        let k = choose|k: int| 0 <= k < init.len() && (#[trigger] init[k]).client_id == client;
        assert(clients[k].client_id == client);
    }
    if clients.last().client_id == client {
        assert(clients[clients.len() - 1].client_id == client);
    }
}

proof fn lemma_claimed_window_none(clients: Seq<ClientModel>, client: Seq<char>)
    ensures
        !has_client(clients, client) ==> claimed_window(clients, client) is None,
    decreases clients.len(),
{
    if clients.len() > 0 {
        lemma_has_client_last(clients, client);
    }
}

/// The test for panes of any identifier but this one.
pub open spec fn other_pane(pane: Seq<char>) -> spec_fn(PaneModel) -> bool {
    |p: PaneModel| p.id != pane
}

/// The test for clients of any identifier but this one.
pub open spec fn other_client(client: Seq<char>) -> spec_fn(ClientModel) -> bool {
    |c: ClientModel| c.client_id != client
}

/// Taking a pane out leaves all others as they are, in their order.
pub proof fn law_other_panes_stay(panes: Seq<PaneModel>, pane: Seq<char>)
    ensures
        panes_without(panes, pane) == panes.filter(other_pane(pane)),
    decreases panes.len(),
{
    reveal(Seq::filter);
    if panes.len() > 0 {
        law_other_panes_stay(panes.drop_last(), pane);
    }
}

/// Taking a client out leaves all others as they are, in their order.
pub proof fn law_other_clients_stay(clients: Seq<ClientModel>, client: Seq<char>)
    ensures
        clients_without(clients, client) == clients.filter(other_client(client)),
    decreases clients.len(),
{
    reveal(Seq::filter);
    if clients.len() > 0 {
        law_other_clients_stay(clients.drop_last(), client);
    }
}

/// The window that a client has claimed is that of its first entry.
pub proof fn law_claims_are_of_the_first_entry(clients: Seq<ClientModel>, client: Seq<char>, k: int)
    requires
        0 <= k < clients.len(),
        clients[k].client_id == client,
        forall|i: int| 0 <= i < k ==> (#[trigger] clients[i]).client_id != client,
    ensures
        claimed_window(clients, client) == clients[k].window_id,
    decreases clients.len(),
{
    let init = clients.drop_last();
    if k < clients.len() - 1 {
        assert(init[k].client_id == client);
        assert forall|i: int| 0 <= i < k implies (#[trigger] init[i]).client_id != client by {
            assert(init[i] == clients[i]);
        }
        law_claims_are_of_the_first_entry(init, client, k);
    } else if has_client(init, client) {
        let i = choose|i: int| 0 <= i < init.len() && (#[trigger] init[i]).client_id == client;
        assert(clients[i].client_id == client);
    }
}

/// The tab of a pane is the first one that lists it; there is none just where
/// no tab does.
pub proof fn law_tab_of_a_pane_lists_it(tabs: Seq<TabModel>, pane: Seq<char>)
    ensures
        match tab_of_pane(tabs, pane) {
            Some(id) => exists|i: int|
                0 <= i < tabs.len() && (#[trigger] tabs[i]).id == id && tabs[i].pane_ids.contains(
                    pane,
                ) && forall|j: int| 0 <= j < i ==> !(#[trigger] tabs[j]).pane_ids.contains(pane),
            None => forall|j: int|
                0 <= j < tabs.len() ==> !(#[trigger] tabs[j]).pane_ids.contains(pane),
        },
    decreases tabs.len(),
{
    if tabs.len() > 0 {
        let init = tabs.drop_last();
        law_tab_of_a_pane_lists_it(init, pane);
        match tab_of_pane(init, pane) {
            Some(id) => {
                let i = choose|i: int|
                    0 <= i < init.len() && (#[trigger] init[i]).id == id
                        && init[i].pane_ids.contains(pane) && forall|j: int|
                        0 <= j < i ==> !(#[trigger] init[j]).pane_ids.contains(pane);
                assert(tabs[i] == init[i]);
                assert forall|j: int| 0 <= j < i implies !(
                #[trigger] tabs[j]).pane_ids.contains(pane) by {
                    assert(init[j] == tabs[j]);
                }
            },
            None => {
                assert forall|j: int| 0 <= j < init.len() implies !(
                #[trigger] tabs[j]).pane_ids.contains(pane) by {
                    assert(init[j] == tabs[j]);
                }
                let last = tabs.len() - 1;
                if tabs[last].pane_ids.contains(pane) {
                    assert(tabs[last].id == tabs.last().id);
                }
            },
        }
    }
}

/// Whether a pane that is shown can be focused: it has an identifier, and the
/// session has it.
pub open spec fn is_live(pane: Seq<char>, panes: Seq<PaneModel>) -> bool {
    pane.len() > 0 && pane_keys(panes).contains(pane)
}

/// The pane that is focused next is the first one shown that lives; there is
/// none just where none lives.
pub proof fn law_first_live_pane_is_focused(shown: Seq<Seq<char>>, panes: Seq<PaneModel>)
    ensures
        match first_live(shown, panes) {
            Some(id) => exists|i: int|
                0 <= i < shown.len() && #[trigger] shown[i] == id && is_live(id, panes) && forall|
                    j: int,
                | 0 <= j < i ==> !is_live(#[trigger] shown[j], panes),
            None => forall|j: int| 0 <= j < shown.len() ==> !is_live(#[trigger] shown[j], panes),
        },
    decreases shown.len(),
{
    if shown.len() > 0 {
        let init = shown.drop_last();
        law_first_live_pane_is_focused(init, panes);
        match first_live(init, panes) {
            Some(id) => {
                let i = choose|i: int|
                    0 <= i < init.len() && #[trigger] init[i] == id && is_live(id, panes) && forall|
                        j: int,
                    | 0 <= j < i ==> !is_live(#[trigger] init[j], panes);
                assert(shown[i] == id);
                assert forall|j: int| 0 <= j < i implies !is_live(#[trigger] shown[j], panes) by {
                    assert(init[j] == shown[j]);
                }
            },
            None => {
                assert forall|j: int| 0 <= j < init.len() implies !is_live(
                    #[trigger] shown[j],
                    panes,
                ) by {
                    assert(init[j] == shown[j]);
                }
                assert(shown[shown.len() - 1] == shown.last());
            },
        }
    }
}

/// A session after a pane went has the other panes and clients, and its tabs
/// with their titles, none of which lists the pane. What was focused stays
/// focused unless it went; otherwise the first live pane of the layout is, and
/// its tab with it.
pub proof fn law_a_pane_that_goes_takes_nothing_along(
    s: SessionModel,
    pane: Seq<char>,
    layout: NodeModel,
)
    ensures
        ({
            let after = session_without(s, pane, layout);
            &&& after.id == s.id && after.name == s.name && after.cwd == s.cwd
            &&& after.created_timestamp == s.created_timestamp
            &&& after.clients == s.clients && after.windows == s.windows
            &&& after.subscribers == s.subscribers && after.sync == s.sync
            &&& after.layout == layout
            &&& after.panes == s.panes.filter(other_pane(pane))
            &&& after.tabs.len() == s.tabs.len()
            &&& forall|i: int|
                0 <= i < s.tabs.len() ==> (#[trigger] after.tabs[i]).id == s.tabs[i].id
                    && after.tabs[i].title == s.tabs[i].title && after.tabs[i].pane_ids
                    == s.tabs[i].pane_ids.filter(text::other_text(pane))
            &&& s.focused_pane is Some && pane_keys(after.panes).contains(s.focused_pane->0)
                ==> after.focused_pane == s.focused_pane
            &&& !(s.focused_pane is Some && pane_keys(after.panes).contains(s.focused_pane->0))
                ==> after.focused_pane == first_live(layout_model::pane_ids(layout), after.panes)
            &&& after.focused_pane is None ==> after.focused_tab is None
            &&& after.focused_pane is Some ==> after.focused_tab == tab_of_pane(
                after.tabs,
                after.focused_pane->0,
            )
        }),
{
    law_other_panes_stay(s.panes, pane);
    let after = session_without(s, pane, layout);
    assert forall|i: int| 0 <= i < s.tabs.len() implies (#[trigger] after.tabs[i]).id
        == s.tabs[i].id && after.tabs[i].title == s.tabs[i].title && after.tabs[i].pane_ids
        == s.tabs[i].pane_ids.filter(text::other_text(pane)) by {
        text::law_other_texts_stay(s.tabs[i].pane_ids, pane);
    }
}

/// A text that is added to a list is in it afterwards, behind what was there;
/// one that is there already is not added again.
pub proof fn law_added_texts_are_there(list: Seq<Seq<char>>, added: Seq<char>)
    ensures
        with_text(list, added).contains(added),
        list.is_prefix_of(with_text(list, added)),
        with_text(list, added).len() == list.len() + if list.contains(added) {
            0int
        } else {
            1
        },
{
    if !list.contains(added) {
        assert(list.push(added)[list.len() as int] == added);
    }
}

/// A tab that is put in is there, in the place of one of its identifier or else
/// at the end; all others stay.
pub proof fn law_put_tabs_are_there(tabs: Seq<TabModel>, tab: TabModel)
    ensures
        with_tab(tabs, tab).contains(tab),
        forall|i: int|
            0 <= i < tabs.len() ==> #[trigger] with_tab(tabs, tab)[i] == if tabs[i].id == tab.id {
                tab
            } else {
                tabs[i]
            },
        with_tab(tabs, tab).len() == tabs.len() + if tab_keys(tabs).contains(tab.id) {
            0int
        } else {
            1
        },
{
    let after = with_tab(tabs, tab);
    if tab_keys(tabs).contains(tab.id) {
        let k = choose|k: int| 0 <= k < tabs.len() && tab_keys(tabs)[k] == tab.id;
        assert(after[k] == tab);
    } else {
        assert(after[tabs.len() as int] == tab);
        assert forall|i: int| 0 <= i < tabs.len() implies #[trigger] after[i] == if tabs[i].id
            == tab.id {
            tab
        } else {
            tabs[i]
        } by {
            assert(tab_keys(tabs)[i] == tabs[i].id);
        }
    }
}

/// Of a list all that is gone is left out, and nothing else.
pub proof fn law_all_that_is_gone_is_left_out(
    list: Seq<Seq<char>>,
    gone: Seq<Seq<char>>,
    other: Seq<char>,
)
    ensures
        without_all(list, gone).contains(other) <==> list.contains(other) && !gone.contains(other),
    decreases gone.len(),
{
    if gone.len() > 0 {
        let init = gone.drop_last();
        law_all_that_is_gone_is_left_out(list, init, other);
        text::lemma_without(without_all(list, init), gone.last(), other);
        if gone.contains(other) {
            let k = choose|k: int| 0 <= k < gone.len() && gone[k] == other;
            if k < init.len() {
                assert(init[k] == other);
            }
        }
        if init.contains(other) {
            let k = choose|k: int| 0 <= k < init.len() && init[k] == other;
            assert(gone[k] == other);
        }
        assert(gone.contains(gone[gone.len() - 1]));
    }
}

} // verus!
