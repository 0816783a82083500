//! Saving sessions and getting them back.
use crate::json_text;
use crate::json_documents;
use crate::json_documents::read_number;
use crate::layout::LayoutTree;
use crate::layout_messages;
use crate::layout_messages::error_message;
use crate::layout_model;
use crate::layout_model::NodeModel;
use crate::layout_persist;
use crate::layout_persist::{EntryModel, PersistedLayoutTree};
use crate::numbers;
use crate::numbers::decimal_text;
use crate::registry;
use crate::session;
use crate::session::{
    copy_tab, PaneModel, PaneRecord, Session, SessionModel, Tab, TabModel,
};
use crate::text;
use crate::text::{around, contains_text, copy_optional, joined};
use crate::text_order;
use crate::text_order::{all_different, same_in_any_order, sort_by_key, Keyed, Named};
use vstd::prelude::*;
use vstd::string::*;

verus! {

/// The version of what is saved.
pub const RECOVERY_FORMAT_VERSION: u32 = 2;

/// A pane as it is saved.
#[derive(Debug)]
pub struct PersistedPane {
    pub id: String,
    pub cwd: String,
    pub title: String,
    pub cols: u32,
    pub rows: u32,
}

/// A pane as it is saved.
pub struct SavedPane {
    pub id: Seq<char>,
    pub cwd: Seq<char>,
    pub title: Seq<char>,
    pub cols: u32,
    pub rows: u32,
}

impl View for PersistedPane {
    type V = SavedPane;

    open spec fn view(&self) -> SavedPane {
        SavedPane {
            id: self.id@,
            cwd: self.cwd@,
            title: self.title@,
            cols: self.cols,
            rows: self.rows,
        }
    }
}

impl Clone for PersistedPane {
    fn clone(&self) -> (copy: Self)
        ensures
            copy@ == self@,
    {
        PersistedPane {
            id: self.id.clone(),
            cwd: self.cwd.clone(),
            title: self.title.clone(),
            cols: self.cols,
            rows: self.rows,
        }
    }
}

impl Named for PersistedPane {
    open spec fn key(&self) -> Seq<char> {
        self.id@
    }
}

impl Keyed for PersistedPane {
    fn key_text(&self) -> (key: &str) {
        self.id.as_str()
    }
}

impl Named for SavedPane {
    open spec fn key(&self) -> Seq<char> {
        self.id
    }
}

impl Named for Tab {
    open spec fn key(&self) -> Seq<char> {
        self.id@
    }
}

impl Keyed for Tab {
    fn key_text(&self) -> (key: &str) {
        self.id.as_str()
    }
}

impl Named for TabModel {
    open spec fn key(&self) -> Seq<char> {
        self.id
    }
}

/// What a list of saved panes holds.
pub open spec fn saved_panes(panes: Seq<PersistedPane>) -> Seq<SavedPane> {
    panes.map_values(|p: PersistedPane| p@)
}

/// The identifiers of saved panes.
pub open spec fn saved_ids(panes: Seq<SavedPane>) -> Seq<Seq<char>> {
    panes.map_values(|p: SavedPane| p.id)
}

/// A session as it is saved.
#[derive(Debug)]
pub struct PersistedSessionState {
    pub version: u32,
    pub layout: PersistedLayoutTree,
    pub tabs: Vec<Tab>,
    pub panes: Vec<PersistedPane>,
    pub focused_tab: Option<String>,
    pub focused_pane: Option<String>,
}

/// A session as it is saved.
#[verifier::ext_equal]
pub struct SavedSession {
    pub version: u32,
    pub layout: Seq<EntryModel>,
    pub tabs: Seq<TabModel>,
    pub panes: Seq<SavedPane>,
    pub focused_tab: Option<Seq<char>>,
    pub focused_pane: Option<Seq<char>>,
}

impl View for PersistedSessionState {
    type V = SavedSession;

    open spec fn view(&self) -> SavedSession {
        SavedSession {
            version: self.version,
            layout: self.layout@,
            tabs: session::tab_models(self.tabs@),
            panes: saved_panes(self.panes@),
            focused_tab: text::optional(self.focused_tab),
            focused_pane: text::optional(self.focused_pane),
        }
    }
}

/// Whether every pane that a tab lists is among these.
pub open spec fn tabs_are_known(tabs: Seq<TabModel>, ids: Seq<Seq<char>>) -> bool {
    forall|i: int, j: int|
        0 <= i < tabs.len() && 0 <= j < tabs[i].pane_ids.len() ==> ids.contains(
            #[trigger] tabs[i].pane_ids[j],
        )
}

/// Whether a tab lists a pane.
pub open spec fn is_listed(tabs: Seq<TabModel>, pane: Seq<char>) -> bool {
    exists|i: int| 0 <= i < tabs.len() && (#[trigger] tabs[i]).pane_ids.contains(pane)
}

/// Whether every one of these panes is listed in a tab.
pub open spec fn all_listed(tabs: Seq<TabModel>, ids: Seq<Seq<char>>) -> bool {
    forall|i: int| 0 <= i < ids.len() ==> is_listed(tabs, #[trigger] ids[i])
}

fn tabs_known(tabs: &Vec<Tab>, ids: &Vec<String>) -> (known: bool)
    ensures
        known == tabs_are_known(session::tab_models(tabs@), text::texts(ids@)),
{
    let ghost models = session::tab_models(tabs@);
    let ghost all = text::texts(ids@);
    let mut i: usize = 0;
    while i < tabs.len()
        invariant
            i <= tabs.len(),
            models == session::tab_models(tabs@),
            all == text::texts(ids@),
            forall|p: int, q: int|
                0 <= p < i && 0 <= q < models[p].pane_ids.len() ==> all.contains(
                    #[trigger] models[p].pane_ids[q],
                ),
        decreases tabs.len() - i,
    {
        let tab = &tabs[i];
        assert(models[i as int] == tab@);
        let mut k: usize = 0;
        while k < tab.pane_ids.len()
            invariant
                k <= tab.pane_ids.len(),
                i < models.len(),
                models == session::tab_models(tabs@),
                models[i as int] == tab@,
                all == text::texts(ids@),
                forall|q: int| 0 <= q < k ==> all.contains(#[trigger] models[i as int].pane_ids[q]),
            decreases tab.pane_ids.len() - k,
        {
            assert(models[i as int].pane_ids[k as int] == tab.pane_ids@[k as int]@);
            if !contains_text(ids, tab.pane_ids[k].as_str()) {
                return false;
            }
            k = k + 1;
        }
        i = i + 1;
    }
    true
}

fn tab_lists(tabs: &Vec<Tab>, pane: &str) -> (listed: bool)
    ensures
        listed == is_listed(session::tab_models(tabs@), pane@),
{
    let ghost models = session::tab_models(tabs@);
    let mut i: usize = 0;
    while i < tabs.len()
        invariant
            i <= tabs.len(),
            models == session::tab_models(tabs@),
            forall|p: int| 0 <= p < i ==> !(#[trigger] models[p]).pane_ids.contains(pane@),
        decreases tabs.len() - i,
    {
        assert(models[i as int] == tabs@[i as int]@);
        if contains_text(&tabs[i].pane_ids, pane) {
            assert(models[i as int].pane_ids.contains(pane@));
            return true;
        }
        i = i + 1;
    }
    false
}

fn every_pane_listed(tabs: &Vec<Tab>, ids: &Vec<String>) -> (listed: bool)
    ensures
        listed == all_listed(session::tab_models(tabs@), text::texts(ids@)),
{
    let ghost all = text::texts(ids@);
    let mut i: usize = 0;
    while i < ids.len()
        invariant
            i <= ids.len(),
            all == text::texts(ids@),
            forall|p: int|
                0 <= p < i ==> is_listed(session::tab_models(tabs@), #[trigger] all[p]),
        decreases ids.len() - i,
    {
        assert(all[i as int] == ids@[i as int]@);
        if !tab_lists(tabs, ids[i].as_str()) {
            return false;
        }
        i = i + 1;
    }
    true
}

/// The identifiers of tabs.
pub fn tab_id_list(tabs: &Vec<Tab>) -> (ids: Vec<String>)
    ensures
        text::texts(ids@) == session::tab_keys(session::tab_models(tabs@)),
{
    let ghost all = session::tab_keys(session::tab_models(tabs@));
    let mut ids: Vec<String> = Vec::new();
    let mut i: usize = 0;
    assert(text::texts(ids@) =~= all.take(0));
    while i < tabs.len()
        invariant
            i <= tabs.len(),
            all == session::tab_keys(session::tab_models(tabs@)),
            text::texts(ids@) == all.take(i as int),
        decreases tabs.len() - i,
    {
        let id: String = tabs[i].id.clone();
        proof {
            text::lemma_texts_push(ids@, id);
            assert(session::tab_models(tabs@)[i as int] == tabs@[i as int]@);
            assert(all.take(i + 1) =~= all.take(i as int).push(id@));
        }
        ids.push(id);
        i = i + 1;
    }
    assert(all.take(i as int) =~= all);
    ids
}

/// The identifiers of saved panes.
pub fn pane_id_list(panes: &Vec<PersistedPane>) -> (ids: Vec<String>)
    ensures
        text::texts(ids@) == saved_ids(saved_panes(panes@)),
{
    let ghost all = saved_ids(saved_panes(panes@));
    let mut ids: Vec<String> = Vec::new();
    let mut i: usize = 0;
    assert(text::texts(ids@) =~= all.take(0));
    while i < panes.len()
        invariant
            i <= panes.len(),
            all == saved_ids(saved_panes(panes@)),
            text::texts(ids@) == all.take(i as int),
        decreases panes.len() - i,
    {
        let id: String = panes[i].id.clone();
        proof {
            text::lemma_texts_push(ids@, id);
            assert(saved_panes(panes@)[i as int] == panes@[i as int]@);
            assert(all.take(i + 1) =~= all.take(i as int).push(id@));
        }
        ids.push(id);
        i = i + 1;
    }
    assert(all.take(i as int) =~= all);
    ids
}

/// Why a session is not saved.
#[derive(Clone, Copy, Debug, PartialEq, Eq, Structural)]
pub enum SaveError {
    /// The layout does not show the panes that the session has.
    LayoutMismatch,
    /// A tab lists a pane that is not there.
    UnknownTabPane,
    /// A pane is in no tab.
    UnassignedPane,
    InvalidFocusedTab,
    InvalidFocusedPane,
}

/// What of the parts of a session does not fit together: its layout, its panes,
/// its tabs and what is focused.
pub open spec fn misfit(
    layout: NodeModel,
    tabs: Seq<TabModel>,
    ids: Seq<Seq<char>>,
    focused_tab: Option<Seq<char>>,
    focused_pane: Option<Seq<char>>,
) -> Option<SaveError> {
    if layout_model::pane_ids(layout).to_multiset() != ids.to_multiset() {
        Some(SaveError::LayoutMismatch)
    } else if !tabs_are_known(tabs, ids) {
        Some(SaveError::UnknownTabPane)
    } else if !all_listed(tabs, ids) {
        Some(SaveError::UnassignedPane)
    } else if focused_tab is Some && !session::tab_keys(tabs).contains(focused_tab->0) {
        Some(SaveError::InvalidFocusedTab)
    } else if focused_pane is Some && !ids.contains(focused_pane->0) {
        Some(SaveError::InvalidFocusedPane)
    } else {
        None
    }
}

/// What is said of a session that is not saved.
pub open spec fn save_error_text(error: SaveError, id: Seq<char>) -> Seq<char> {
    "session "@ + id + match error {
        SaveError::LayoutMismatch => " layout panes do not match its pane registry"@,
        SaveError::UnknownTabPane => " tab metadata references an unknown pane"@,
        SaveError::UnassignedPane => " has a pane not assigned to a tab"@,
        SaveError::InvalidFocusedTab => " has an invalid focused tab"@,
        SaveError::InvalidFocusedPane => " has an invalid focused pane"@,
    }
}

impl SaveError {
    /// Says why a session is not saved.
    pub fn message(self, id: &str) -> (message: String)
        ensures
            message@ == save_error_text(self, id@),
    {
        match self {
            SaveError::LayoutMismatch => around(
                "session ",
                id,
                " layout panes do not match its pane registry",
            ),
            SaveError::UnknownTabPane => around(
                "session ",
                id,
                " tab metadata references an unknown pane",
            ),
            SaveError::UnassignedPane => around(
                "session ",
                id,
                " has a pane not assigned to a tab",
            ),
            SaveError::InvalidFocusedTab => around("session ", id, " has an invalid focused tab"),
            SaveError::InvalidFocusedPane => around("session ", id, " has an invalid focused pane"),
        }
    }
}

/// Finds out whether the parts of a session fit together.
pub fn find_misfit(
    layout: &LayoutTree,
    tabs: &Vec<Tab>,
    ids: &Vec<String>,
    focused_tab: &Option<String>,
    focused_pane: &Option<String>,
) -> (found: Option<SaveError>)
    ensures
        found == misfit(
            layout@,
            session::tab_models(tabs@),
            text::texts(ids@),
            text::optional(*focused_tab),
            text::optional(*focused_pane),
        ),
{
    let shown: Vec<String> = layout.pane_ids();
    if !same_in_any_order(&shown, ids) {
        return Some(SaveError::LayoutMismatch);
    }
    if !tabs_known(tabs, ids) {
        return Some(SaveError::UnknownTabPane);
    }
    if !every_pane_listed(tabs, ids) {
        return Some(SaveError::UnassignedPane);
    }
    match focused_tab {
        Some(tab) => {
            if !contains_text(&tab_id_list(tabs), tab.as_str()) {
                return Some(SaveError::InvalidFocusedTab);
            }
        },
        None => {},
    }
    match focused_pane {
        Some(pane) => {
            if !contains_text(ids, pane.as_str()) {
                return Some(SaveError::InvalidFocusedPane);
            }
        },
        None => {},
    }
    None
}

/// A pane of a session as it is saved.
pub open spec fn saved_pane(p: PaneModel) -> SavedPane {
    SavedPane { id: p.id, cwd: p.cwd, title: p.title, cols: p.cols, rows: p.rows }
}

/// A session as it is saved: its tabs and panes in the order of their
/// identifiers.
pub open spec fn saved_session(s: SessionModel) -> SavedSession {
    SavedSession {
        version: RECOVERY_FORMAT_VERSION,
        layout: layout_persist::flat(s.layout, 0),
        tabs: text_order::by_key(s.tabs),
        panes: text_order::by_key(s.panes.map_values(|p: PaneModel| saved_pane(p))),
        focused_tab: s.focused_tab,
        focused_pane: s.focused_pane,
    }
}

/// What keeps a session from being saved.
pub open spec fn save_error(s: SessionModel) -> Option<SaveError> {
    let saved = saved_session(s);
    misfit(s.layout, saved.tabs, saved_ids(saved.panes), s.focused_tab, s.focused_pane)
}

fn copy_tabs(tabs: &Vec<Tab>) -> (copy: Vec<Tab>)
    ensures
        session::tab_models(copy@) == session::tab_models(tabs@),
{
    let ghost all = session::tab_models(tabs@);
    let mut copy: Vec<Tab> = Vec::new();
    let mut i: usize = 0;
    assert(session::tab_models(copy@) =~= all.take(0));
    while i < tabs.len()
        invariant
            i <= tabs.len(),
            all == session::tab_models(tabs@),
            session::tab_models(copy@) == all.take(i as int),
        decreases tabs.len() - i,
    {
        let tab: Tab = copy_tab(&tabs[i]);
        let ghost before = copy@;
        copy.push(tab);
        proof {
            assert(session::tab_models(copy@) =~= session::tab_models(before).push(tab@));
            assert(all.take(i + 1) =~= all.take(i as int).push(tabs@[i as int]@));
        }
        i = i + 1;
    }
    assert(all.take(i as int) =~= all);
    copy
}

fn collect_panes(panes: &Vec<PaneRecord>) -> (saved: Vec<PersistedPane>)
    ensures
        saved_panes(saved@) == session::pane_models(panes@).map_values(
            |p: PaneModel| saved_pane(p),
        ),
{
    let ghost all = session::pane_models(panes@).map_values(|p: PaneModel| saved_pane(p));
    let mut saved: Vec<PersistedPane> = Vec::new();
    let mut i: usize = 0;
    assert(saved_panes(saved@) =~= all.take(0));
    while i < panes.len()
        invariant
            i <= panes.len(),
            all == session::pane_models(panes@).map_values(|p: PaneModel| saved_pane(p)),
            saved_panes(saved@) == all.take(i as int),
        decreases panes.len() - i,
    {
        let pane = PersistedPane {
            id: panes[i].id.clone(),
            cwd: panes[i].cwd.clone(),
            title: panes[i].title.clone(),
            cols: panes[i].cols,
            rows: panes[i].rows,
        };
        let ghost before = saved@;
        proof {
            assert(session::pane_models(panes@)[i as int] == panes@[i as int]@);
            assert(all[i as int] == pane@);
        }
        saved.push(pane);
        proof {
            assert(saved_panes(saved@) =~= saved_panes(before).push(all[i as int]));
            assert(all.take(i + 1) =~= all.take(i as int).push(all[i as int]));
        }
        i = i + 1;
    }
    assert(all.take(i as int) =~= all);
    saved
}

/// Makes what is saved of a session, once its parts are found to fit together.
pub fn persisted_session_state(session: &Session) -> (result: Result<
    PersistedSessionState,
    SaveError,
>)
    ensures
        match result {
            Ok(state) => save_error(session@) is None && state@ == saved_session(session@),
            Err(e) => save_error(session@) == Some(e),
        },
{
    let all_tabs: Vec<Tab> = copy_tabs(&session.tabs);
    let all_panes: Vec<PersistedPane> = collect_panes(&session.panes);
    proof {
        text_order::lemma_mapped_by_key(all_tabs@, |t: Tab| t@);
        text_order::lemma_mapped_by_key(all_panes@, |p: PersistedPane| p@);
    }
    let tabs: Vec<Tab> = sort_by_key(all_tabs);
    let panes: Vec<PersistedPane> = sort_by_key(all_panes);
    let ids: Vec<String> = pane_id_list(&panes);
    match find_misfit(&session.layout, &tabs, &ids, &session.focused_tab, &session.focused_pane) {
        Some(e) => {
            return Err(e);
        },
        None => {},
    }
    Ok(
        PersistedSessionState {
            version: RECOVERY_FORMAT_VERSION,
            layout: session.layout.to_persisted(),
            tabs,
            panes,
            focused_tab: copy_optional(&session.focused_tab),
            focused_pane: copy_optional(&session.focused_pane),
        },
    )
}

/// What is written of a session.
#[derive(Debug)]
pub struct SessionRow {
    pub id: String,
    pub name: String,
    pub cwd: String,
    pub state: PersistedSessionState,
}

/// What is written of a session.
pub struct RowModel {
    pub id: Seq<char>,
    pub name: Seq<char>,
    pub cwd: Seq<char>,
    pub state: SavedSession,
}

impl View for SessionRow {
    type V = RowModel;

    open spec fn view(&self) -> RowModel {
        RowModel { id: self.id@, name: self.name@, cwd: self.cwd@, state: self.state@ }
    }
}

/// What is written of a session.
pub open spec fn row_of(s: SessionModel) -> RowModel {
    RowModel { id: s.id, name: s.name, cwd: s.cwd, state: saved_session(s) }
}

/// What is written of sessions, and what is said of the one that cannot be
/// saved.
#[derive(Debug)]
pub struct Snapshot {
    pub rows: Vec<SessionRow>,
    pub failure: Option<String>,
}

/// The place of the first session from `k` on that cannot be saved.
pub open spec fn first_unsaved(r: Seq<SessionModel>, k: int) -> int
    decreases r.len() - k,
{
    if k >= r.len() {
        r.len() as int
    } else if save_error(r[k]) is Some {
        k
    } else {
        first_unsaved(r, k + 1)
    }
}

/// Saves the sessions one after the other, up to the first that cannot be saved.
pub fn snapshot_sessions(sessions: &Vec<Session>) -> (snapshot: Snapshot)
    ensures
        ({
            let r = registry::registry(sessions@);
            let k = first_unsaved(r, 0);
            &&& snapshot.rows@.map_values(|row: SessionRow| row@) == r.take(k).map_values(
                |s: SessionModel| row_of(s),
            )
            &&& text::optional(snapshot.failure) == if k < r.len() {
                Some(save_error_text(save_error(r[k])->0, r[k].id))
            } else {
                None
            }
        }),
{
    let ghost r = registry::registry(sessions@);
    let mut rows: Vec<SessionRow> = Vec::new();
    let mut i: usize = 0;
    assert(rows@.map_values(|row: SessionRow| row@) =~= r.take(0).map_values(
        |s: SessionModel| row_of(s),
    ));
    while i < sessions.len()
        invariant
            i <= sessions.len(),
            r == registry::registry(sessions@),
            first_unsaved(r, 0) == first_unsaved(r, i as int),
            rows@.map_values(|row: SessionRow| row@) == r.take(i as int).map_values(
                |s: SessionModel| row_of(s),
            ),
        decreases sessions.len() - i,
    {
        let session = &sessions[i];
        assert(r[i as int] == session@);
        match persisted_session_state(session) {
            Err(e) => {
                let failure: String = e.message(session.id.as_str());
                return Snapshot { rows, failure: Some(failure) };
            },
            Ok(state) => {
                let row = SessionRow {
                    id: session.id.clone(),
                    name: session.name.clone(),
                    cwd: session.cwd.clone(),
                    state,
                };
                let ghost before = rows@;
                rows.push(row);
                proof {
                    assert(rows@.map_values(|row: SessionRow| row@) =~= before.map_values(
                        |row: SessionRow| row@,
                    ).push(row@));
                    assert(r.take(i + 1).map_values(|s: SessionModel| row_of(s)) =~= r.take(
                        i as int,
                    ).map_values(|s: SessionModel| row_of(s)).push(row_of(r[i as int])));
                }
            },
        }
        i = i + 1;
    }
    Snapshot { rows, failure: None }
}

/// What was read of what was saved of a session.
#[derive(Debug)]
pub enum StoredState {
    /// Nothing was saved.
    Nothing,
    /// It cannot be read, and why.
    Unreadable(String),
    /// It is of a version, and that cannot be read further, and why.
    Incomplete { version: u32, detail: String },
    /// All of it.
    State(PersistedSessionState),
}

/// A session that was saved.
#[derive(Debug)]
pub struct StoredSession {
    pub id: String,
    pub name: String,
    pub cwd: String,
    pub state: StoredState,
    /// Whether a screen of the size of each pane does not have too many cells.
    pub sizes_fit: Vec<bool>,
}

/// The version that a number stands for: none is version zero, and of a large
/// one only the low half counts.
pub open spec fn version_of(number: Option<u64>) -> u32 {
    match number {
        Some(n) => (n % 0x1_0000_0000) as u32,
        None => 0,
    }
}

/// What was read, given what the version is written as and what all of it was
/// read as.
pub fn read_state(
    written: Result<Option<u64>, String>,
    typed: Result<PersistedSessionState, String>,
) -> (state: StoredState)
    ensures
        match written {
            Err(detail) => state == StoredState::Unreadable(detail),
            Ok(number) => if version_of(number) != RECOVERY_FORMAT_VERSION {
                state matches StoredState::Incomplete { version, .. } && version == version_of(
                    number,
                )
            } else {
                match typed {
                    Ok(read) => state == StoredState::State(read),
                    Err(detail) => state == (StoredState::Incomplete {
                        version: RECOVERY_FORMAT_VERSION,
                        detail,
                    }),
                }
            },
        },
{
    let number: Option<u64> = match written {
        Ok(number) => number,
        Err(detail) => {
            return StoredState::Unreadable(detail);
        },
    };
    let version: u32 = match number {
        Some(n) => (n % 0x1_0000_0000) as u32,
        None => 0,
    };
    if version != RECOVERY_FORMAT_VERSION {
        return StoredState::Incomplete { version, detail: String::new() };
    }
    match typed {
        Ok(read) => StoredState::State(read),
        Err(detail) => StoredState::Incomplete { version, detail },
    }
}

/// Reads what was saved of a session. Its version is looked at before anything
/// else; the second argument is what all of the text was read as.
pub fn decode_persisted_state(text: &str, typed: Result<PersistedSessionState, String>) -> (state:
    StoredState)
    ensures
        text@.len() == 0 ==> state == StoredState::Nothing,
        text@.len() > 0 ==> match json_documents::number_written(text@, "version"@) {
            Err(detail) => state matches StoredState::Unreadable(said) && said@ == detail,
            Ok(number) => if version_of(number) != RECOVERY_FORMAT_VERSION {
                state matches StoredState::Incomplete { version, .. } && version == version_of(
                    number,
                )
            } else {
                match typed {
                    Ok(read) => state == StoredState::State(read),
                    Err(detail) => state == (StoredState::Incomplete {
                        version: RECOVERY_FORMAT_VERSION,
                        detail,
                    }),
                }
            },
        },
{
    if text.is_empty() {
        return StoredState::Nothing;
    }
    read_state(read_number(text, "version"), typed)
}

/// Why a session is not offered.
#[derive(Debug)]
pub enum RecoveryError {
    NoLayout,
    Unreadable(String),
    UnsupportedVersion(u32),
    NoPanes,
    DuplicatePanes,
    InvalidPaneSize,
    LayoutMismatch,
    InvalidTabIds,
    UnknownTabPane,
    UnassignedPane,
    InvalidFocusedTab,
    InvalidFocusedPane,
}

/// Why a session is not offered.
pub enum RecoveryErrorModel {
    NoLayout,
    Unreadable(Seq<char>),
    UnsupportedVersion(u32),
    NoPanes,
    DuplicatePanes,
    InvalidPaneSize,
    LayoutMismatch,
    InvalidTabIds,
    UnknownTabPane,
    UnassignedPane,
    InvalidFocusedTab,
    InvalidFocusedPane,
}

impl View for RecoveryError {
    type V = RecoveryErrorModel;

    open spec fn view(&self) -> RecoveryErrorModel {
        match self {
            RecoveryError::NoLayout => RecoveryErrorModel::NoLayout,
            RecoveryError::Unreadable(detail) => RecoveryErrorModel::Unreadable(detail@),
            RecoveryError::UnsupportedVersion(v) => RecoveryErrorModel::UnsupportedVersion(*v),
            RecoveryError::NoPanes => RecoveryErrorModel::NoPanes,
            RecoveryError::DuplicatePanes => RecoveryErrorModel::DuplicatePanes,
            RecoveryError::InvalidPaneSize => RecoveryErrorModel::InvalidPaneSize,
            RecoveryError::LayoutMismatch => RecoveryErrorModel::LayoutMismatch,
            RecoveryError::InvalidTabIds => RecoveryErrorModel::InvalidTabIds,
            RecoveryError::UnknownTabPane => RecoveryErrorModel::UnknownTabPane,
            RecoveryError::UnassignedPane => RecoveryErrorModel::UnassignedPane,
            RecoveryError::InvalidFocusedTab => RecoveryErrorModel::InvalidFocusedTab,
            RecoveryError::InvalidFocusedPane => RecoveryErrorModel::InvalidFocusedPane,
        }
    }
}

/// What is said of a session that is not offered.
pub open spec fn recovery_error_text(error: RecoveryErrorModel, id: Seq<char>) -> Seq<char> {
    match error {
        RecoveryErrorModel::NoLayout => "session "@ + id + " has no persisted layout"@,
        RecoveryErrorModel::Unreadable(detail) => "invalid persisted layout for session "@ + id
            + ": "@ + detail,
        RecoveryErrorModel::UnsupportedVersion(v) => "unsupported recovery format "@
            + numbers::digits_of(v as nat) + " for session "@ + id,
        RecoveryErrorModel::NoPanes => "persisted layout for session "@ + id
            + " has no recoverable panes"@,
        RecoveryErrorModel::DuplicatePanes => "persisted pane metadata for session "@ + id
            + " contains duplicate pane ids"@,
        RecoveryErrorModel::InvalidPaneSize => "persisted pane metadata for session "@ + id
            + " contains an invalid pane size"@,
        RecoveryErrorModel::LayoutMismatch => "persisted pane metadata for session "@ + id
            + " does not match its layout"@,
        RecoveryErrorModel::InvalidTabIds => "persisted tab metadata for session "@ + id
            + " contains invalid tab ids"@,
        RecoveryErrorModel::UnknownTabPane => "persisted tab metadata for session "@ + id
            + " references an unknown pane"@,
        RecoveryErrorModel::UnassignedPane => "persisted pane metadata for session "@ + id
            + " contains an unassigned pane"@,
        RecoveryErrorModel::InvalidFocusedTab => "persisted session "@ + id
            + " has an invalid focused tab"@,
        RecoveryErrorModel::InvalidFocusedPane => "persisted session "@ + id
            + " has an invalid focused pane"@,
    }
}

impl RecoveryError {
    /// Says why a session is not offered.
    pub fn message(&self, id: &str) -> (message: String)
        ensures
            message@ == recovery_error_text(self@, id@),
    {
        match self {
            RecoveryError::NoLayout => around("session ", id, " has no persisted layout"),
            RecoveryError::Unreadable(detail) => {
                let head: String = around("invalid persisted layout for session ", id, ": ");
                joined(head.as_str(), detail.as_str())
            },
            RecoveryError::UnsupportedVersion(v) => {
                let head: String = around(
                    "unsupported recovery format ",
                    decimal_text(*v as u64).as_str(),
                    " for session ",
                );
                joined(head.as_str(), id)
            },
            RecoveryError::NoPanes => around(
                "persisted layout for session ",
                id,
                " has no recoverable panes",
            ),
            RecoveryError::DuplicatePanes => around(
                "persisted pane metadata for session ",
                id,
                " contains duplicate pane ids",
            ),
            RecoveryError::InvalidPaneSize => around(
                "persisted pane metadata for session ",
                id,
                " contains an invalid pane size",
            ),
            RecoveryError::LayoutMismatch => around(
                "persisted pane metadata for session ",
                id,
                " does not match its layout",
            ),
            RecoveryError::InvalidTabIds => around(
                "persisted tab metadata for session ",
                id,
                " contains invalid tab ids",
            ),
            RecoveryError::UnknownTabPane => around(
                "persisted tab metadata for session ",
                id,
                " references an unknown pane",
            ),
            RecoveryError::UnassignedPane => around(
                "persisted pane metadata for session ",
                id,
                " contains an unassigned pane",
            ),
            RecoveryError::InvalidFocusedTab => around(
                "persisted session ",
                id,
                " has an invalid focused tab",
            ),
            RecoveryError::InvalidFocusedPane => around(
                "persisted session ",
                id,
                " has an invalid focused pane",
            ),
        }
    }
}

/// A session that can be got back.
#[derive(Debug)]
pub struct RecoveryCandidate {
    pub id: String,
    pub name: String,
    pub cwd: String,
    pub layout: LayoutTree,
    pub tabs: Vec<Tab>,
    pub panes: Vec<PersistedPane>,
    pub focused_tab: Option<String>,
    pub focused_pane: Option<String>,
}

/// A session that can be got back.
#[verifier::ext_equal]
pub struct CandidateModel {
    pub id: Seq<char>,
    pub name: Seq<char>,
    pub cwd: Seq<char>,
    pub layout: NodeModel,
    pub tabs: Seq<TabModel>,
    pub panes: Seq<SavedPane>,
    pub focused_tab: Option<Seq<char>>,
    pub focused_pane: Option<Seq<char>>,
}

impl View for RecoveryCandidate {
    type V = CandidateModel;

    open spec fn view(&self) -> CandidateModel {
        CandidateModel {
            id: self.id@,
            name: self.name@,
            cwd: self.cwd@,
            layout: self.layout@,
            tabs: session::tab_models(self.tabs@),
            panes: saved_panes(self.panes@),
            focused_tab: text::optional(self.focused_tab),
            focused_pane: text::optional(self.focused_pane),
        }
    }
}

/// Whether all of these are texts with something in them.
pub open spec fn none_empty(list: Seq<Seq<char>>) -> bool {
    forall|i: int| 0 <= i < list.len() ==> (#[trigger] list[i]).len() > 0
}

/// Whether the size of a pane fits.
pub open spec fn fits_at(fit: Seq<bool>, i: int) -> bool {
    i < fit.len() && fit[i]
}

/// Whether the sizes of the first panes fit.
pub open spec fn sizes_fit(fit: Seq<bool>, count: int) -> bool {
    forall|i: int| 0 <= i < count ==> #[trigger] fits_at(fit, i)
}

/// What keeps a session that was saved from being offered, once its layout is
/// loaded.
pub open spec fn offer_error(layout: NodeModel, saved: SavedSession, fit: Seq<bool>) -> Option<
    RecoveryErrorModel,
> {
    let shown = layout_model::pane_ids(layout);
    let ids = saved_ids(saved.panes);
    if shown.len() == 0 || !none_empty(shown) {
        Some(RecoveryErrorModel::NoPanes)
    } else if !ids.no_duplicates() {
        Some(RecoveryErrorModel::DuplicatePanes)
    } else if !none_empty(ids) || !sizes_fit(fit, saved.panes.len() as int) {
        Some(RecoveryErrorModel::InvalidPaneSize)
    } else if shown.to_multiset() != ids.to_multiset() {
        Some(RecoveryErrorModel::LayoutMismatch)
    } else if !none_empty(session::tab_keys(saved.tabs)) || !session::tab_keys(saved.tabs).no_duplicates() {
        Some(RecoveryErrorModel::InvalidTabIds)
    } else if !tabs_are_known(saved.tabs, ids) {
        Some(RecoveryErrorModel::UnknownTabPane)
    } else if !all_listed(saved.tabs, ids) {
        Some(RecoveryErrorModel::UnassignedPane)
    } else if saved.focused_tab is Some && !session::tab_keys(saved.tabs).contains(saved.focused_tab->0) {
        Some(RecoveryErrorModel::InvalidFocusedTab)
    } else if saved.focused_pane is Some && !ids.contains(saved.focused_pane->0) {
        Some(RecoveryErrorModel::InvalidFocusedPane)
    } else {
        None
    }
}

/// What is offered of a session that was saved.
pub open spec fn offered(stored: StoredSession, max_wire: int) -> Result<
    CandidateModel,
    RecoveryErrorModel,
> {
    match stored.state {
        StoredState::Nothing => Err(RecoveryErrorModel::NoLayout),
        StoredState::Unreadable(detail) => Err(RecoveryErrorModel::Unreadable(detail@)),
        StoredState::Incomplete { version, detail } => if version != RECOVERY_FORMAT_VERSION {
            Err(RecoveryErrorModel::UnsupportedVersion(version))
        } else {
            Err(RecoveryErrorModel::Unreadable(detail@))
        },
        StoredState::State(state) => if state.version != RECOVERY_FORMAT_VERSION {
            Err(RecoveryErrorModel::UnsupportedVersion(state.version))
        } else {
            match layout_persist::loaded(state.layout@, max_wire) {
                Err(e) => Err(
                    RecoveryErrorModel::Unreadable(
                        layout_messages::error_text(e, state.layout@, max_wire as nat),
                    ),
                ),
                Ok(layout) => match offer_error(layout, state@, stored.sizes_fit@) {
                    Some(e) => Err(e),
                    None => Ok(
                        CandidateModel {
                            id: stored.id@,
                            name: stored.name@,
                            cwd: stored.cwd@,
                            layout,
                            tabs: state@.tabs,
                            panes: state@.panes,
                            focused_tab: state@.focused_tab,
                            focused_pane: state@.focused_pane,
                        },
                    ),
                },
            }
        },
    }
}

fn has_empty(list: &Vec<String>) -> (found: bool)
    ensures
        found == !none_empty(text::texts(list@)),
{
    let ghost all = text::texts(list@);
    let mut i: usize = 0;
    while i < list.len()
        invariant
            i <= list.len(),
            all == text::texts(list@),
            forall|j: int| 0 <= j < i ==> (#[trigger] all[j]).len() > 0,
        decreases list.len() - i,
    {
        assert(all[i as int] == list@[i as int]@);
        if list[i].as_str().is_empty() {
            return true;
        }
        i = i + 1;
    }
    false
}

fn do_sizes_fit(fit: &Vec<bool>, count: usize) -> (yes: bool)
    ensures
        yes == sizes_fit(fit@, count as int),
{
    let mut i: usize = 0;
    while i < count
        invariant
            i <= count,
            sizes_fit(fit@, i as int),
        decreases count - i,
    {
        if i >= fit.len() || !fit[i] {
            proof {
                assert(!fits_at(fit@, i as int));
            }
            return false;
        }
        proof {
            assert(fits_at(fit@, i as int));
        }
        i = i + 1;
    }
    true
}

fn find_offer_error(layout: &LayoutTree, state: &PersistedSessionState, fit: &Vec<bool>) -> (found:
    Option<RecoveryError>)
    ensures
        match found {
            Some(e) => offer_error(layout@, state@, fit@) == Some(e@),
            None => offer_error(layout@, state@, fit@) is None,
        },
{
    let shown: Vec<String> = layout.pane_ids();
    let ids: Vec<String> = pane_id_list(&state.panes);
    let tabs: Vec<String> = tab_id_list(&state.tabs);
    if shown.len() == 0 || has_empty(&shown) {
        return Some(RecoveryError::NoPanes);
    }
    if !all_different(&ids) {
        return Some(RecoveryError::DuplicatePanes);
    }
    if has_empty(&ids) || !do_sizes_fit(fit, state.panes.len()) {
        return Some(RecoveryError::InvalidPaneSize);
    }
    if !same_in_any_order(&shown, &ids) {
        return Some(RecoveryError::LayoutMismatch);
    }
    if has_empty(&tabs) || !all_different(&tabs) {
        return Some(RecoveryError::InvalidTabIds);
    }
    if !tabs_known(&state.tabs, &ids) {
        return Some(RecoveryError::UnknownTabPane);
    }
    if !every_pane_listed(&state.tabs, &ids) {
        return Some(RecoveryError::UnassignedPane);
    }
    match &state.focused_tab {
        Some(tab) => {
            if !contains_text(&tabs, tab.as_str()) {
                return Some(RecoveryError::InvalidFocusedTab);
            }
        },
        None => {},
    }
    match &state.focused_pane {
        Some(pane) => {
            if !contains_text(&ids, pane.as_str()) {
                return Some(RecoveryError::InvalidFocusedPane);
            }
        },
        None => {},
    }
    None
}

/// What a result holds.
pub open spec fn candidate_result(result: Result<RecoveryCandidate, RecoveryError>) -> Result<
    CandidateModel,
    RecoveryErrorModel,
> {
    match result {
        Ok(candidate) => Ok(candidate@),
        Err(e) => Err(e@),
    }
}

/// Checks a session that was saved before it is offered.
pub fn recovery_candidate(stored: StoredSession, max_wire: usize) -> (result: Result<
    RecoveryCandidate,
    RecoveryError,
>)
    ensures
        candidate_result(result) == offered(stored, max_wire as int),
{
    let state: PersistedSessionState = match stored.state {
        StoredState::Nothing => {
            return Err(RecoveryError::NoLayout);
        },
        StoredState::Unreadable(detail) => {
            return Err(RecoveryError::Unreadable(detail));
        },
        StoredState::Incomplete { version, detail } => {
            if version != RECOVERY_FORMAT_VERSION {
                return Err(RecoveryError::UnsupportedVersion(version));
            }
            return Err(RecoveryError::Unreadable(detail));
        },
        StoredState::State(state) => state,
    };
    if state.version != RECOVERY_FORMAT_VERSION {
        return Err(RecoveryError::UnsupportedVersion(state.version));
    }
    let layout: LayoutTree = match LayoutTree::from_persisted(&state.layout, max_wire) {
        Ok(layout) => layout,
        Err(e) => {
            return Err(
                RecoveryError::Unreadable(error_message(e, &state.layout, max_wire)),
            );
        },
    };
    match find_offer_error(&layout, &state, &stored.sizes_fit) {
        Some(e) => {
            return Err(e);
        },
        None => {},
    }
    Ok(
        RecoveryCandidate {
            id: stored.id,
            name: stored.name,
            cwd: stored.cwd,
            layout,
            tabs: state.tabs,
            panes: state.panes,
            focused_tab: state.focused_tab,
            focused_pane: state.focused_pane,
        },
    )
}

/// The sessions that can be got back, and what is said of those that cannot.
#[derive(Debug)]
pub struct RecoveryScan {
    pub candidates: Vec<RecoveryCandidate>,
    pub rejected: Vec<String>,
}

/// What a list of candidates holds.
pub open spec fn candidate_models(candidates: Seq<RecoveryCandidate>) -> Seq<CandidateModel> {
    candidates.map_values(|c: RecoveryCandidate| c@)
}

/// The sessions that can be got back among those that were saved.
pub open spec fn all_offered(stored: Seq<StoredSession>, max_wire: int) -> Seq<CandidateModel>
    decreases stored.len(),
{
    if stored.len() == 0 {
        Seq::empty()
    } else {
        let before = all_offered(stored.drop_last(), max_wire);
        match offered(stored.last(), max_wire) {
            Ok(candidate) => before.push(candidate),
            Err(_) => before,
        }
    }
}

/// What is said of those that cannot.
pub open spec fn all_rejected(stored: Seq<StoredSession>, max_wire: int) -> Seq<Seq<char>>
    decreases stored.len(),
{
    if stored.len() == 0 {
        Seq::empty()
    } else {
        let before = all_rejected(stored.drop_last(), max_wire);
        match offered(stored.last(), max_wire) {
            Ok(_) => before,
            Err(e) => before.push(recovery_error_text(e, stored.last().id@)),
        }
    }
}

/// Checks the sessions that were saved, one by one.
pub fn recovery_candidates(stored: Vec<StoredSession>, max_wire: usize) -> (scan: RecoveryScan)
    ensures
        candidate_models(scan.candidates@) == all_offered(stored@, max_wire as int),
        text::texts(scan.rejected@) == all_rejected(stored@, max_wire as int),
    decreases stored@.len(),
{
    let mut rest: Vec<StoredSession> = stored;
    let ghost all = rest@;
    match rest.pop() {
        None => {
            let scan = RecoveryScan { candidates: Vec::new(), rejected: Vec::new() };
            proof {
                assert(candidate_models(scan.candidates@) =~= Seq::<CandidateModel>::empty());
                assert(text::texts(scan.rejected@) =~= Seq::<Seq<char>>::empty());
            }
            scan
        },
        Some(last) => {
            assert(all.last() == last);
            assert(rest@ =~= all.drop_last());
            let mut scan: RecoveryScan = recovery_candidates(rest, max_wire);
            let id: String = last.id.clone();
            match recovery_candidate(last, max_wire) {
                Ok(candidate) => {
                    let ghost before = scan.candidates@;
                    scan.candidates.push(candidate);
                    assert(candidate_models(scan.candidates@) =~= candidate_models(before).push(
                        candidate@,
                    ));
                },
                Err(e) => {
                    let line: String = e.message(id.as_str());
                    proof {
                        text::lemma_texts_push(scan.rejected@, line);
                    }
                    scan.rejected.push(line);
                },
            }
            scan
        },
    }
}

/// A pane is saved with its identifier, directory, title and size.
pub proof fn law_saved_panes_keep_their_facts(p: PaneModel)
    ensures
        saved_pane(p).id == p.id,
        saved_pane(p).cwd == p.cwd,
        saved_pane(p).title == p.title,
        saved_pane(p).cols == p.cols,
        saved_pane(p).rows == p.rows,
{
}

/// A session is saved with all its tabs and panes, each as it is, with its
/// layout and with what is focused, under its own identifier, name and
/// directory.
pub proof fn law_saved_sessions_keep_everything(s: SessionModel, tab: TabModel, pane: SavedPane)
    ensures
        ({
            let row = row_of(s);
            let saved = row.state;
            &&& row.id == s.id && row.name == s.name && row.cwd == s.cwd
            &&& saved.version == 2
            &&& saved.layout == layout_persist::flat(s.layout, 0)
            &&& saved.tabs.len() == s.tabs.len()
            &&& saved.tabs.contains(tab) <==> s.tabs.contains(tab)
            &&& text_order::is_ordered(saved.tabs)
            &&& saved.panes.len() == s.panes.len()
            &&& saved.panes.contains(pane) <==> exists|i: int|
                0 <= i < s.panes.len() && saved_pane(#[trigger] s.panes[i]) == pane
            &&& text_order::is_ordered(saved.panes)
            &&& saved.focused_tab == s.focused_tab && saved.focused_pane == s.focused_pane
        }),
{
    let panes = s.panes.map_values(|p: PaneModel| saved_pane(p));
    text_order::law_order_keeps_everything(s.tabs, tab);
    text_order::law_order_keeps_everything(panes, pane);
    text_order::law_order_is_kept(s.tabs);
    text_order::law_order_is_kept(panes);
    if panes.contains(pane) {
        let k = choose|k: int| 0 <= k < panes.len() && panes[k] == pane;
        assert(saved_pane(s.panes[k]) == pane);
    }
    if exists|i: int| 0 <= i < s.panes.len() && saved_pane(#[trigger] s.panes[i]) == pane {
        let k = choose|k: int| 0 <= k < s.panes.len() && saved_pane(#[trigger] s.panes[k]) == pane;
        assert(panes[k] == pane);
    }
}

/// A session can be saved just where its layout shows its panes, its tabs list
/// just these, and what is focused is there; and what is said of one that cannot
/// be saved is the first of these that does not hold.
pub proof fn law_only_whole_sessions_are_saved(
    layout: NodeModel,
    tabs: Seq<TabModel>,
    ids: Seq<Seq<char>>,
    focused_tab: Option<Seq<char>>,
    focused_pane: Option<Seq<char>>,
)
    ensures
        ({
            let found = misfit(layout, tabs, ids, focused_tab, focused_pane);
            let shown = layout_model::pane_ids(layout).to_multiset() == ids.to_multiset();
            let known = forall|i: int, j: int|
                0 <= i < tabs.len() && 0 <= j < tabs[i].pane_ids.len() ==> ids.contains(
                    #[trigger] tabs[i].pane_ids[j],
                );
            let listed = forall|k: int| 0 <= k < ids.len() ==> is_listed(tabs, #[trigger] ids[k]);
            let tab_there = focused_tab is Some ==> exists|i: int|
                0 <= i < tabs.len() && (#[trigger] tabs[i]).id == focused_tab->0;
            let pane_there = focused_pane is Some ==> ids.contains(focused_pane->0);
            &&& found is None <==> shown && known && listed && tab_there && pane_there
            &&& !shown ==> found == Some(SaveError::LayoutMismatch)
            &&& shown && !known ==> found == Some(SaveError::UnknownTabPane)
            &&& shown && known && !listed ==> found == Some(SaveError::UnassignedPane)
            &&& shown && known && listed && !tab_there ==> found == Some(
                SaveError::InvalidFocusedTab,
            )
            &&& shown && known && listed && tab_there && !pane_there ==> found == Some(
                SaveError::InvalidFocusedPane,
            )
        }),
{
    let keys = session::tab_keys(tabs);
    if let Some(tab) = focused_tab {
        if keys.contains(tab) {
            let k = choose|k: int| 0 <= k < keys.len() && keys[k] == tab;
            assert(tabs[k].id == tab);
        }
        if exists|i: int| 0 <= i < tabs.len() && (#[trigger] tabs[i]).id == tab {
            let k = choose|k: int| 0 <= k < tabs.len() && (#[trigger] tabs[k]).id == tab;
            assert(keys[k] == tab);
        }
    }
}

/// A pane is listed just where one of the tabs names it.
pub proof fn law_tabs_list_what_they_name(tabs: Seq<TabModel>, i: int, j: int)
    requires
        0 <= i < tabs.len(),
        0 <= j < tabs[i].pane_ids.len(),
    ensures
        is_listed(tabs, tabs[i].pane_ids[j]),
        forall|pane: Seq<char>| #[trigger]
            is_listed(tabs, pane) ==> exists|k: int|
                0 <= k < tabs.len() && (#[trigger] tabs[k]).pane_ids.contains(pane),
{
    assert(tabs[i].pane_ids.contains(tabs[i].pane_ids[j]));
}

/// The sessions are saved up to the first one that cannot be.
pub proof fn law_sessions_are_saved_up_to_a_failure(r: Seq<SessionModel>, k: int)
    requires
        0 <= k <= r.len(),
    ensures
        k <= first_unsaved(r, k) <= r.len(),
        first_unsaved(r, k) < r.len() ==> save_error(r[first_unsaved(r, k)]) is Some,
        forall|i: int| k <= i < first_unsaved(r, k) ==> save_error(#[trigger] r[i]) is None,
    decreases r.len() - k,
{
    if k < r.len() && save_error(r[k]) is None {
        law_sessions_are_saved_up_to_a_failure(r, k + 1);
    }
}

/// The test for saved sessions that can be offered.
pub open spec fn can_be_offered(max_wire: int) -> spec_fn(StoredSession) -> bool {
    |stored: StoredSession| offered(stored, max_wire) is Ok
}

/// Every saved session is offered or rejected: those that can be offered are, in
/// their order, and of each other one it is said why.
pub proof fn law_every_saved_session_is_answered_for(stored: Seq<StoredSession>, max_wire: int)
    ensures
        ({
            let good = stored.filter(can_be_offered(max_wire));
            &&& all_offered(stored, max_wire).len() == good.len()
            &&& forall|i: int|
                0 <= i < good.len() ==> #[trigger] all_offered(stored, max_wire)[i] == offered(
                    good[i],
                    max_wire,
                )->Ok_0
            &&& all_offered(stored, max_wire).len() + all_rejected(stored, max_wire).len()
                == stored.len()
        }),
    decreases stored.len(),
{
    reveal(Seq::filter);
    if stored.len() > 0 {
        let init = stored.drop_last();
        law_every_saved_session_is_answered_for(init, max_wire);
        let good = stored.filter(can_be_offered(max_wire));
        let before = init.filter(can_be_offered(max_wire));
        let all = all_offered(stored, max_wire);
        assert forall|i: int| 0 <= i < good.len() implies #[trigger] all[i] == offered(
            good[i],
            max_wire,
        )->Ok_0 by {
            if i < before.len() {
                assert(all[i] == all_offered(init, max_wire)[i]);
                assert(good[i] == before[i]);
            }
        }
    }
}

/// A session that was saved is offered just where its layout shows panes with
/// identifiers, its own and each of them once and of a size that fits, its tabs
/// have identifiers of their own and list just these panes, and what is focused
/// is there.
pub proof fn law_only_whole_sessions_are_offered(
    layout: NodeModel,
    saved: SavedSession,
    fit: Seq<bool>,
)
    ensures
        ({
            let shown = layout_model::pane_ids(layout);
            let ids = saved_ids(saved.panes);
            let tabs = saved.tabs;
            offer_error(layout, saved, fit) is None <==> {
                &&& shown.len() > 0
                &&& forall|i: int| 0 <= i < shown.len() ==> (#[trigger] shown[i]).len() > 0
                &&& forall|i: int| 0 <= i < ids.len() ==> (#[trigger] ids[i]).len() > 0
                &&& forall|i: int, j: int|
                    0 <= i < j < ids.len() ==> #[trigger] ids[i] != #[trigger] ids[j]
                &&& forall|i: int|
                    0 <= i < saved.panes.len() ==> #[trigger] fits_at(fit, i)
                &&& shown.to_multiset() == ids.to_multiset()
                &&& forall|i: int| 0 <= i < tabs.len() ==> (#[trigger] tabs[i]).id.len() > 0
                &&& forall|i: int, j: int|
                    0 <= i < j < tabs.len() ==> (#[trigger] tabs[i]).id != (#[trigger] tabs[j]).id
                &&& forall|i: int, j: int|
                    0 <= i < tabs.len() && 0 <= j < tabs[i].pane_ids.len() ==> ids.contains(
                        #[trigger] tabs[i].pane_ids[j],
                    )
                &&& forall|k: int| 0 <= k < ids.len() ==> is_listed(tabs, #[trigger] ids[k])
                &&& saved.focused_tab is Some ==> exists|i: int|
                    0 <= i < tabs.len() && (#[trigger] tabs[i]).id == saved.focused_tab->0
                &&& saved.focused_pane is Some ==> ids.contains(saved.focused_pane->0)
            }
        }),
{
    let tabs = saved.tabs;
    let keys = session::tab_keys(tabs);
    assert(keys.len() == tabs.len());
    assert forall|i: int| 0 <= i < tabs.len() implies (#[trigger] keys[i]) == tabs[i].id by {}
    assert forall|i: int| 0 <= i < tabs.len() implies (#[trigger] tabs[i]).id == keys[i] by {}
    if let Some(tab) = saved.focused_tab {
        if keys.contains(tab) {
            let k = choose|k: int| 0 <= k < keys.len() && keys[k] == tab;
            assert(tabs[k].id == tab);
        }
        if exists|i: int| 0 <= i < tabs.len() && (#[trigger] tabs[i]).id == tab {
            let k = choose|k: int| 0 <= k < tabs.len() && (#[trigger] tabs[k]).id == tab;
            assert(keys[k] == tab);
        }
    }
}

/// The size of a pane fits where it was found to.
pub proof fn law_sizes_fit_where_they_were_found_to(fit: Seq<bool>, i: int)
    requires
        0 <= i,
    ensures
        i < fit.len() ==> fits_at(fit, i) == fit[i],
        i >= fit.len() ==> !fits_at(fit, i),
{
}

} // verus!
