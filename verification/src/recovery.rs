//! Getting back sessions that were saved.
use crate::layout::SplitDirection;
use crate::layout_model;
use crate::layout_model::NodeModel;
use crate::layout_laws;
use crate::layout_persist;
use crate::layout_persist::MAX_PERSISTED_LAYOUT_NODES;
use crate::pane_requests;
use crate::pane_requests::put_pane;
use crate::persistence;
use crate::persistence::{
    find_misfit, tab_id_list, CandidateModel, PersistedPane, RecoveryCandidate, SaveError,
    SavedPane, StoredSession, StoredState,
};
use crate::registry;
use crate::registry::{find_session, tell, Notice, Notification, NotificationModel};
use crate::session;
use crate::session::{
    copy_tab, put_tab, PaneModel, PaneRecord, Session, SessionModel, SyncModel, Tab, TabModel,
};
use crate::text;
use crate::text::{contains_text, joined, remove_text, same_text};
use crate::text_order;
use vstd::prelude::*;
use vstd::string::*;

verus! {

/// A session that is offered.
#[derive(Debug)]
pub struct RecoveryCandidateInfo {
    pub id: String,
    pub name: String,
    pub cwd: String,
    /// Whether all of its tabs and panes are known.
    pub metadata_complete: bool,
    pub pane_ids: Vec<String>,
}

/// A session that is offered.
pub struct OfferModel {
    pub id: Seq<char>,
    pub name: Seq<char>,
    pub cwd: Seq<char>,
    pub metadata_complete: bool,
    pub pane_ids: Seq<Seq<char>>,
}

impl View for RecoveryCandidateInfo {
    type V = OfferModel;

    open spec fn view(&self) -> OfferModel {
        OfferModel {
            id: self.id@,
            name: self.name@,
            cwd: self.cwd@,
            metadata_complete: self.metadata_complete,
            pane_ids: text::texts(self.pane_ids@),
        }
    }
}

/// What is told of a candidate.
pub open spec fn offer_of(c: CandidateModel) -> OfferModel {
    OfferModel {
        id: c.id,
        name: c.name,
        cwd: c.cwd,
        metadata_complete: true,
        pane_ids: layout_model::pane_ids(c.layout),
    }
}

/// Whether a session is there.
pub open spec fn is_live(r: Seq<SessionModel>, id: Seq<char>) -> bool {
    registry::session_index(r, id, 0) < r.len()
}

/// The candidates that are not there already.
pub open spec fn offers(candidates: Seq<CandidateModel>, r: Seq<SessionModel>) -> Seq<OfferModel>
    decreases candidates.len(),
{
    if candidates.len() == 0 {
        Seq::empty()
    } else {
        let before = offers(candidates.drop_last(), r);
        if is_live(r, candidates.last().id) {
            before
        } else {
            before.push(offer_of(candidates.last()))
        }
    }
}

/// Lists the sessions that can be got back and are not there already.
pub fn list_recovery_candidates(candidates: &Vec<RecoveryCandidate>, sessions: &Vec<Session>) -> (
    infos: Vec<RecoveryCandidateInfo>)
    ensures
        infos@.map_values(|i: RecoveryCandidateInfo| i@) == offers(
            persistence::candidate_models(candidates@),
            registry::registry(sessions@),
        ),
{
    let ghost all = persistence::candidate_models(candidates@);
    let ghost r = registry::registry(sessions@);
    let mut infos: Vec<RecoveryCandidateInfo> = Vec::new();
    let mut i: usize = 0;
    proof {
        assert(infos@.map_values(|i: RecoveryCandidateInfo| i@) =~= offers(all.take(0), r));
    }
    while i < candidates.len()
        invariant
            i <= candidates.len(),
            all == persistence::candidate_models(candidates@),
            r == registry::registry(sessions@),
            infos@.map_values(|i: RecoveryCandidateInfo| i@) == offers(all.take(i as int), r),
        decreases candidates.len() - i,
    {
        let candidate = &candidates[i];
        proof {
            assert(all.take(i + 1).drop_last() =~= all.take(i as int));
            assert(all.take(i + 1).last() == candidate@);
            registry::lemma_session_index(r, candidate.id@, 0);
        }
        let k: usize = find_session(sessions, candidate.id.as_str());
        if k >= sessions.len() {
            let info = RecoveryCandidateInfo {
                id: candidate.id.clone(),
                name: candidate.name.clone(),
                cwd: candidate.cwd.clone(),
                metadata_complete: true,
                pane_ids: candidate.layout.pane_ids(),
            };
            let ghost before = infos@;
            infos.push(info);
            assert(infos@.map_values(|i: RecoveryCandidateInfo| i@) =~= before.map_values(
                |i: RecoveryCandidateInfo| i@,
            ).push(info@));
        }
        i = i + 1;
    }
    assert(all.take(i as int) =~= all);
    infos
}

/// Why a session is not got back.
#[derive(Clone, Copy, Debug, PartialEq, Eq, Structural)]
pub enum ConfirmError {
    NotFound,
    AlreadyLive,
    InProgress,
    /// The parts of the session do not fit together.
    Misfit(SaveError),
    BecameLive,
}

/// What is said of a session that is not got back.
pub open spec fn confirm_error_text(error: ConfirmError, id: Seq<char>) -> Seq<char> {
    match error {
        ConfirmError::NotFound => "recovery candidate not found: "@ + id,
        ConfirmError::AlreadyLive => "session already live: "@ + id,
        ConfirmError::InProgress => "session recovery already in progress: "@ + id,
        ConfirmError::Misfit(misfit) => match misfit {
            SaveError::LayoutMismatch => "recovered layout does not match panes"@,
            SaveError::UnknownTabPane => "recovered tab references an unknown pane"@,
            SaveError::UnassignedPane => "recovered pane is not assigned to a tab"@,
            SaveError::InvalidFocusedTab => "invalid focused tab"@,
            SaveError::InvalidFocusedPane => "invalid focused pane"@,
        },
        ConfirmError::BecameLive => "session became live while recovery was in progress: "@ + id,
    }
}

impl ConfirmError {
    /// Says why a session is not got back.
    pub fn message(self, id: &str) -> (message: String)
        ensures
            message@ == confirm_error_text(self, id@),
    {
        match self {
            ConfirmError::NotFound => joined("recovery candidate not found: ", id),
            ConfirmError::AlreadyLive => joined("session already live: ", id),
            ConfirmError::InProgress => joined("session recovery already in progress: ", id),
            ConfirmError::Misfit(SaveError::LayoutMismatch) =>
                "recovered layout does not match panes".to_owned(),
            ConfirmError::Misfit(SaveError::UnknownTabPane) =>
                "recovered tab references an unknown pane".to_owned(),
            ConfirmError::Misfit(SaveError::UnassignedPane) =>
                "recovered pane is not assigned to a tab".to_owned(),
            ConfirmError::Misfit(SaveError::InvalidFocusedTab) => "invalid focused tab".to_owned(),
            ConfirmError::Misfit(SaveError::InvalidFocusedPane) =>
                "invalid focused pane".to_owned(),
            ConfirmError::BecameLive => joined(
                "session became live while recovery was in progress: ",
                id,
            ),
        }
    }
}

/// The place of the first candidate of an identifier, from `k` on.
pub open spec fn candidate_index(c: Seq<CandidateModel>, id: Seq<char>, k: int) -> int
    decreases c.len() - k,
{
    if k >= c.len() {
        c.len() as int
    } else if c[k].id == id {
        k
    } else {
        candidate_index(c, id, k + 1)
    }
}

/// What keeps the getting back of a session from beginning.
pub open spec fn begin_error(
    c: Seq<CandidateModel>,
    id: Seq<char>,
    r: Seq<SessionModel>,
    reserved: Seq<Seq<char>>,
) -> Option<ConfirmError> {
    if candidate_index(c, id, 0) >= c.len() {
        Some(ConfirmError::NotFound)
    } else if is_live(r, id) {
        Some(ConfirmError::AlreadyLive)
    } else if reserved.contains(id) {
        Some(ConfirmError::InProgress)
    } else {
        None
    }
}

/// Begins to get a session back: it is reserved until that has ended.
pub fn begin_recovery(
    candidates: Vec<RecoveryCandidate>,
    session_id: &str,
    sessions: &Vec<Session>,
    reserved: &mut Vec<String>,
) -> (result: Result<RecoveryCandidate, ConfirmError>)
    ensures
        ({
            let c = persistence::candidate_models(candidates@);
            let error = begin_error(
                c,
                session_id@,
                registry::registry(sessions@),
                text::texts(old(reserved)@),
            );
            match result {
                Ok(candidate) => {
                    &&& error is None
                    &&& candidate@ == c[candidate_index(c, session_id@, 0)]
                    &&& candidate@.id == session_id@
                    &&& text::texts(final(reserved)@) == text::texts(old(reserved)@).push(
                        session_id@,
                    )
                },
                Err(e) => error == Some(e) && final(reserved)@ == old(reserved)@,
            }
        }),
{
    let mut rest: Vec<RecoveryCandidate> = candidates;
    let ghost c = persistence::candidate_models(rest@);
    let ghost r = registry::registry(sessions@);
    let mut i: usize = 0;
    while i < rest.len() && !same_text(rest[i].id.as_str(), session_id)
        invariant
            i <= rest.len(),
            c == persistence::candidate_models(rest@),
            candidate_index(c, session_id@, 0) == candidate_index(c, session_id@, i as int),
        decreases rest.len() - i,
    {
        assert(c[i as int] == rest@[i as int]@);
        i = i + 1;
    }
    if i >= rest.len() {
        return Err(ConfirmError::NotFound);
    }
    assert(c[i as int] == rest@[i as int]@);
    let candidate: RecoveryCandidate = rest.remove(i);
    proof {
        registry::lemma_session_index(r, session_id@, 0);
    }
    if find_session(sessions, session_id) < sessions.len() {
        return Err(ConfirmError::AlreadyLive);
    }
    if contains_text(reserved, session_id) {
        return Err(ConfirmError::InProgress);
    }
    let id: String = session_id.to_owned();
    proof {
        text::lemma_texts_push(reserved@, id);
    }
    reserved.push(id);
    Ok(candidate)
}

/// Ends the getting back of a session, whether it is there now or not.
pub fn end_recovery(session_id: &str, reserved: &mut Vec<String>)
    ensures
        text::texts(final(reserved)@) == text::without(text::texts(old(reserved)@), session_id@),
{
    remove_text(reserved, session_id);
}

/// A pane that is got back: nothing runs in it but a new shell, and it has been
/// given its name.
pub open spec fn fresh_pane(p: SavedPane) -> PaneModel {
    PaneModel {
        id: p.id,
        cwd: p.cwd,
        title: p.title,
        command: None,
        cols: p.cols,
        rows: p.rows,
        generation: 1,
        is_alive: true,
        zoomed: false,
    }
}

/// Panes put among none, one after the other.
pub open spec fn panes_put(panes: Seq<SavedPane>) -> Seq<PaneModel>
    decreases panes.len(),
{
    if panes.len() == 0 {
        Seq::empty()
    } else {
        pane_requests::with_pane(panes_put(panes.drop_last()), fresh_pane(panes.last()))
    }
}

/// Tabs put among none, one after the other.
pub open spec fn tabs_put(tabs: Seq<TabModel>) -> Seq<TabModel>
    decreases tabs.len(),
{
    if tabs.len() == 0 {
        Seq::empty()
    } else {
        session::with_tab(tabs_put(tabs.drop_last()), tabs.last())
    }
}

/// A candidate as a session.
pub open spec fn rebuilt(c: CandidateModel, created_timestamp: u64) -> SessionModel {
    SessionModel {
        id: c.id,
        name: c.name,
        cwd: c.cwd,
        created_timestamp,
        tabs: tabs_put(c.tabs),
        layout: c.layout,
        focused_pane: c.focused_pane,
        focused_tab: c.focused_tab,
        clients: Seq::empty(),
        panes: panes_put(c.panes),
        sync: SyncModel { pane_id: None, scroll_offset: 0, enabled: false },
        windows: Seq::empty(),
        subscribers: Seq::empty(),
    }
}

/// What of a session that was got back does not fit together.
pub open spec fn recovered_misfit(s: SessionModel) -> Option<SaveError> {
    let ids = session::pane_keys(s.panes);
    match persistence::misfit(s.layout, s.tabs, ids, None, None) {
        Some(e) => Some(e),
        None => if s.focused_pane is Some && !ids.contains(s.focused_pane->0) {
            Some(SaveError::InvalidFocusedPane)
        } else if s.focused_tab is Some && !session::tab_keys(s.tabs).contains(s.focused_tab->0) {
            Some(SaveError::InvalidFocusedTab)
        } else {
            None
        },
    }
}

/// Finds out what of a session that was got back does not fit together.
pub fn validate_recovered_session(session: &Session) -> (result: Result<(), SaveError>)
    ensures
        match result {
            Ok(_) => recovered_misfit(session@) is None,
            Err(e) => recovered_misfit(session@) == Some(e),
        },
{
    let ids: Vec<String> = pane_record_ids(&session.panes);
    match find_misfit(&session.layout, &session.tabs, &ids, &None, &None) {
        Some(e) => {
            return Err(e);
        },
        None => {},
    }
    match &session.focused_pane {
        Some(pane) => {
            if !contains_text(&ids, pane.as_str()) {
                return Err(SaveError::InvalidFocusedPane);
            }
        },
        None => {},
    }
    match &session.focused_tab {
        Some(tab) => {
            if !contains_text(&tab_id_list(&session.tabs), tab.as_str()) {
                return Err(SaveError::InvalidFocusedTab);
            }
        },
        None => {},
    }
    Ok(())
}

fn pane_record_ids(panes: &Vec<PaneRecord>) -> (ids: Vec<String>)
    ensures
        text::texts(ids@) == session::pane_keys(session::pane_models(panes@)),
{
    let ghost all = session::pane_keys(session::pane_models(panes@));
    let mut ids: Vec<String> = Vec::new();
    let mut i: usize = 0;
    assert(text::texts(ids@) =~= all.take(0));
    while i < panes.len()
        invariant
            i <= panes.len(),
            all == session::pane_keys(session::pane_models(panes@)),
            text::texts(ids@) == all.take(i as int),
        decreases panes.len() - i,
    {
        let id: String = panes[i].id.clone();
        proof {
            text::lemma_texts_push(ids@, id);
            assert(session::pane_models(panes@)[i as int] == panes@[i as int]@);
            assert(all.take(i + 1) =~= all.take(i as int).push(id@));
        }
        ids.push(id);
        i = i + 1;
    }
    assert(all.take(i as int) =~= all);
    ids
}

fn put_panes(panes: &Vec<PersistedPane>) -> (records: Vec<PaneRecord>)
    ensures
        session::pane_models(records@) == panes_put(persistence::saved_panes(panes@)),
{
    let ghost all = persistence::saved_panes(panes@);
    let mut records: Vec<PaneRecord> = Vec::new();
    let mut i: usize = 0;
    assert(session::pane_models(records@) =~= panes_put(all.take(0)));
    while i < panes.len()
        invariant
            i <= panes.len(),
            all == persistence::saved_panes(panes@),
            session::pane_models(records@) == panes_put(all.take(i as int)),
        decreases panes.len() - i,
    {
        let record = PaneRecord {
            id: panes[i].id.clone(),
            cwd: panes[i].cwd.clone(),
            title: panes[i].title.clone(),
            command: None,
            cols: panes[i].cols,
            rows: panes[i].rows,
            generation: 1,
            is_alive: true,
            zoomed: false,
        };
        proof {
            assert(all.take(i + 1).drop_last() =~= all.take(i as int));
            assert(all.take(i + 1).last() == panes@[i as int]@);
            assert(record@ == fresh_pane(panes@[i as int]@));
        }
        put_pane(&mut records, record);
        i = i + 1;
    }
    assert(all.take(i as int) =~= all);
    records
}

fn put_tabs(tabs: &Vec<Tab>) -> (put: Vec<Tab>)
    ensures
        session::tab_models(put@) == tabs_put(session::tab_models(tabs@)),
{
    let ghost all = session::tab_models(tabs@);
    let mut put: Vec<Tab> = Vec::new();
    let mut i: usize = 0;
    assert(session::tab_models(put@) =~= tabs_put(all.take(0)));
    while i < tabs.len()
        invariant
            i <= tabs.len(),
            all == session::tab_models(tabs@),
            session::tab_models(put@) == tabs_put(all.take(i as int)),
        decreases tabs.len() - i,
    {
        proof {
            assert(all.take(i + 1).drop_last() =~= all.take(i as int));
            assert(all.take(i + 1).last() == tabs@[i as int]@);
        }
        put_tab(&mut put, copy_tab(&tabs[i]));
        i = i + 1;
    }
    assert(all.take(i as int) =~= all);
    put
}

/// What is answered once a session is there again.
#[derive(Debug)]
pub struct RecoveryConfirmed {
    pub session_id: String,
    pub pane_ids: Vec<String>,
    pub notice: Notice,
}

/// What keeps a candidate from being a session again.
pub open spec fn finish_error(c: CandidateModel, r: Seq<SessionModel>, created: u64) -> Option<
    ConfirmError,
> {
    match recovered_misfit(rebuilt(c, created)) {
        Some(e) => Some(ConfirmError::Misfit(e)),
        None => if is_live(r, c.id) {
            Some(ConfirmError::BecameLive)
        } else {
            None
        },
    }
}

/// Makes a candidate a session again, once a shell was started in each of its
/// panes.
pub fn finish_recovery(
    sessions: &mut Vec<Session>,
    candidate: RecoveryCandidate,
    created_timestamp: u64,
) -> (result: Result<RecoveryConfirmed, ConfirmError>)
    ensures
        ({
            let c = candidate@;
            let r = registry::registry(old(sessions)@);
            let error = finish_error(c, r, created_timestamp);
            match result {
                Ok(confirmed) => {
                    &&& error is None
                    &&& registry::registry(final(sessions)@) == r.push(
                        rebuilt(c, created_timestamp),
                    )
                    &&& confirmed.session_id@ == c.id
                    &&& text::texts(confirmed.pane_ids@) == persistence::saved_ids(c.panes)
                    &&& confirmed.notice@ == registry::told(
                        rebuilt(c, created_timestamp),
                        NotificationModel::LayoutChanged { session_id: c.id },
                    )
                },
                Err(e) => error == Some(e) && final(sessions)@ == old(sessions)@,
            }
        }),
{
    let ghost before = sessions@;
    let ghost r = registry::registry(sessions@);
    let ghost c = candidate@;
    let pane_ids: Vec<String> = persistence::pane_id_list(&candidate.panes);
    let mut session = Session::new(
        candidate.id.clone(),
        candidate.name,
        candidate.cwd,
        created_timestamp,
    );
    session.layout = candidate.layout;
    session.focused_tab = candidate.focused_tab;
    session.focused_pane = candidate.focused_pane;
    session.tabs = put_tabs(&candidate.tabs);
    session.panes = put_panes(&candidate.panes);
    assert(session@ == rebuilt(c, created_timestamp));
    match validate_recovered_session(&session) {
        Ok(_) => {},
        Err(e) => {
            return Err(ConfirmError::Misfit(e));
        },
    }
    proof {
        registry::lemma_session_index(r, c.id, 0);
    }
    if find_session(sessions, candidate.id.as_str()) < sessions.len() {
        return Err(ConfirmError::BecameLive);
    }
    let notice: Notice = tell(
        &session,
        Notification::LayoutChanged { session_id: candidate.id.clone() },
    );
    sessions.push(session);
    proof {
        assert(registry::registry(sessions@) =~= r.push(session@));
    }
    Ok(RecoveryConfirmed { session_id: candidate.id, pane_ids, notice })
}

proof fn lemma_panes_put(panes: Seq<SavedPane>)
    requires
        persistence::saved_ids(panes).no_duplicates(),
    ensures
        panes_put(panes) == panes.map_values(|p: SavedPane| fresh_pane(p)),
    decreases panes.len(),
{
    let ids = persistence::saved_ids(panes);
    if panes.len() > 0 {
        let init = panes.drop_last();
        let last = panes.last();
        let before = persistence::saved_ids(init);
        assert(before =~= ids.drop_last());
        assert forall|i: int, j: int|
            0 <= i < before.len() && 0 <= j < before.len() && i != j implies before[i]
            != before[j] by {
            assert(ids[i] == before[i] && ids[j] == before[j]);
        }
        lemma_panes_put(init);
        let put = panes_put(init);
        assert(!session::pane_keys(put).contains(last.id)) by {
            if session::pane_keys(put).contains(last.id) {
                let k = choose|k: int|
                    0 <= k < put.len() && session::pane_keys(put)[k] == last.id;
                assert(ids[k] == init[k].id);
                assert(ids[ids.len() - 1] == last.id);
            }
        }
        assert(panes_put(panes) =~= panes.map_values(|p: SavedPane| fresh_pane(p)));
    } else {
        assert(panes_put(panes) =~= panes.map_values(|p: SavedPane| fresh_pane(p)));
    }
}

proof fn lemma_tabs_put(tabs: Seq<TabModel>)
    requires
        session::tab_keys(tabs).no_duplicates(),
    ensures
        tabs_put(tabs) == tabs,
    decreases tabs.len(),
{
    let ids = session::tab_keys(tabs);
    if tabs.len() > 0 {
        let init = tabs.drop_last();
        let last = tabs.last();
        let before = session::tab_keys(init);
        assert(before =~= ids.drop_last());
        assert forall|i: int, j: int|
            0 <= i < before.len() && 0 <= j < before.len() && i != j implies before[i]
            != before[j] by {
            assert(ids[i] == before[i] && ids[j] == before[j]);
        }
        lemma_tabs_put(init);
        assert(!before.contains(last.id)) by {
            if before.contains(last.id) {
                let k = choose|k: int| 0 <= k < before.len() && before[k] == last.id;
                assert(ids[k] == before[k]);
                assert(ids[ids.len() - 1] == last.id);
            }
        }
        assert(tabs_put(tabs) =~= tabs);
    } else {
        assert(tabs_put(tabs) =~= tabs);
    }
}

/// A session that is offered can be had back: its parts fit together, and it
/// has the tabs and panes that were saved, each pane with nothing but a new
/// shell in it.
pub proof fn law_offered_sessions_come_back(
    stored: StoredSession,
    max_wire: int,
    r: Seq<SessionModel>,
    created: u64,
)
    requires
        persistence::offered(stored, max_wire) is Ok,
        !is_live(r, stored.id@),
    ensures
        ({
            let c = persistence::offered(stored, max_wire)->Ok_0;
            let s = rebuilt(c, created);
            &&& finish_error(c, r, created) is None
            &&& s.tabs == c.tabs
            &&& s.panes == c.panes.map_values(|p: SavedPane| fresh_pane(p))
            &&& s.wf()
        }),
{
    let c = persistence::offered(stored, max_wire)->Ok_0;
    let s = rebuilt(c, created);
    let ids = persistence::saved_ids(c.panes);
    lemma_panes_put(c.panes);
    lemma_tabs_put(c.tabs);
    assert(session::pane_keys(s.panes) =~= ids);
}

proof fn lemma_shaped_panes_named(
    n: NodeModel,
    depth: int,
    wire: int,
    parent: Option<SplitDirection>,
    max_wire: int,
)
    requires
        layout_model::shaped(n, depth, wire, parent, max_wire),
    ensures
        persistence::none_empty(layout_model::pane_ids(n)),
    decreases n,
{
    match n {
        NodeModel::Pane { id, pane_id } => {},
        NodeModel::Split { id, direction, children, ratios } => {
            let below = layout_model::wire_below(wire, parent, direction);
            lemma_forest_panes_named(children, depth + 1, below, direction, max_wire);
        },
    }
}

proof fn lemma_forest_panes_named(
    f: Seq<NodeModel>,
    depth: int,
    wire: int,
    parent: SplitDirection,
    max_wire: int,
)
    requires
        layout_model::forest_shaped(f, depth, wire, parent, max_wire),
    ensures
        persistence::none_empty(layout_model::forest_pane_ids(f)),
    decreases f,
{
    if f.len() > 0 {
        lemma_forest_panes_named(f.drop_last(), depth, wire, parent, max_wire);
        lemma_shaped_panes_named(f.last(), depth, wire, Some(parent), max_wire);
        let a = layout_model::forest_pane_ids(f.drop_last());
        let b = layout_model::pane_ids(f.last());
        assert forall|i: int| 0 <= i < (a + b).len() implies (#[trigger] (a + b)[i]).len() > 0 by {
            if i < a.len() {
                assert((a + b)[i] == a[i]);
            } else {
                assert((a + b)[i] == b[i - a.len()]);
            }
        }
    }
}

/// The candidate that is made of a session that was saved.
pub open spec fn candidate_of(s: SessionModel) -> CandidateModel {
    let saved = persistence::saved_session(s);
    CandidateModel {
        id: s.id,
        name: s.name,
        cwd: s.cwd,
        layout: s.layout,
        tabs: saved.tabs,
        panes: saved.panes,
        focused_tab: s.focused_tab,
        focused_pane: s.focused_pane,
    }
}

/// A session with panes that was saved is offered, with the very layout, tabs
/// and panes that it had and the same focus.
pub proof fn law_saved_sessions_are_offered(
    s: SessionModel,
    stored: StoredSession,
    state: persistence::PersistedSessionState,
    max_wire: int,
)
    requires
        0 <= max_wire,
        s.wf(),
        layout_model::sound(s.layout, max_wire),
        layout_persist::size(s.layout) <= MAX_PERSISTED_LAYOUT_NODES,
        persistence::none_empty(session::tab_keys(s.tabs)),
        persistence::save_error(s) is None,
        stored.id@ == s.id,
        stored.name@ == s.name,
        stored.cwd@ == s.cwd,
        stored.state == StoredState::State(state),
        state@ == persistence::saved_session(s),
        persistence::sizes_fit(stored.sizes_fit@, s.panes.len() as int),
    ensures
        persistence::offered(stored, max_wire) == Ok::<
            CandidateModel,
            persistence::RecoveryErrorModel,
        >(candidate_of(s)),
{
    let saved = persistence::saved_session(s);
    let shown = layout_model::pane_ids(s.layout);
    let ids = persistence::saved_ids(saved.panes);
    let all = s.panes.map_values(|p: PaneModel| persistence::saved_pane(p));
    layout_laws::law_loading_undoes_saving(s.layout, max_wire);
    layout_model::law_sound_tree_has_a_pane(s.layout, max_wire);
    lemma_shaped_panes_named(s.layout, 0, 0, None, max_wire);
    text_order::lemma_same_texts(shown, ids);
    assert forall|i: int| 0 <= i < ids.len() implies (#[trigger] ids[i]).len() > 0 by {
        assert(ids.contains(ids[i]));
        assert(shown.contains(ids[i]));
        let k = choose|k: int| 0 <= k < shown.len() && shown[k] == ids[i];
        assert(shown[k].len() > 0);
    }
    if all.len() > 0 {
        text_order::law_order_keeps_everything(all, all[0]);
    }
    assert(saved.panes.len() == s.panes.len());
    text_order::law_order_keeps_keys(s.tabs);
    assert(text_order::keys(s.tabs) =~= session::tab_keys(s.tabs));
    assert(text_order::keys(saved.tabs) =~= session::tab_keys(saved.tabs));
    text_order::lemma_same_texts(session::tab_keys(s.tabs), session::tab_keys(saved.tabs));
    let tabs = session::tab_keys(saved.tabs);
    assert forall|i: int| 0 <= i < tabs.len() implies (#[trigger] tabs[i]).len() > 0 by {
        assert(tabs.contains(tabs[i]));
        assert(session::tab_keys(s.tabs).contains(tabs[i]));
        let k = choose|k: int|
            0 <= k < s.tabs.len() && session::tab_keys(s.tabs)[k] == tabs[i];
        assert(session::tab_keys(s.tabs)[k].len() > 0);
    }
    assert(persistence::offer_error(s.layout, state@, stored.sizes_fit@) is None);
}

/// While a session is being got back nobody else gets it back; once that has
/// ended it is as free as before.
pub proof fn law_one_recovery_at_a_time(
    c: Seq<CandidateModel>,
    id: Seq<char>,
    r: Seq<SessionModel>,
    reserved: Seq<Seq<char>>,
)
    requires
        begin_error(c, id, r, reserved) is None,
    ensures
        begin_error(c, id, r, reserved.push(id)) == Some(ConfirmError::InProgress),
        begin_error(c, id, r, text::without(reserved.push(id), id)) is None,
{
    let more = reserved.push(id);
    assert(more[more.len() - 1] == id);
    text::lemma_without(more, id, id);
}

/// What is offered of a saved session: who it is, where it worked, and the panes
/// that its layout shows, in their order.
pub proof fn law_offers_name_the_session(c: CandidateModel)
    ensures
        offer_of(c).id == c.id,
        offer_of(c).name == c.name,
        offer_of(c).cwd == c.cwd,
        offer_of(c).pane_ids == layout_model::pane_ids(c.layout),
        offer_of(c).metadata_complete,
{
}

/// The test for saved sessions that do not run.
pub open spec fn not_running(r: Seq<SessionModel>) -> spec_fn(CandidateModel) -> bool {
    |c: CandidateModel|
        forall|i: int| 0 <= i < r.len() ==> (#[trigger] r[i]).id != c.id
}

proof fn lemma_is_live(r: Seq<SessionModel>, id: Seq<char>)
    ensures
        is_live(r, id) <==> exists|i: int| 0 <= i < r.len() && (#[trigger] r[i]).id == id,
{
    registry::law_first_session_is_found(r, id);
    if exists|i: int| 0 <= i < r.len() && (#[trigger] r[i]).id == id {
        let i = choose|i: int| 0 <= i < r.len() && (#[trigger] r[i]).id == id;
        assert(registry::session_index(r, id, 0) <= i);
    }
}

/// The saved sessions that do not run are offered, in their order, and no other.
pub proof fn law_sessions_that_run_are_not_offered(
    candidates: Seq<CandidateModel>,
    r: Seq<SessionModel>,
)
    ensures
        ({
            let idle = candidates.filter(not_running(r));
            &&& offers(candidates, r).len() == idle.len()
            &&& forall|i: int|
                0 <= i < idle.len() ==> #[trigger] offers(candidates, r)[i] == offer_of(idle[i])
        }),
    decreases candidates.len(),
{
    reveal(Seq::filter);
    if candidates.len() > 0 {
        let init = candidates.drop_last();
        law_sessions_that_run_are_not_offered(init, r);
        lemma_is_live(r, candidates.last().id);
        assert(not_running(r)(candidates.last()) <==> !is_live(r, candidates.last().id));
        let idle = candidates.filter(not_running(r));
        let before = init.filter(not_running(r));
        let all = offers(candidates, r);
        assert forall|i: int| 0 <= i < idle.len() implies #[trigger] all[i] == offer_of(idle[i]) by {
            if i < before.len() {
                assert(all[i] == offers(init, r)[i]);
                assert(idle[i] == before[i]);
            }
        }
    }
}

proof fn lemma_candidate_found(c: Seq<CandidateModel>, id: Seq<char>, k: int)
    requires
        0 <= k <= c.len(),
    ensures
        k <= candidate_index(c, id, k) <= c.len(),
        candidate_index(c, id, k) < c.len() ==> c[candidate_index(c, id, k)].id == id,
        forall|i: int| k <= i < candidate_index(c, id, k) ==> (#[trigger] c[i]).id != id,
    decreases c.len() - k,
{
    if k < c.len() && c[k].id != id {
        lemma_candidate_found(c, id, k + 1);
    }
}

/// A recovery begins just where the session was saved, does not run, and is not
/// being recovered; what is said otherwise is the first of these that fails. The
/// session that is taken is the first one saved under its identifier.
pub proof fn law_saved_idle_sessions_can_be_recovered(
    c: Seq<CandidateModel>,
    id: Seq<char>,
    r: Seq<SessionModel>,
    reserved: Seq<Seq<char>>,
)
    ensures
        ({
            let saved = exists|i: int| 0 <= i < c.len() && (#[trigger] c[i]).id == id;
            let live = exists|i: int| 0 <= i < r.len() && (#[trigger] r[i]).id == id;
            let error = begin_error(c, id, r, reserved);
            &&& !saved ==> error == Some(ConfirmError::NotFound)
            &&& saved && live ==> error == Some(ConfirmError::AlreadyLive)
            &&& saved && !live && reserved.contains(id) ==> error == Some(ConfirmError::InProgress)
            &&& saved && !live && !reserved.contains(id) ==> error is None
        }),
        candidate_index(c, id, 0) < c.len() ==> c[candidate_index(c, id, 0)].id == id,
        forall|i: int| 0 <= i < candidate_index(c, id, 0) ==> (#[trigger] c[i]).id != id,
{
    lemma_is_live(r, id);
    lemma_candidate_found(c, id, 0);
    if exists|i: int| 0 <= i < c.len() && (#[trigger] c[i]).id == id {
        let i = choose|i: int| 0 <= i < c.len() && (#[trigger] c[i]).id == id;
        assert(candidate_index(c, id, 0) <= i);
    }
}

/// A session that comes back has its identifier, name, directory and layout and
/// what was focused in it; nobody is attached to it. Its panes have their
/// identifiers, directories, titles and sizes, and run anew.
pub proof fn law_sessions_come_back_as_they_were(c: CandidateModel, created: u64, p: SavedPane)
    ensures
        ({
            let s = rebuilt(c, created);
            &&& s.id == c.id && s.name == c.name && s.cwd == c.cwd
            &&& s.created_timestamp == created
            &&& s.layout == c.layout
            &&& s.focused_pane == c.focused_pane && s.focused_tab == c.focused_tab
            &&& s.clients.len() == 0 && s.windows.len() == 0 && s.subscribers.len() == 0
            &&& !s.sync.enabled && s.sync.pane_id is None
        }),
        ({
            let pane = fresh_pane(p);
            &&& pane.id == p.id && pane.cwd == p.cwd && pane.title == p.title
            &&& pane.cols == p.cols && pane.rows == p.rows
            &&& pane.is_alive && !pane.zoomed && pane.command is None
        }),
{
}

/// A session that is saved and comes back has every pane that it had, with the
/// same identifier, directory, title and size, every tab with its title and its
/// panes, and the same layout and focus.
pub proof fn law_saving_and_recovering_keeps_the_session(
    s: SessionModel,
    stored: StoredSession,
    state: persistence::PersistedSessionState,
    max_wire: int,
    created: u64,
    k: int,
    t: int,
)
    requires
        0 <= max_wire,
        s.wf(),
        layout_model::sound(s.layout, max_wire),
        layout_persist::size(s.layout) <= MAX_PERSISTED_LAYOUT_NODES,
        persistence::none_empty(session::tab_keys(s.tabs)),
        persistence::save_error(s) is None,
        stored.id@ == s.id,
        stored.name@ == s.name,
        stored.cwd@ == s.cwd,
        stored.state == StoredState::State(state),
        state@ == persistence::saved_session(s),
        persistence::sizes_fit(stored.sizes_fit@, s.panes.len() as int),
        0 <= k < s.panes.len(),
        0 <= t < s.tabs.len(),
    ensures
        persistence::offered(stored, max_wire) matches Ok(c) && {
            let back = rebuilt(c, created);
            &&& back.id == s.id && back.name == s.name && back.cwd == s.cwd
            &&& back.layout == s.layout
            &&& back.focused_pane == s.focused_pane && back.focused_tab == s.focused_tab
            &&& back.tabs.len() == s.tabs.len() && back.tabs.contains(s.tabs[t])
            &&& back.panes.len() == s.panes.len()
            &&& exists|j: int|
                0 <= j < back.panes.len() && (#[trigger] back.panes[j]).id == s.panes[k].id
                    && back.panes[j].cwd == s.panes[k].cwd && back.panes[j].title
                    == s.panes[k].title && back.panes[j].cols == s.panes[k].cols
                    && back.panes[j].rows == s.panes[k].rows
        },
{
    law_saved_sessions_are_offered(s, stored, state, max_wire);
    let c = persistence::offered(stored, max_wire)->Ok_0;
    lemma_offered_alone(stored, max_wire, created);
    let back = rebuilt(c, created);
    let own = persistence::saved_pane(s.panes[k]);
    persistence::law_saved_sessions_keep_everything(s, s.tabs[t], own);
    assert(s.tabs.contains(s.tabs[t]));
    assert(persistence::saved_pane(s.panes[k]) == own);
    let j = choose|j: int| 0 <= j < c.panes.len() && c.panes[j] == own;
    assert(back.panes[j] == fresh_pane(c.panes[j]));
    assert(back.panes[j].id == s.panes[k].id);
}

proof fn lemma_offered_alone(stored: StoredSession, max_wire: int, created: u64)
    requires
        persistence::offered(stored, max_wire) is Ok,
    ensures
        ({
            let c = persistence::offered(stored, max_wire)->Ok_0;
            let s = rebuilt(c, created);
            &&& s.tabs == c.tabs
            &&& s.panes == c.panes.map_values(|p: SavedPane| fresh_pane(p))
        }),
{
    law_offered_sessions_come_back(stored, max_wire, Seq::empty(), created);
}

/// What was got back fits together just where its panes and tabs do, and what is
/// focused is there.
pub proof fn law_recovered_sessions_fit_together(s: SessionModel)
    ensures
        ({
            let ids = session::pane_keys(s.panes);
            let whole = persistence::misfit(s.layout, s.tabs, ids, None, None);
            let pane = s.focused_pane is None || ids.contains(s.focused_pane->0);
            let tab = s.focused_tab is None || session::tab_keys(s.tabs).contains(
                s.focused_tab->0,
            );
            &&& whole is Some ==> recovered_misfit(s) == whole
            &&& whole is None && !pane ==> recovered_misfit(s) == Some(
                SaveError::InvalidFocusedPane,
            )
            &&& whole is None && pane && !tab ==> recovered_misfit(s) == Some(
                SaveError::InvalidFocusedTab,
            )
            &&& whole is None && pane && tab ==> recovered_misfit(s) is None
        }),
{
}

/// What is said of a session that is not got back names it, or the part that does
/// not fit.
pub proof fn law_failed_recoveries_are_named(id: Seq<char>)
    ensures
        confirm_error_text(ConfirmError::NotFound, id) == "recovery candidate not found: "@ + id,
        confirm_error_text(ConfirmError::AlreadyLive, id) == "session already live: "@ + id,
        confirm_error_text(ConfirmError::InProgress, id)
            == "session recovery already in progress: "@ + id,
        confirm_error_text(ConfirmError::BecameLive, id)
            == "session became live while recovery was in progress: "@ + id,
        confirm_error_text(ConfirmError::Misfit(SaveError::LayoutMismatch), id)
            == "recovered layout does not match panes"@,
        confirm_error_text(ConfirmError::Misfit(SaveError::UnknownTabPane), id)
            == "recovered tab references an unknown pane"@,
        confirm_error_text(ConfirmError::Misfit(SaveError::UnassignedPane), id)
            == "recovered pane is not assigned to a tab"@,
        confirm_error_text(ConfirmError::Misfit(SaveError::InvalidFocusedTab), id)
            == "invalid focused tab"@,
        confirm_error_text(ConfirmError::Misfit(SaveError::InvalidFocusedPane), id)
            == "invalid focused pane"@,
{
}

} // verus!
