//! Requests about panes: opening, splitting, closing, focusing, naming and
//! resizing them.
use crate::layout;
use crate::layout::{LayoutError, LayoutNode, LayoutTree, SplitDirection};
use crate::layout_model;
use crate::layout_model::NodeModel;
use crate::layout_refusals;
use crate::layout_refusals::{removal_names, resize_names, split_names, LayoutNames};
use crate::ratio::{is_divisible, Ratio};
use crate::pane;
use crate::pane::PaneMetadata;
use crate::registry;
use crate::registry::{
    ensure_mutation_allowed, find_session, tell, HandlerError, Notice, NoticeModel, Notification,
    NotificationModel,
};
use crate::session;
use crate::session::{
    find_tab_of_pane, position_of_pane, position_of_tab, PaneModel, PaneRecord, Session,
    SessionModel, Tab, TabModel,
};
use crate::text;
use crate::text::{contains_text, joined, same_text};
use vstd::prelude::*;

verus! {

/// The first session that shows a pane, from `k` on; their number where none
/// does.
pub open spec fn showing(r: Seq<SessionModel>, pane: Seq<char>, k: int) -> int
    decreases r.len() - k,
{
    if k >= r.len() {
        r.len() as int
    } else if layout_model::holds_pane(r[k].layout, pane) {
        k
    } else {
        showing(r, pane, k + 1)
    }
}

/// The first session that has a pane, from `k` on; their number where none
/// does.
pub open spec fn owning(r: Seq<SessionModel>, pane: Seq<char>, k: int) -> int
    decreases r.len() - k,
{
    if k >= r.len() {
        r.len() as int
    } else if r[k].has_pane(pane) {
        k
    } else {
        owning(r, pane, k + 1)
    }
}

pub proof fn lemma_showing(r: Seq<SessionModel>, pane: Seq<char>, k: int)
    requires
        0 <= k <= r.len(),
    ensures
        k <= showing(r, pane, k) <= r.len(),
        showing(r, pane, k) < r.len() ==> layout_model::holds_pane(
            r[showing(r, pane, k)].layout,
            pane,
        ),
    decreases r.len() - k,
{
    if k < r.len() && !layout_model::holds_pane(r[k].layout, pane) {
        lemma_showing(r, pane, k + 1);
    }
}

pub proof fn lemma_owning(r: Seq<SessionModel>, pane: Seq<char>, k: int)
    requires
        0 <= k <= r.len(),
    ensures
        k <= owning(r, pane, k) <= r.len(),
        owning(r, pane, k) < r.len() ==> r[owning(r, pane, k)].has_pane(pane),
    decreases r.len() - k,
{
    if k < r.len() && !r[k].has_pane(pane) {
        lemma_owning(r, pane, k + 1);
    }
}

fn find_showing(sessions: &Vec<Session>, pane_id: &str) -> (index: usize)
    ensures
        index == showing(registry::registry(sessions@), pane_id@, 0),
        index <= sessions.len(),
{
    let ghost r = registry::registry(sessions@);
    let mut i: usize = 0;
    while i < sessions.len()
        invariant
            i <= sessions.len(),
            r == registry::registry(sessions@),
            showing(r, pane_id@, 0) == showing(r, pane_id@, i as int),
        decreases sessions.len() - i,
    {
        if sessions[i].layout.root.find_pane(pane_id).is_some() {
            return i;
        }
        i = i + 1;
    }
    i
}

/// Finds the first session that has a pane.
pub fn find_owning(sessions: &Vec<Session>, pane_id: &str) -> (index: usize)
    ensures
        index == owning(registry::registry(sessions@), pane_id@, 0),
        index <= sessions.len(),
{
    let ghost r = registry::registry(sessions@);
    let mut i: usize = 0;
    while i < sessions.len()
        invariant
            i <= sessions.len(),
            r == registry::registry(sessions@),
            owning(r, pane_id@, 0) == owning(r, pane_id@, i as int),
        decreases sessions.len() - i,
    {
        if sessions[i].has_pane(pane_id) {
            return i;
        }
        i = i + 1;
    }
    i
}

/// How a new pane is to be started.
#[derive(Debug)]
pub struct SpawnPlan {
    pub cwd: String,
    pub cols: u32,
    pub rows: u32,
}

/// Decides how a new pane is to be started, before anything is started.
pub fn plan_spawn_pane(
    sessions: &Vec<Session>,
    client_id: &Option<String>,
    session_id: &str,
    cwd: &Option<String>,
    size: Option<(u32, u32)>,
) -> (result: Result<SpawnPlan, HandlerError>)
    ensures
        ({
            let r = registry::registry(sessions@);
            let k = registry::session_index(r, session_id@, 0);
            match result {
                Err(e) => if registry::may_mutate(r, text::optional(*client_id)) {
                    k == r.len() && e == HandlerError::SessionNotFound
                } else {
                    e == HandlerError::NotAttached
                },
                Ok(plan) => {
                    &&& registry::may_mutate(r, text::optional(*client_id))
                    &&& k < r.len()
                    &&& plan.cwd@ == match text::optional(*cwd) {
                        Some(path) => path,
                        None => r[k].cwd,
                    }
                    &&& (plan.cols, plan.rows) == match size {
                        Some(given) => given,
                        None => (80u32, 24u32),
                    }
                },
            }
        }),
{
    match ensure_mutation_allowed(sessions, client_id) {
        Err(e) => {
            return Err(e);
        },
        Ok(_) => {},
    }
    proof {
        registry::lemma_session_index(registry::registry(sessions@), session_id@, 0);
    }
    let k: usize = find_session(sessions, session_id);
    if k >= sessions.len() {
        return Err(HandlerError::SessionNotFound);
    }
    let path: String = match cwd {
        Some(path) => path.clone(),
        None => sessions[k].cwd.clone(),
    };
    let (cols, rows): (u32, u32) = match size {
        Some(given) => given,
        None => (80, 24),
    };
    Ok(SpawnPlan { cwd: path, cols, rows })
}

/// The panes with one added, or replaced where its identifier is there.
pub open spec fn with_pane(panes: Seq<PaneModel>, pane: PaneModel) -> Seq<PaneModel> {
    if session::pane_keys(panes).contains(pane.id) {
        panes.map_values(
            |p: PaneModel|
                if p.id == pane.id {
                    pane
                } else {
                    p
                },
        )
    } else {
        panes.push(pane)
    }
}

/// The tabs with a pane listed in the tab of an identifier; the tab is made
/// where it is not there.
pub open spec fn with_pane_in_tab(
    tabs: Seq<TabModel>,
    tab: Seq<char>,
    pane: Seq<char>,
) -> Seq<TabModel> {
    if session::tab_keys(tabs).contains(tab) {
        pane_added_to_tab(tabs, tab, pane)
    } else {
        tabs.push(TabModel { id: tab, title: Seq::empty(), pane_ids: seq![pane] })
    }
}

/// The tabs with a pane listed in the first tab of an identifier.
pub open spec fn pane_added_to_tab(
    tabs: Seq<TabModel>,
    tab: Seq<char>,
    pane: Seq<char>,
) -> Seq<TabModel> {
    let k = tab_index(tabs, tab, 0);
    if k < tabs.len() {
        tabs.update(
            k,
            TabModel { pane_ids: session::with_text(tabs[k].pane_ids, pane), ..tabs[k] },
        )
    } else {
        tabs
    }
}

/// The first tab of an identifier, from `k` on; their number where there is
/// none.
pub open spec fn tab_index(tabs: Seq<TabModel>, tab: Seq<char>, k: int) -> int
    decreases tabs.len() - k,
{
    if k >= tabs.len() {
        tabs.len() as int
    } else if tabs[k].id == tab {
        k
    } else {
        tab_index(tabs, tab, k + 1)
    }
}

proof fn lemma_tab_index(tabs: Seq<TabModel>, tab: Seq<char>, k: int, w: int)
    requires
        0 <= k <= w <= tabs.len(),
        w < tabs.len() ==> tabs[w].id == tab,
        forall|j: int| k <= j < w ==> (#[trigger] tabs[j]).id != tab,
    ensures
        tab_index(tabs, tab, k) == w,
    decreases w - k,
{
    if k < w {
        lemma_tab_index(tabs, tab, k + 1, w);
    }
}

/// The pane beside which a new one goes: the focused one where the layout
/// shows it, else the first one that it shows.
pub open spec fn anchor_of(s: SessionModel) -> Option<Seq<char>> {
    if s.focused_pane is Some && layout_model::holds_pane(s.layout, s.focused_pane->0) {
        s.focused_pane
    } else {
        first_named(layout_model::pane_ids(s.layout))
    }
}

/// The first text that is not empty.
pub open spec fn first_named(list: Seq<Seq<char>>) -> Option<Seq<char>>
    decreases list.len(),
{
    if list.len() == 0 {
        None
    } else {
        match first_named(list.drop_last()) {
            Some(text) => Some(text),
            None => if list.last().len() > 0 {
                Some(list.last())
            } else {
                None
            },
        }
    }
}

/// The layout with a new pane: alone, where nothing was shown, else below the
/// anchor.
pub open spec fn layout_with(s: SessionModel, pane: Seq<char>, max_wire: int) -> Result<
    NodeModel,
    HandlerError,
> {
    if s.layout == layout::empty_model() {
        Ok(NodeModel::Pane { id: "node-"@ + pane, pane_id: pane })
    } else {
        match anchor_of(s) {
            None => Err(HandlerError::NoAnchor),
            Some(anchor) => match layout_model::split_result(
                s.layout,
                anchor,
                pane,
                SplitDirection::TopBottom,
                max_wire,
            ) {
                Ok(layout) => Ok(layout),
                Err(e) => Err(HandlerError::Layout(e)),
            },
        }
    }
}

/// A session with a new pane, given its layout and the tabs.
pub open spec fn session_with_pane(
    s: SessionModel,
    pane: PaneModel,
    layout: NodeModel,
    tab: Seq<char>,
    tabs: Seq<TabModel>,
) -> SessionModel {
    SessionModel {
        layout,
        panes: with_pane(s.panes, pane),
        focused_pane: Some(pane.id),
        focused_tab: Some(tab),
        tabs,
        ..s
    }
}

/// What a session is told of a new pane.
pub open spec fn pane_added_notices(
    s: SessionModel,
    pane: Seq<char>,
    tab: Seq<char>,
) -> Seq<NoticeModel> {
    seq![
        registry::told(s, NotificationModel::PaneAdded { pane_id: pane, tab_id: tab }),
        registry::told(s, NotificationModel::LayoutChanged { session_id: s.id }),
    ]
}

/// What a session is told of a pane that went.
pub open spec fn pane_removed_notices(s: SessionModel, pane: Seq<char>) -> Seq<NoticeModel> {
    seq![
        registry::told(s, NotificationModel::PaneRemoved { pane_id: pane, exit_code: 0 }),
        registry::told(s, NotificationModel::LayoutChanged { session_id: s.id }),
    ]
}

fn two_notices(first: Notice, second: Notice) -> (notices: Vec<Notice>)
    ensures
        registry::notice_models(notices@) == seq![first@, second@],
{
    let mut notices: Vec<Notice> = Vec::new();
    notices.push(first);
    notices.push(second);
    proof {
        assert(registry::notice_models(notices@) =~= seq![first@, second@]);
    }
    notices
}

/// Puts a pane among others, in place of one that has its identifier.
pub fn put_pane(panes: &mut Vec<PaneRecord>, pane: PaneRecord)
    ensures
        session::pane_models(final(panes)@) == with_pane(
            session::pane_models(old(panes)@),
            pane@,
        ),
{
    let ghost before = session::pane_models(panes@);
    if position_of_pane(panes, pane.id.as_str()) < panes.len() {
        let mut i: usize = 0;
        while i < panes.len()
            invariant
                i <= panes.len(),
                panes.len() == before.len(),
                before == session::pane_models(old(panes)@),
                session::pane_keys(before).contains(pane@.id),
                forall|j: int|
                    0 <= j < i ==> (#[trigger] panes@[j])@ == with_pane(before, pane@)[j],
                forall|j: int| i <= j < panes.len() ==> (#[trigger] panes@[j])@ == before[j],
            decreases panes.len() - i,
        {
            if same_text(panes[i].id.as_str(), pane.id.as_str()) {
                let copy = session::copy_pane(&pane);
                panes.set(i, copy);
            }
            i = i + 1;
        }
        proof {
            assert(session::pane_models(panes@) =~= with_pane(before, pane@));
        }
    } else {
        panes.push(pane);
        proof {
            assert(session::pane_models(panes@) =~= before.push(pane@));
        }
    }
}

/// Lists a pane in the first tab of an identifier; says whether it is there.
fn add_to_tab(tabs: &mut Vec<Tab>, tab_id: &str, pane_id: &str) -> (found: bool)
    ensures
        found == session::tab_keys(session::tab_models(old(tabs)@)).contains(tab_id@),
        session::tab_models(final(tabs)@) == pane_added_to_tab(
            session::tab_models(old(tabs)@),
            tab_id@,
            pane_id@,
        ),
{
    let ghost before = session::tab_models(tabs@);
    let k: usize = position_of_tab(tabs, tab_id);
    proof {
        assert forall|j: int| 0 <= j < k implies (#[trigger] before[j]).id != tab_id@ by {
            assert(tabs@[j].id@ != tab_id@);
        }
        if k < tabs.len() {
            assert(before[k as int].id == tabs@[k as int].id@);
        }
        lemma_tab_index(before, tab_id@, 0, k as int);
    }
    if k >= tabs.len() {
        return false;
    }
    if !contains_text(&tabs[k].pane_ids, pane_id) {
        let ghost listed = tabs@[k as int].pane_ids@;
        let name: String = pane_id.to_owned();
        tabs[k].pane_ids.push(name);
        proof {
            text::lemma_texts_push(listed, name);
        }
    }
    proof {
        assert(session::tab_models(tabs@) =~= pane_added_to_tab(before, tab_id@, pane_id@));
    }
    true
}

fn find_anchor(session: &Session) -> (anchor: Option<String>)
    ensures
        text::optional(anchor) == anchor_of(session@),
{
    if let Some(focused) = &session.focused_pane {
        if session.layout.root.find_pane(focused.as_str()).is_some() {
            return Some(focused.clone());
        }
    }
    let shown: Vec<String> = session.layout.pane_ids();
    let ghost all = text::texts(shown@);
    let mut i: usize = 0;
    while i < shown.len()
        invariant
            i <= shown.len(),
            all == text::texts(shown@),
            all == layout_model::pane_ids(session@.layout),
            anchor_of(session@) == first_named(all),
            first_named(all.take(i as int)) is None,
        decreases shown.len() - i,
    {
        proof {
            assert(all.take(i + 1).drop_last() =~= all.take(i as int));
            assert(all.take(i + 1).last() == shown@[i as int]@);
        }
        if !shown[i].as_str().is_empty() {
            proof {
                lemma_first_named_prefix(all, i + 1);
            }
            return Some(shown[i].clone());
        }
        i = i + 1;
    }
    proof {
        assert(all.take(shown.len() as int) =~= all);
    }
    None
}

proof fn lemma_first_named_prefix(list: Seq<Seq<char>>, k: int)
    requires
        0 <= k <= list.len(),
        first_named(list.take(k)) is Some,
    ensures
        first_named(list) == first_named(list.take(k)),
    decreases list.len(),
{
    if k == list.len() {
        assert(list.take(k) =~= list);
    } else {
        assert(list.drop_last().take(k) =~= list.take(k));
        lemma_first_named_prefix(list.drop_last(), k);
    }
}

/// Records a pane that was started for a session: it is shown, focused and
/// listed in its tab. The sessions are left as they were where that fails.
pub fn register_spawned_pane(
    sessions: &mut Vec<Session>,
    session_id: &str,
    tab_id: &str,
    pane: PaneRecord,
    max_wire: usize,
) -> (result: Result<Vec<Notice>, HandlerError>)
    ensures
        ({
            let r = registry::registry(old(sessions)@);
            let after = registry::registry(final(sessions)@);
            let k = registry::session_index(r, session_id@, 0);
            match result {
                Err(e) => after == r && if k == r.len() {
                    e == HandlerError::SessionNotFound
                } else {
                    layout_with(r[k], pane.id@, max_wire as int) == Err::<NodeModel, HandlerError>(
                        e,
                    )
                },
                Ok(notices) => {
                    &&& k < r.len()
                    &&& layout_with(r[k], pane.id@, max_wire as int) is Ok
                    &&& after == r.update(
                        k,
                        session_with_pane(
                            r[k],
                            pane@,
                            layout_with(r[k], pane.id@, max_wire as int)->Ok_0,
                            tab_id@,
                            with_pane_in_tab(r[k].tabs, tab_id@, pane.id@),
                        ),
                    )
                    &&& registry::notice_models(notices@) == pane_added_notices(
                        after[k],
                        pane.id@,
                        tab_id@,
                    )
                },
            }
        }),
{
    let ghost list = sessions@;
    let ghost r = registry::registry(sessions@);
    proof {
        registry::lemma_session_index(r, session_id@, 0);
    }
    let k: usize = find_session(sessions, session_id);
    if k >= sessions.len() {
        return Err(HandlerError::SessionNotFound);
    }
    let pane_id: String = pane.id.clone();
    if sessions[k].layout.is_empty_root() {
        let node_id: String = joined("node-", pane_id.as_str());
        sessions[k].layout = LayoutTree::with_pane(node_id, pane_id.clone());
    } else {
        let anchor: String = match find_anchor(&sessions[k]) {
            Some(anchor) => anchor,
            None => {
                return Err(HandlerError::NoAnchor);
            },
        };
        match sessions[k].layout.split(
            anchor.as_str(),
            pane_id.clone(),
            SplitDirection::TopBottom,
            max_wire,
        ) {
            Ok(_) => {},
            Err(e) => {
                proof {
                    registry::lemma_registry_update(list, sessions@, k as int);
                    assert(r.update(k as int, r[k as int]) =~= r);
                }
                return Err(HandlerError::Layout(e));
            },
        }
    }
    put_pane(&mut sessions[k].panes, pane);
    sessions[k].focused_pane = Some(pane_id.clone());
    sessions[k].focused_tab = Some(tab_id.to_owned());
    let listed: bool = add_to_tab(&mut sessions[k].tabs, tab_id, pane_id.as_str());
    if !listed {
        let mut ids: Vec<String> = Vec::new();
        ids.push(pane_id.clone());
        let tab = Tab { id: tab_id.to_owned(), title: String::new(), pane_ids: ids };
        let ghost tabs = sessions@[k as int].tabs@;
        sessions[k].tabs.push(tab);
        proof {
            assert(text::texts(ids@) =~= seq![pane_id@]);
            assert(session::tab_models(sessions@[k as int].tabs@) =~= session::tab_models(
                tabs,
            ).push(tab@));
            lemma_tab_index_absent(r[k as int].tabs, tab_id@, 0);
        }
    }
    proof {
        registry::lemma_registry_update(list, sessions@, k as int);
    }
    let added = tell(
        &sessions[k],
        Notification::PaneAdded { pane_id, tab_id: tab_id.to_owned() },
    );
    let changed = tell(
        &sessions[k],
        Notification::LayoutChanged { session_id: sessions[k].id.clone() },
    );
    Ok(two_notices(added, changed))
}

proof fn lemma_tab_index_absent(tabs: Seq<TabModel>, tab: Seq<char>, k: int)
    requires
        0 <= k <= tabs.len(),
        !session::tab_keys(tabs).contains(tab),
    ensures
        tab_index(tabs, tab, k) == tabs.len(),
    decreases tabs.len() - k,
{
    if k < tabs.len() {
        assert(session::tab_keys(tabs)[k] == tabs[k].id);
        lemma_tab_index_absent(tabs, tab, k + 1);
    }
}

/// How a pane is to be split.
#[derive(Debug)]
pub struct SplitPlan {
    pub session_id: String,
    pub tab_id: String,
    pub direction: SplitDirection,
    pub cwd: String,
    pub cols: u32,
    pub rows: u32,
}

/// The direction of a split of a number: unknown numbers split side by side.
pub open spec fn split_direction(number: i32) -> SplitDirection {
    if number == 2 {
        SplitDirection::TopBottom
    } else {
        SplitDirection::LeftRight
    }
}

/// The panes of an identifier, the first one.
pub open spec fn pane_of(panes: Seq<PaneModel>, pane: Seq<char>) -> Option<PaneModel>
    decreases panes.len(),
{
    if panes.len() == 0 {
        None
    } else {
        match pane_of(panes.drop_last(), pane) {
            Some(found) => Some(found),
            None => if panes.last().id == pane {
                Some(panes.last())
            } else {
                None
            },
        }
    }
}

proof fn lemma_pane_of(panes: Seq<PaneModel>, pane: Seq<char>, k: int)
    requires
        0 <= k <= panes.len(),
        k < panes.len() ==> panes[k].id == pane,
        forall|j: int| 0 <= j < k ==> (#[trigger] panes[j]).id != pane,
    ensures
        pane_of(panes, pane) == if k < panes.len() {
            Some(panes[k])
        } else {
            None
        },
    decreases panes.len(),
{
    if panes.len() > 0 {
        let init = panes.drop_last();
        if k < init.len() {
            assert(init[k] == panes[k]);
        }
        let m = if k < init.len() {
            k
        } else {
            init.len() as int
        };
        assert forall|j: int| 0 <= j < m implies (#[trigger] init[j]).id != pane by {
            assert(init[j] == panes[j]);
        }
        lemma_pane_of(init, pane, m);
    }
}

/// What splitting a pane starts from, in the session that shows it.
pub open spec fn split_planned(
    s: SessionModel,
    pane: Seq<char>,
    number: i32,
    cwd: Option<Seq<char>>,
    plan: SplitPlan,
) -> bool {
    let parent = pane_of(s.panes, pane);
    &&& plan.session_id@ == s.id
    &&& Some(plan.tab_id@) == session::tab_of_pane(s.tabs, pane)
    &&& plan.direction == split_direction(number)
    &&& plan.cwd@ == if cwd is Some && cwd->0.len() > 0 {
        cwd->0
    } else if parent is Some {
        parent->0.cwd
    } else {
        Seq::empty()
    }
    &&& plan.cols == if parent is Some {
        parent->0.cols
    } else {
        80
    }
    &&& plan.rows == if parent is Some {
        parent->0.rows
    } else {
        24
    }
}

/// Decides how a pane is to be split, before anything is started. What the
/// request leaves open comes from the pane that is split.
pub fn plan_split_pane(
    sessions: &Vec<Session>,
    client_id: &Option<String>,
    pane_id: &str,
    direction: i32,
    cwd: &Option<String>,
) -> (result: Result<SplitPlan, HandlerError>)
    ensures
        ({
            let r = registry::registry(sessions@);
            let k = showing(r, pane_id@, 0);
            match result {
                Err(e) => if !registry::may_mutate(r, text::optional(*client_id)) {
                    e == HandlerError::NotAttached
                } else if k == r.len() {
                    e == HandlerError::PaneNotFound
                } else {
                    e == HandlerError::PaneWithoutTab && session::tab_of_pane(
                        r[k].tabs,
                        pane_id@,
                    ) is None
                },
                Ok(plan) => {
                    &&& registry::may_mutate(r, text::optional(*client_id))
                    &&& k < r.len()
                    &&& split_planned(r[k], pane_id@, direction, text::optional(*cwd), plan)
                },
            }
        }),
{
    match ensure_mutation_allowed(sessions, client_id) {
        Err(e) => {
            return Err(e);
        },
        Ok(_) => {},
    }
    let along: SplitDirection = match direction {
        2 => SplitDirection::TopBottom,
        _ => SplitDirection::LeftRight,
    };
    proof {
        lemma_showing(registry::registry(sessions@), pane_id@, 0);
    }
    let k: usize = find_showing(sessions, pane_id);
    if k >= sessions.len() {
        return Err(HandlerError::PaneNotFound);
    }
    let tab_id: String = match find_tab_of_pane(&sessions[k].tabs, pane_id) {
        Some(tab) => tab,
        None => {
            return Err(HandlerError::PaneWithoutTab);
        },
    };
    let p: usize = position_of_pane(&sessions[k].panes, pane_id);
    proof {
        let panes = sessions@[k as int]@.panes;
        assert forall|j: int| 0 <= j < p implies (#[trigger] panes[j]).id != pane_id@ by {
            assert(sessions@[k as int].panes@[j].id@ != pane_id@);
        }
        if p < panes.len() {
            assert(panes[p as int] == sessions@[k as int].panes@[p as int]@);
        }
        lemma_pane_of(panes, pane_id@, p as int);
    }
    let found: bool = p < sessions[k].panes.len();
    let parent_cwd: String = if found {
        sessions[k].panes[p].cwd.clone()
    } else {
        String::new()
    };
    let cols: u32 = if found {
        sessions[k].panes[p].cols
    } else {
        80
    };
    let rows: u32 = if found {
        sessions[k].panes[p].rows
    } else {
        24
    };
    let path: String = match cwd {
        Some(path) => if path.as_str().is_empty() {
            parent_cwd
        } else {
            path.clone()
        },
        None => parent_cwd,
    };
    Ok(
        SplitPlan {
            session_id: sessions[k].id.clone(),
            tab_id,
            direction: along,
            cwd: path,
            cols,
            rows,
        },
    )
}

/// Records a pane that was started to split another one. The sessions are
/// left as they were where that fails.
pub fn register_split_pane(
    sessions: &mut Vec<Session>,
    parent_id: &str,
    tab_id: &str,
    direction: SplitDirection,
    pane: PaneRecord,
    max_wire: usize,
) -> (result: Result<Vec<Notice>, HandlerError>)
    ensures
        ({
            let r = registry::registry(old(sessions)@);
            let after = registry::registry(final(sessions)@);
            let k = showing(r, parent_id@, 0);
            let layout = layout_model::split_result(
                r[k].layout,
                parent_id@,
                pane.id@,
                direction,
                max_wire as int,
            );
            match result {
                Err(e) => after == r && if k == r.len() {
                    e == HandlerError::PaneNotFound
                } else {
                    e is Layout && layout == Err::<NodeModel, LayoutError>(e->Layout_0)
                },
                Ok(notices) => {
                    &&& k < r.len()
                    &&& layout is Ok
                    &&& after == r.update(
                        k,
                        session_with_pane(
                            r[k],
                            pane@,
                            layout->Ok_0,
                            tab_id@,
                            pane_added_to_tab(r[k].tabs, tab_id@, pane.id@),
                        ),
                    )
                    &&& registry::notice_models(notices@) == pane_added_notices(
                        after[k],
                        pane.id@,
                        tab_id@,
                    )
                },
            }
        }),
{
    let ghost list = sessions@;
    let ghost r = registry::registry(sessions@);
    proof {
        lemma_showing(r, parent_id@, 0);
    }
    let k: usize = find_showing(sessions, parent_id);
    if k >= sessions.len() {
        return Err(HandlerError::PaneNotFound);
    }
    let pane_id: String = pane.id.clone();
    match sessions[k].layout.split(parent_id, pane_id.clone(), direction, max_wire) {
        Ok(_) => {},
        Err(e) => {
            proof {
                registry::lemma_registry_update(list, sessions@, k as int);
                assert(r.update(k as int, r[k as int]) =~= r);
            }
            return Err(HandlerError::Layout(e));
        },
    }
    put_pane(&mut sessions[k].panes, pane);
    sessions[k].focused_pane = Some(pane_id.clone());
    sessions[k].focused_tab = Some(tab_id.to_owned());
    let _ = add_to_tab(&mut sessions[k].tabs, tab_id, pane_id.as_str());
    proof {
        registry::lemma_registry_update(list, sessions@, k as int);
    }
    let added = tell(
        &sessions[k],
        Notification::PaneAdded { pane_id, tab_id: tab_id.to_owned() },
    );
    let changed = tell(
        &sessions[k],
        Notification::LayoutChanged { session_id: sessions[k].id.clone() },
    );
    Ok(two_notices(added, changed))
}

/// Closes a pane.
pub fn close_pane(
    sessions: &mut Vec<Session>,
    client_id: &Option<String>,
    pane_id: &str,
    max_wire: usize,
) -> (result: Result<Vec<Notice>, HandlerError>)
    ensures
        ({
            let r = registry::registry(old(sessions)@);
            let after = registry::registry(final(sessions)@);
            let k = owning(r, pane_id@, 0);
            let layout = session::layout_without(r[k].layout, pane_id@, max_wire as int);
            match result {
                Err(e) => after == r && if !registry::may_mutate(r, text::optional(*client_id)) {
                    e == HandlerError::NotAttached
                } else if k == r.len() {
                    e == HandlerError::PaneNotFound
                } else {
                    e is PaneStuck && layout == Err::<NodeModel, LayoutError>(e->PaneStuck_0)
                },
                Ok(notices) => {
                    &&& registry::may_mutate(r, text::optional(*client_id))
                    &&& k < r.len()
                    &&& layout is Ok
                    &&& after == r.update(
                        k,
                        session::session_without(r[k], pane_id@, layout->Ok_0),
                    )
                    &&& registry::notice_models(notices@) == pane_removed_notices(
                        after[k],
                        pane_id@,
                    )
                },
            }
        }),
{
    match ensure_mutation_allowed(sessions, client_id) {
        Err(e) => {
            return Err(e);
        },
        Ok(_) => {},
    }
    let ghost list = sessions@;
    let ghost r = registry::registry(sessions@);
    proof {
        lemma_owning(r, pane_id@, 0);
    }
    let k: usize = find_owning(sessions, pane_id);
    if k >= sessions.len() {
        return Err(HandlerError::PaneNotFound);
    }
    match sessions[k].remove_pane(pane_id, max_wire) {
        Ok(_) => {},
        Err(e) => {
            proof {
                registry::lemma_registry_update(list, sessions@, k as int);
                assert(r.update(k as int, r[k as int]) =~= r);
            }
            return Err(HandlerError::PaneStuck(e));
        },
    }
    proof {
        registry::lemma_registry_update(list, sessions@, k as int);
    }
    let removed = tell(
        &sessions[k],
        Notification::PaneRemoved { pane_id: pane_id.to_owned(), exit_code: 0 },
    );
    let changed = tell(
        &sessions[k],
        Notification::LayoutChanged { session_id: sessions[k].id.clone() },
    );
    Ok(two_notices(removed, changed))
}

/// Takes a pane whose shell has ended out of its session; where another way
/// of closing it was faster, or the layout does not let it go, nothing is
/// told.
pub fn pane_exited(
    sessions: &mut Vec<Session>,
    session_id: &str,
    pane_id: &str,
    max_wire: usize,
) -> (notices: Vec<Notice>)
    ensures
        ({
            let r = registry::registry(old(sessions)@);
            let after = registry::registry(final(sessions)@);
            let k = registry::session_index(r, session_id@, 0);
            let layout = session::layout_without(r[k].layout, pane_id@, max_wire as int);
            if k < r.len() && r[k].has_pane(pane_id@) && layout is Ok {
                after == r.update(k, session::session_without(r[k], pane_id@, layout->Ok_0))
                    && registry::notice_models(notices@) == pane_removed_notices(after[k], pane_id@)
            } else {
                after == r && notices@.len() == 0
            }
        }),
{
    let ghost list = sessions@;
    let ghost r = registry::registry(sessions@);
    proof {
        registry::lemma_session_index(r, session_id@, 0);
    }
    let k: usize = find_session(sessions, session_id);
    if k >= sessions.len() {
        return Vec::new();
    }
    let removed: bool = match sessions[k].remove_pane(pane_id, max_wire) {
        Ok(had) => had,
        Err(e) => false,
    };
    proof {
        registry::lemma_registry_update(list, sessions@, k as int);
        assert(r.update(k as int, r[k as int]) =~= r);
    }
    if !removed {
        return Vec::new();
    }
    let gone = tell(
        &sessions[k],
        Notification::PaneRemoved { pane_id: pane_id.to_owned(), exit_code: 0 },
    );
    let changed = tell(
        &sessions[k],
        Notification::LayoutChanged { session_id: sessions[k].id.clone() },
    );
    two_notices(gone, changed)
}

/// Focuses a pane.
pub fn focus_pane(
    sessions: &mut Vec<Session>,
    client_id: &Option<String>,
    pane_id: &str,
) -> (result: Result<Vec<Notice>, HandlerError>)
    ensures
        ({
            let r = registry::registry(old(sessions)@);
            let after = registry::registry(final(sessions)@);
            let k = showing(r, pane_id@, 0);
            match result {
                Err(e) => after == r && if !registry::may_mutate(r, text::optional(*client_id)) {
                    e == HandlerError::NotAttached
                } else {
                    k == r.len() && e == HandlerError::PaneNotFound
                },
                Ok(notices) => {
                    &&& registry::may_mutate(r, text::optional(*client_id))
                    &&& k < r.len()
                    &&& after == r.update(
                        k,
                        SessionModel { focused_pane: Some(pane_id@), ..r[k] },
                    )
                    &&& registry::notice_models(notices@) == seq![
                        registry::told(
                            after[k],
                            NotificationModel::PaneFocused { pane_id: pane_id@ },
                        ),
                        registry::told(
                            after[k],
                            NotificationModel::LayoutChanged { session_id: after[k].id },
                        ),
                    ]
                },
            }
        }),
{
    match ensure_mutation_allowed(sessions, client_id) {
        Err(e) => {
            return Err(e);
        },
        Ok(_) => {},
    }
    let ghost list = sessions@;
    proof {
        lemma_showing(registry::registry(sessions@), pane_id@, 0);
    }
    let k: usize = find_showing(sessions, pane_id);
    if k >= sessions.len() {
        return Err(HandlerError::PaneNotFound);
    }
    sessions[k].set_focused_pane(pane_id.to_owned());
    proof {
        registry::lemma_registry_update(list, sessions@, k as int);
    }
    let focused = tell(
        &sessions[k],
        Notification::PaneFocused { pane_id: pane_id.to_owned() },
    );
    let changed = tell(
        &sessions[k],
        Notification::LayoutChanged { session_id: sessions[k].id.clone() },
    );
    Ok(two_notices(focused, changed))
}

/// The direction of a resize of a number.
pub open spec fn resize_direction(number: i32) -> Option<SplitDirection> {
    if number == 1 {
        Some(SplitDirection::LeftRight)
    } else if number == 2 {
        Some(SplitDirection::TopBottom)
    } else {
        None
    }
}

/// Whether the space around a pane can be shared out anew.
pub open spec fn layout_resizable(r: Seq<SessionModel>, pane: Seq<char>, number: i32) -> bool {
    let k = showing(r, pane, 0);
    k < r.len() && resize_direction(number) is Some ==> layout_model::resizable(
        r[k].layout,
        pane,
        resize_direction(number)->0,
    )
}

/// Whether the space around a pane can be shared out anew.
pub fn can_resize_layout(sessions: &Vec<Session>, pane_id: &str, direction: i32) -> (yes: bool)
    ensures
        yes == layout_resizable(registry::registry(sessions@), pane_id@, direction),
{
    proof {
        lemma_showing(registry::registry(sessions@), pane_id@, 0);
    }
    let k: usize = find_showing(sessions, pane_id);
    if k >= sessions.len() {
        return true;
    }
    let along: SplitDirection = match direction {
        1 => SplitDirection::LeftRight,
        2 => SplitDirection::TopBottom,
        _ => {
            return true;
        },
    };
    match sessions[k].layout.resize_pair(pane_id, along) {
        Ok(Some(pair)) => {
            let total: Ratio = pair.0.add_ratio(pair.1);
            !total.is_share() || is_divisible(total)
        },
        _ => true,
    }
}

/// Moves the edge between a pane and its neighbour in the layout.
pub fn resize_layout(
    sessions: &mut Vec<Session>,
    client_id: &Option<String>,
    pane_id: &str,
    direction: i32,
    delta: Ratio,
    max_wire: usize,
) -> (result: Result<Vec<Notice>, HandlerError>)
    requires
        delta.finite() ==> layout_resizable(
            registry::registry(old(sessions)@),
            pane_id@,
            direction,
        ),
    ensures
        ({
            let r = registry::registry(old(sessions)@);
            let after = registry::registry(final(sessions)@);
            let k = showing(r, pane_id@, 0);
            let along = resize_direction(direction);
            let layout = layout_model::resize_result(
                r[k].layout,
                pane_id@,
                along->0,
                delta,
                max_wire as int,
            );
            match result {
                Err(e) => after == r && if !registry::may_mutate(r, text::optional(*client_id)) {
                    e == HandlerError::NotAttached
                } else if along is None {
                    e == HandlerError::InvalidDirection
                } else if k == r.len() {
                    e == HandlerError::PaneNotFound
                } else {
                    e is Layout && layout == Err::<NodeModel, LayoutError>(e->Layout_0)
                },
                Ok(notices) => {
                    &&& registry::may_mutate(r, text::optional(*client_id))
                    &&& along is Some
                    &&& k < r.len()
                    &&& layout is Ok
                    &&& after == r.update(k, SessionModel { layout: layout->Ok_0, ..r[k] })
                    &&& registry::notice_models(notices@) == seq![
                        registry::told(
                            after[k],
                            NotificationModel::LayoutChanged { session_id: after[k].id },
                        ),
                    ]
                },
            }
        }),
{
    match ensure_mutation_allowed(sessions, client_id) {
        Err(e) => {
            return Err(e);
        },
        Ok(_) => {},
    }
    let along: SplitDirection = match direction {
        1 => SplitDirection::LeftRight,
        2 => SplitDirection::TopBottom,
        _ => {
            return Err(HandlerError::InvalidDirection);
        },
    };
    let ghost list = sessions@;
    let ghost r = registry::registry(sessions@);
    proof {
        lemma_showing(r, pane_id@, 0);
    }
    let k: usize = find_showing(sessions, pane_id);
    if k >= sessions.len() {
        return Err(HandlerError::PaneNotFound);
    }
    match sessions[k].layout.resize_pane(pane_id, along, delta, max_wire) {
        Ok(_) => {},
        Err(e) => {
            proof {
                registry::lemma_registry_update(list, sessions@, k as int);
                assert(r.update(k as int, r[k as int]) =~= r);
            }
            return Err(HandlerError::Layout(e));
        },
    }
    proof {
        registry::lemma_registry_update(list, sessions@, k as int);
    }
    let changed = tell(
        &sessions[k],
        Notification::LayoutChanged { session_id: sessions[k].id.clone() },
    );
    let mut notices: Vec<Notice> = Vec::new();
    notices.push(changed);
    proof {
        assert(registry::notice_models(notices@) =~= seq![changed@]);
    }
    Ok(notices)
}

/// What a refusal of the split tree to show a pane that was started for a session
/// names. A refusal leaves the sessions as they were.
pub fn spawn_layout_names(sessions: &Vec<Session>, session_id: &str, pane_id: &str) -> (names:
    LayoutNames)
    ensures
        ({
            let r = registry::registry(sessions@);
            let k = registry::session_index(r, session_id@, 0);
            let anchor = anchor_of(r[k]);
            names@ == if k < r.len() && anchor is Some {
                layout_refusals::names_of(
                    r[k].layout,
                    anchor->0,
                    layout_refusals::split_attempt(
                        r[k].layout,
                        anchor->0,
                        pane_id@,
                        SplitDirection::TopBottom,
                    ),
                )
            } else {
                layout_refusals::no_names()
            }
        }),
{
    proof {
        registry::lemma_session_index(registry::registry(sessions@), session_id@, 0);
    }
    let k: usize = find_session(sessions, session_id);
    if k >= sessions.len() {
        return LayoutNames::none();
    }
    match find_anchor(&sessions[k]) {
        Some(anchor) => split_names(
            &sessions[k].layout,
            anchor.as_str(),
            pane_id,
            SplitDirection::TopBottom,
        ),
        None => LayoutNames::none(),
    }
}

/// What a refusal of the split tree to split a pane names. A refusal leaves the
/// sessions as they were.
pub fn split_layout_names(
    sessions: &Vec<Session>,
    parent_id: &str,
    pane_id: &str,
    direction: SplitDirection,
) -> (names: LayoutNames)
    ensures
        ({
            let r = registry::registry(sessions@);
            let k = showing(r, parent_id@, 0);
            names@ == if k < r.len() {
                layout_refusals::names_of(
                    r[k].layout,
                    parent_id@,
                    layout_refusals::split_attempt(
                        r[k].layout,
                        parent_id@,
                        pane_id@,
                        direction,
                    ),
                )
            } else {
                layout_refusals::no_names()
            }
        }),
{
    proof {
        lemma_showing(registry::registry(sessions@), parent_id@, 0);
    }
    let k: usize = find_showing(sessions, parent_id);
    if k >= sessions.len() {
        return LayoutNames::none();
    }
    split_names(&sessions[k].layout, parent_id, pane_id, direction)
}

/// What a refusal of the split tree to let a pane go names. A refusal leaves the
/// sessions as they were.
pub fn close_layout_names(sessions: &Vec<Session>, pane_id: &str) -> (names: LayoutNames)
    ensures
        ({
            let r = registry::registry(sessions@);
            let k = owning(r, pane_id@, 0);
            names@ == if k < r.len() {
                layout_refusals::names_of(
                    r[k].layout,
                    pane_id@,
                    layout_refusals::removal_attempt(r[k].layout, pane_id@),
                )
            } else {
                layout_refusals::no_names()
            }
        }),
{
    proof {
        lemma_owning(registry::registry(sessions@), pane_id@, 0);
    }
    let k: usize = find_owning(sessions, pane_id);
    if k >= sessions.len() {
        return LayoutNames::none();
    }
    removal_names(&sessions[k].layout, pane_id)
}

/// What a refusal of the split tree to resize a pane names. A refusal leaves the
/// sessions as they were.
pub fn resize_layout_names(sessions: &Vec<Session>, pane_id: &str) -> (names: LayoutNames)
    ensures
        ({
            let r = registry::registry(sessions@);
            let k = showing(r, pane_id@, 0);
            names@ == if k < r.len() {
                layout_refusals::names_of(r[k].layout, pane_id@, r[k].layout)
            } else {
                layout_refusals::no_names()
            }
        }),
{
    proof {
        lemma_showing(registry::registry(sessions@), pane_id@, 0);
    }
    let k: usize = find_showing(sessions, pane_id);
    if k >= sessions.len() {
        return LayoutNames::none();
    }
    resize_names(&sessions[k].layout, pane_id)
}

/// The panes with the first one of an identifier named, which is a change of
/// that pane.
pub open spec fn panes_with_title(
    panes: Seq<PaneModel>,
    pane: Seq<char>,
    title: Seq<char>,
) -> Seq<PaneModel> {
    let k = crate::attach::pane_index(panes, pane, 0);
    if k < panes.len() {
        panes.update(
            k,
            PaneModel { title, generation: pane::next_generation(panes[k].generation), ..panes[k] },
        )
    } else {
        panes
    }
}

fn generation_after(generation: u64) -> (next: u64)
    ensures
        next == pane::next_generation(generation),
{
    if generation == u64::MAX {
        u64::MAX
    } else {
        generation + 1
    }
}

/// Names a pane.
pub fn set_pane_title(
    sessions: &mut Vec<Session>,
    client_id: &Option<String>,
    pane_id: &str,
    title: String,
) -> (result: Result<Notice, HandlerError>)
    ensures
        ({
            let r = registry::registry(old(sessions)@);
            let after = registry::registry(final(sessions)@);
            let k = owning(r, pane_id@, 0);
            match result {
                Err(e) => after == r && if !registry::may_mutate(r, text::optional(*client_id)) {
                    e == HandlerError::NotAttached
                } else {
                    k == r.len() && e == HandlerError::PaneNotFound
                },
                Ok(notice) => {
                    &&& registry::may_mutate(r, text::optional(*client_id))
                    &&& k < r.len()
                    &&& after == r.update(
                        k,
                        SessionModel {
                            panes: panes_with_title(r[k].panes, pane_id@, title@),
                            ..r[k]
                        },
                    )
                    &&& notice@ == registry::told(
                        after[k],
                        NotificationModel::PaneTitleChanged { pane_id: pane_id@, title: title@ },
                    )
                },
            }
        }),
{
    match ensure_mutation_allowed(sessions, client_id) {
        Err(e) => {
            return Err(e);
        },
        Ok(_) => {},
    }
    let ghost list = sessions@;
    let ghost r = registry::registry(sessions@);
    proof {
        lemma_owning(r, pane_id@, 0);
    }
    let k: usize = find_owning(sessions, pane_id);
    if k >= sessions.len() {
        return Err(HandlerError::PaneNotFound);
    }
    let p: usize = position_of_pane(&sessions[k].panes, pane_id);
    let ghost panes = sessions@[k as int]@.panes;
    proof {
        lemma_first_pane(sessions@[k as int], pane_id@, p as int);
    }
    sessions[k].panes[p].title = title.clone();
    sessions[k].panes[p].generation = generation_after(sessions[k].panes[p].generation);
    proof {
        assert(sessions@[k as int]@.panes =~= panes_with_title(panes, pane_id@, title@));
        registry::lemma_registry_update(list, sessions@, k as int);
    }
    Ok(
        tell(
            &sessions[k],
            Notification::PaneTitleChanged { pane_id: pane_id.to_owned(), title },
        ),
    )
}

proof fn lemma_first_pane(s: Session, pane: Seq<char>, p: int)
    requires
        0 <= p <= s.panes@.len(),
        p < s.panes@.len() ==> s.panes@[p].id@ == pane,
        forall|j: int| 0 <= j < p ==> (#[trigger] s.panes@[j]).id@ != pane,
    ensures
        crate::attach::pane_index(s@.panes, pane, 0) == p,
{
    let panes = s@.panes;
    assert forall|j: int| 0 <= j < p implies (#[trigger] panes[j]).id != pane by {
        assert(s.panes@[j].id@ != pane);
    }
    if p < panes.len() {
        assert(panes[p] == s.panes@[p]@);
    }
    crate::attach::lemma_pane_index(panes, pane, 0, p);
}

/// The panes with the first one of an identifier zoomed or not, which is a
/// change of that pane.
pub open spec fn panes_with_zoom(
    panes: Seq<PaneModel>,
    pane: Seq<char>,
    zoomed: bool,
) -> Seq<PaneModel> {
    let k = crate::attach::pane_index(panes, pane, 0);
    if k < panes.len() {
        panes.update(
            k,
            PaneModel { zoomed, generation: pane::next_generation(panes[k].generation), ..panes[k] },
        )
    } else {
        panes
    }
}

/// Zooms a pane, or ends that.
pub fn zoom_pane(
    sessions: &mut Vec<Session>,
    client_id: &Option<String>,
    pane_id: &str,
    zoomed: bool,
) -> (result: Result<Vec<Notice>, HandlerError>)
    ensures
        ({
            let r = registry::registry(old(sessions)@);
            let after = registry::registry(final(sessions)@);
            let k = owning(r, pane_id@, 0);
            match result {
                Err(e) => after == r && if !registry::may_mutate(r, text::optional(*client_id)) {
                    e == HandlerError::NotAttached
                } else {
                    k == r.len() && e == HandlerError::PaneNotFound
                },
                Ok(notices) => {
                    &&& registry::may_mutate(r, text::optional(*client_id))
                    &&& k < r.len()
                    &&& after == r.update(
                        k,
                        SessionModel {
                            panes: panes_with_zoom(r[k].panes, pane_id@, zoomed),
                            ..r[k]
                        },
                    )
                    &&& registry::notice_models(notices@) == seq![
                        registry::told(
                            after[k],
                            NotificationModel::PaneZoomed { pane_id: pane_id@, zoomed },
                        ),
                        registry::told(
                            after[k],
                            NotificationModel::LayoutChanged { session_id: after[k].id },
                        ),
                    ]
                },
            }
        }),
{
    match ensure_mutation_allowed(sessions, client_id) {
        Err(e) => {
            return Err(e);
        },
        Ok(_) => {},
    }
    let ghost list = sessions@;
    let ghost r = registry::registry(sessions@);
    proof {
        lemma_owning(r, pane_id@, 0);
    }
    let k: usize = find_owning(sessions, pane_id);
    if k >= sessions.len() {
        return Err(HandlerError::PaneNotFound);
    }
    let p: usize = position_of_pane(&sessions[k].panes, pane_id);
    let ghost panes = sessions@[k as int]@.panes;
    proof {
        lemma_first_pane(sessions@[k as int], pane_id@, p as int);
    }
    sessions[k].panes[p].zoomed = zoomed;
    sessions[k].panes[p].generation = generation_after(sessions[k].panes[p].generation);
    proof {
        assert(sessions@[k as int]@.panes =~= panes_with_zoom(panes, pane_id@, zoomed));
        registry::lemma_registry_update(list, sessions@, k as int);
    }
    let zoom = tell(
        &sessions[k],
        Notification::PaneZoomed { pane_id: pane_id.to_owned(), zoomed },
    );
    let changed = tell(
        &sessions[k],
        Notification::LayoutChanged { session_id: sessions[k].id.clone() },
    );
    Ok(two_notices(zoom, changed))
}

/// The panes with what is told of the first one of an identifier.
pub open spec fn panes_with_metadata(
    panes: Seq<PaneModel>,
    pane: Seq<char>,
    metadata: PaneMetadata,
    cwd: Seq<char>,
) -> Seq<PaneModel> {
    let k = crate::attach::pane_index(panes, pane, 0);
    if k < panes.len() {
        panes.update(
            k,
            PaneModel {
                cwd,
                title: metadata.title@,
                cols: metadata.cols,
                rows: metadata.rows,
                generation: metadata.generation,
                is_alive: metadata.is_alive,
                zoomed: metadata.zoomed,
                ..panes[k]
            },
        )
    } else {
        panes
    }
}

/// Brings what the sessions record of a pane up to date, and says whether one of
/// them has it.
pub fn refresh_pane(
    sessions: &mut Vec<Session>,
    pane_id: &str,
    metadata: PaneMetadata,
    cwd: String,
) -> (found: bool)
    ensures
        ({
            let r = registry::registry(old(sessions)@);
            let after = registry::registry(final(sessions)@);
            let k = owning(r, pane_id@, 0);
            &&& found == (k < r.len())
            &&& after == if k < r.len() {
                r.update(
                    k,
                    SessionModel {
                        panes: panes_with_metadata(r[k].panes, pane_id@, metadata, cwd@),
                        ..r[k]
                    },
                )
            } else {
                r
            }
        }),
{
    let ghost list = sessions@;
    let ghost r = registry::registry(sessions@);
    proof {
        lemma_owning(r, pane_id@, 0);
    }
    let k: usize = find_owning(sessions, pane_id);
    if k >= sessions.len() {
        return false;
    }
    let p: usize = position_of_pane(&sessions[k].panes, pane_id);
    let ghost panes = sessions@[k as int]@.panes;
    proof {
        lemma_first_pane(sessions@[k as int], pane_id@, p as int);
    }
    sessions[k].panes[p].cwd = cwd;
    sessions[k].panes[p].title = metadata.title;
    sessions[k].panes[p].cols = metadata.cols;
    sessions[k].panes[p].rows = metadata.rows;
    sessions[k].panes[p].generation = metadata.generation;
    sessions[k].panes[p].is_alive = metadata.is_alive;
    sessions[k].panes[p].zoomed = metadata.zoomed;
    proof {
        assert(sessions@[k as int]@.panes =~= panes_with_metadata(
            panes,
            pane_id@,
            metadata,
            cwd@,
        ));
        registry::lemma_registry_update(list, sessions@, k as int);
    }
    true
}

/// Takes a pane out of the layout of a session: the placeholder is left where
/// it was the whole layout, and the layout as it was where it does not let
/// the pane go.
pub fn detach_pane_from_layout(session: &mut Session, pane_id: &str, max_wire: usize)
    ensures
        ({
            let layout = old(session)@.layout;
            let removed = layout_model::remove_result(layout, pane_id@, max_wire as int);
            final(session)@ == SessionModel {
                layout: if layout is Pane && layout->pane_id == pane_id@ {
                    layout::empty_model()
                } else if removed is Ok {
                    removed->Ok_0
                } else {
                    layout
                },
                ..old(session)@
            }
        }),
{
    let sole: bool = match &session.layout.root {
        LayoutNode::Pane { id, pane_id: own } => same_text(own.as_str(), pane_id),
        LayoutNode::Split { id, direction, children, ratios } => false,
    };
    if sole {
        session.layout = LayoutTree::empty();
        return;
    }
    let _ = session.layout.remove_pane(pane_id, max_wire);
}

/// The session found for a pane is the first one whose layout shows it, or the
/// first one that has it.
pub proof fn law_panes_are_found_in_the_first_session(r: Seq<SessionModel>, pane: Seq<char>)
    ensures
        0 <= showing(r, pane, 0) <= r.len(),
        showing(r, pane, 0) < r.len() ==> layout_model::holds_pane(
            r[showing(r, pane, 0)].layout,
            pane,
        ),
        forall|i: int|
            0 <= i < showing(r, pane, 0) ==> !layout_model::holds_pane(
                (#[trigger] r[i]).layout,
                pane,
            ),
        0 <= owning(r, pane, 0) <= r.len(),
        owning(r, pane, 0) < r.len() ==> r[owning(r, pane, 0)].has_pane(pane),
        forall|i: int| 0 <= i < owning(r, pane, 0) ==> !(#[trigger] r[i]).has_pane(pane),
{
    lemma_showing(r, pane, 0);
    lemma_owning(r, pane, 0);
    lemma_not_found_before(r, pane, 0);
}

proof fn lemma_not_found_before(r: Seq<SessionModel>, pane: Seq<char>, k: int)
    requires
        0 <= k <= r.len(),
    ensures
        forall|i: int|
            k <= i < showing(r, pane, k) ==> !layout_model::holds_pane(
                (#[trigger] r[i]).layout,
                pane,
            ),
        forall|i: int| k <= i < owning(r, pane, k) ==> !(#[trigger] r[i]).has_pane(pane),
    decreases r.len() - k,
{
    if k < r.len() {
        lemma_not_found_before(r, pane, k + 1);
    }
}

/// A pane that is recorded is there, in the place of one of its identifier or
/// else at the end; all others stay.
pub proof fn law_recorded_panes_are_there(panes: Seq<PaneModel>, pane: PaneModel)
    ensures
        with_pane(panes, pane).contains(pane),
        forall|i: int|
            0 <= i < panes.len() ==> #[trigger] with_pane(panes, pane)[i] == if panes[i].id
                == pane.id {
                pane
            } else {
                panes[i]
            },
        with_pane(panes, pane).len() == panes.len() + if session::pane_keys(panes).contains(
            pane.id,
        ) {
            0int
        } else {
            1
        },
{
    let after = with_pane(panes, pane);
    if session::pane_keys(panes).contains(pane.id) {
        let k = choose|k: int| 0 <= k < panes.len() && session::pane_keys(panes)[k] == pane.id;
        assert(after[k] == pane);
    } else {
        assert(after[panes.len() as int] == pane);
        assert forall|i: int| 0 <= i < panes.len() implies #[trigger] after[i] == if panes[i].id
            == pane.id {
            pane
        } else {
            panes[i]
        } by {
            assert(session::pane_keys(panes)[i] == panes[i].id);
        }
    }
}

proof fn lemma_tab_found(tabs: Seq<TabModel>, tab: Seq<char>, k: int)
    requires
        0 <= k <= tabs.len(),
    ensures
        k <= tab_index(tabs, tab, k) <= tabs.len(),
        tab_index(tabs, tab, k) < tabs.len() ==> tabs[tab_index(tabs, tab, k)].id == tab,
        forall|j: int| k <= j < tab_index(tabs, tab, k) ==> (#[trigger] tabs[j]).id != tab,
    decreases tabs.len() - k,
{
    if k < tabs.len() && tabs[k].id != tab {
        lemma_tab_found(tabs, tab, k + 1);
    }
}

/// A pane is listed in the first tab of an identifier, behind the panes that are
/// listed there, and in no other tab; where no tab has the identifier, a new one
/// without a title lists it alone.
pub proof fn law_panes_join_their_tab(tabs: Seq<TabModel>, tab: Seq<char>, pane: Seq<char>)
    ensures
        ({
            let after = with_pane_in_tab(tabs, tab, pane);
            if session::tab_keys(tabs).contains(tab) {
                &&& after.len() == tabs.len()
                &&& exists|k: int|
                    0 <= k < tabs.len() && (#[trigger] tabs[k]).id == tab && (forall|j: int|
                        0 <= j < k ==> (#[trigger] tabs[j]).id != tab) && (forall|j: int|
                        0 <= j < tabs.len() && j != k ==> #[trigger] after[j] == tabs[j])
                        && after[k].id == tab && after[k].title == tabs[k].title
                        && after[k].pane_ids == if tabs[k].pane_ids.contains(pane) {
                        tabs[k].pane_ids
                    } else {
                        tabs[k].pane_ids.push(pane)
                    }
            } else {
                &&& after.len() == tabs.len() + 1
                &&& after.drop_last() == tabs
                &&& after.last().id == tab
                &&& after.last().title.len() == 0
                &&& after.last().pane_ids == seq![pane]
            }
        }),
{
    let after = with_pane_in_tab(tabs, tab, pane);
    lemma_tab_found(tabs, tab, 0);
    if session::tab_keys(tabs).contains(tab) {
        let w = choose|w: int| 0 <= w < tabs.len() && session::tab_keys(tabs)[w] == tab;
        assert(tabs[w].id == tab);
        let k = tab_index(tabs, tab, 0);
        assert(k <= w);
        assert(tabs[k].id == tab);
    } else {
        assert(after.drop_last() =~= tabs);
    }
}

/// The pane beside which a new one goes is the focused one where it is shown,
/// and else the first one shown that has an identifier.
pub proof fn law_new_panes_go_beside_the_focused_one(s: SessionModel)
    ensures
        ({
            let shown = layout_model::pane_ids(s.layout);
            if s.focused_pane is Some && shown.contains(s.focused_pane->0) {
                anchor_of(s) == s.focused_pane
            } else {
                match anchor_of(s) {
                    Some(pane) => exists|i: int|
                        0 <= i < shown.len() && #[trigger] shown[i] == pane && pane.len() > 0
                            && forall|j: int| 0 <= j < i ==> (#[trigger] shown[j]).len() == 0,
                    None => forall|j: int|
                        0 <= j < shown.len() ==> (#[trigger] shown[j]).len() == 0,
                }
            }
        }),
{
    lemma_first_named(layout_model::pane_ids(s.layout));
}

proof fn lemma_first_named(list: Seq<Seq<char>>)
    ensures
        match first_named(list) {
            Some(text) => exists|i: int|
                0 <= i < list.len() && #[trigger] list[i] == text && text.len() > 0 && forall|j: int|
                    0 <= j < i ==> (#[trigger] list[j]).len() == 0,
            None => forall|j: int| 0 <= j < list.len() ==> (#[trigger] list[j]).len() == 0,
        },
    decreases list.len(),
{
    if list.len() > 0 {
        let init = list.drop_last();
        lemma_first_named(init);
        match first_named(init) {
            Some(text) => {
                let i = choose|i: int|
                    0 <= i < init.len() && #[trigger] init[i] == text && text.len() > 0 && forall|
                        j: int,
                    | 0 <= j < i ==> (#[trigger] init[j]).len() == 0;
                assert(list[i] == text);
                assert forall|j: int| 0 <= j < i implies (#[trigger] list[j]).len() == 0 by {
                    assert(init[j] == list[j]);
                }
            },
            None => {
                assert forall|j: int| 0 <= j < init.len() implies (#[trigger] list[j]).len() == 0 by {
                    assert(init[j] == list[j]);
                }
                assert(list[list.len() - 1] == list.last());
            },
        }
    }
}

/// A pane that is started is shown: alone in a session without panes, and else
/// right below the pane that it goes beside, with half of its space.
pub proof fn law_started_panes_are_shown(s: SessionModel, pane: Seq<char>, max_wire: int)
    requires
        layout_with(s, pane, max_wire) is Ok,
    ensures
        ({
            let after = layout_with(s, pane, max_wire)->Ok_0;
            let shown = layout_model::pane_ids(s.layout);
            if s.layout == layout::empty_model() {
                after is Pane && after->pane_id == pane
            } else {
                &&& anchor_of(s) is Some
                &&& layout_model::pane_ids(after) == layout_model::put_behind(
                    shown,
                    anchor_of(s)->0,
                    pane,
                )
                &&& exists|path: Seq<int>| #[trigger]
                    layout_model::node_at(after, path) matches Some(x) && x is Split
                        && x->direction is TopBottom && x->children.len() == 2
                        && layout_model::holds_pane(x->children[0], anchor_of(s)->0)
                        && layout_model::holds_pane(x->children[1], pane) && x->ratios[0]
                        == x->ratios[1]
            }
        }),
{
    if s.layout != layout::empty_model() {
        let anchor = anchor_of(s)->0;
        let down = SplitDirection::TopBottom;
        layout_model::law_split_puts_the_pane_behind(s.layout, anchor, pane, down, max_wire);
        layout_model::law_split_divides_the_pane(s.layout, anchor, pane, down, max_wire);
        let after = layout_with(s, pane, max_wire)->Ok_0;
        let path = choose|path: Seq<int>| #[trigger]
            layout_model::node_at(s.layout, path) matches Some(leaf) && leaf is Pane
                && leaf->pane_id == anchor && (layout_model::node_at(after, path) matches Some(x)
                && {
                &&& x is Split
                &&& x->Split_id == leaf->Pane_id
                &&& x->direction == down
                &&& x->children.len() == 2
                &&& x->children[0] is Pane && x->children[0]->pane_id == anchor
                &&& x->children[1] is Pane && x->children[1]->pane_id == pane
                &&& x->ratios == seq![Ratio { bits: 0x3f00_0000 }, Ratio { bits: 0x3f00_0000 }]
            }) && layout_model::same_outside(s.layout, after, path);
        let x = layout_model::node_at(after, path)->0;
        assert(layout_model::pane_ids(x->children[0])[0] == anchor);
        assert(layout_model::pane_ids(x->children[1])[0] == pane);
    }
}

/// A session that a pane joins has it among its panes, shows and focuses it
/// and its tab; its name, directory, clients and windows stay.
pub proof fn law_joining_panes_are_focused(
    s: SessionModel,
    pane: PaneModel,
    layout: NodeModel,
    tab: Seq<char>,
    tabs: Seq<TabModel>,
)
    ensures
        ({
            let after = session_with_pane(s, pane, layout, tab, tabs);
            &&& after.focused_pane == Some(pane.id)
            &&& after.focused_tab == Some(tab)
            &&& after.layout == layout
            &&& after.tabs == tabs
            &&& after.panes.contains(pane)
            &&& after.panes == with_pane(s.panes, pane)
            &&& after.id == s.id && after.name == s.name && after.cwd == s.cwd
            &&& after.created_timestamp == s.created_timestamp
            &&& after.clients == s.clients && after.windows == s.windows
            &&& after.subscribers == s.subscribers && after.sync == s.sync
        }),
{
    law_recorded_panes_are_there(s.panes, pane);
}

/// Of a pane that comes or goes the subscribers of the session are told first
/// the pane, then that the layout changed.
pub proof fn law_panes_that_come_and_go_are_told(
    s: SessionModel,
    pane: Seq<char>,
    tab: Seq<char>,
)
    ensures
        ({
            let added = pane_added_notices(s, pane, tab);
            let removed = pane_removed_notices(s, pane);
            let changed = NotificationModel::LayoutChanged { session_id: s.id };
            &&& added.len() == 2 && removed.len() == 2
            &&& forall|i: int|
                0 <= i < 2 ==> (#[trigger] added[i]).recipients == s.subscribers
                    && removed[i].recipients == s.subscribers
            &&& added[0].event == (NotificationModel::PaneAdded { pane_id: pane, tab_id: tab })
            &&& removed[0].event == (NotificationModel::PaneRemoved { pane_id: pane, exit_code: 0 })
            &&& added[1].event == changed && removed[1].event == changed
        }),
{
}

/// Whether one pane of a list was changed at most: the first one of an
/// identifier.
pub open spec fn only_first_changed(
    before: Seq<PaneModel>,
    after: Seq<PaneModel>,
    pane: Seq<char>,
    k: int,
) -> bool {
    &&& 0 <= k < before.len()
    &&& before[k].id == pane
    &&& forall|j: int| 0 <= j < k ==> (#[trigger] before[j]).id != pane
    &&& after.len() == before.len()
    &&& forall|j: int| 0 <= j < before.len() && j != k ==> #[trigger] after[j] == before[j]
}

proof fn lemma_first_of(panes: Seq<PaneModel>, pane: Seq<char>) -> (k: int)
    requires
        session::pane_keys(panes).contains(pane),
    ensures
        k == crate::attach::pane_index(panes, pane, 0),
        0 <= k < panes.len(),
        panes[k].id == pane,
        forall|j: int| 0 <= j < k ==> (#[trigger] panes[j]).id != pane,
{
    let w = choose|w: int| 0 <= w < panes.len() && session::pane_keys(panes)[w] == pane;
    assert(panes[w].id == pane);
    let k = lemma_first_from(panes, pane, w);
    crate::attach::lemma_pane_index(panes, pane, 0, k);
    k
}

proof fn lemma_first_from(panes: Seq<PaneModel>, pane: Seq<char>, w: int) -> (k: int)
    requires
        0 <= w < panes.len(),
        panes[w].id == pane,
    ensures
        0 <= k <= w,
        panes[k].id == pane,
        forall|j: int| 0 <= j < k ==> (#[trigger] panes[j]).id != pane,
    decreases w,
{
    if exists|j: int| 0 <= j < w && (#[trigger] panes[j]).id == pane {
        let j = choose|j: int| 0 <= j < w && (#[trigger] panes[j]).id == pane;
        lemma_first_from(panes, pane, j)
    } else {
        w
    }
}

/// A pane that is given a title, zoomed, or brought up to date is changed in
/// just that, and in its generation; no other pane is.
pub proof fn law_one_pane_is_changed(
    panes: Seq<PaneModel>,
    pane: Seq<char>,
    title: Seq<char>,
    zoomed: bool,
    metadata: PaneMetadata,
    cwd: Seq<char>,
)
    requires
        session::pane_keys(panes).contains(pane),
    ensures
        exists|k: int| #[trigger]
            only_first_changed(panes, panes_with_title(panes, pane, title), pane, k)
                && only_first_changed(panes, panes_with_zoom(panes, pane, zoomed), pane, k)
                && only_first_changed(panes, panes_with_metadata(panes, pane, metadata, cwd), pane, k)
                && {
                let old_pane = panes[k];
                let titled = panes_with_title(panes, pane, title)[k];
                let zoomed_pane = panes_with_zoom(panes, pane, zoomed)[k];
                let fresh = panes_with_metadata(panes, pane, metadata, cwd)[k];
                &&& titled.title == title && titled.zoomed == old_pane.zoomed
                &&& zoomed_pane.zoomed == zoomed && zoomed_pane.title == old_pane.title
                &&& same_but_title_and_zoom(old_pane, titled)
                &&& same_but_title_and_zoom(old_pane, zoomed_pane)
                &&& fresh.id == old_pane.id && fresh.command == old_pane.command
                &&& fresh.cwd == cwd && fresh.title == metadata.title@
                &&& fresh.cols == metadata.cols && fresh.rows == metadata.rows
                &&& fresh.generation == metadata.generation
                &&& fresh.is_alive == metadata.is_alive && fresh.zoomed == metadata.zoomed
            },
{
    let k = lemma_first_of(panes, pane);
    assert(only_first_changed(panes, panes_with_title(panes, pane, title), pane, k));
    assert(only_first_changed(panes, panes_with_zoom(panes, pane, zoomed), pane, k));
    assert(only_first_changed(panes, panes_with_metadata(panes, pane, metadata, cwd), pane, k));
}

/// Whether a pane is one generation further than another, and like it but for
/// its title and whether it is zoomed.
pub open spec fn same_but_title_and_zoom(before: PaneModel, after: PaneModel) -> bool {
    &&& after.id == before.id && after.cwd == before.cwd && after.command == before.command
    &&& after.cols == before.cols && after.rows == before.rows
    &&& after.is_alive == before.is_alive
    &&& before.generation < u64::MAX ==> after.generation == before.generation + 1
    &&& before.generation == u64::MAX ==> after.generation == u64::MAX
}

/// What a split starts from is the pane that is split: its tab, its size, and
/// its directory where none other is asked for.
pub proof fn law_splits_start_from_the_pane(
    s: SessionModel,
    pane: Seq<char>,
    number: i32,
    cwd: Option<Seq<char>>,
    plan: SplitPlan,
    k: int,
)
    requires
        split_planned(s, pane, number, cwd, plan),
        0 <= k < s.panes.len(),
        s.panes[k].id == pane,
        forall|j: int| 0 <= j < k ==> (#[trigger] s.panes[j]).id != pane,
    ensures
        plan.session_id@ == s.id,
        exists|i: int|
            0 <= i < s.tabs.len() && (#[trigger] s.tabs[i]).id == plan.tab_id@
                && s.tabs[i].pane_ids.contains(pane),
        plan.cols == s.panes[k].cols,
        plan.rows == s.panes[k].rows,
        cwd is Some && cwd->0.len() > 0 ==> plan.cwd@ == cwd->0,
        cwd is None || cwd->0.len() == 0 ==> plan.cwd@ == s.panes[k].cwd,
        number == 1 ==> plan.direction is LeftRight,
        number == 2 ==> plan.direction is TopBottom,
{
    lemma_pane_of(s.panes, pane, k);
    session::law_tab_of_a_pane_lists_it(s.tabs, pane);
}

/// The numbers of the directions in which an edge can be moved.
pub proof fn law_edges_move_in_two_directions(number: i32)
    ensures
        resize_direction(number) == Some(SplitDirection::LeftRight) <==> number == 1,
        resize_direction(number) == Some(SplitDirection::TopBottom) <==> number == 2,
{
}

/// The space around a pane can be shared out anew where the layout of the first
/// session that shows it says so; a pane that is not shown, and a direction that
/// is none, are no obstacle.
pub proof fn law_layouts_decide_on_resizing(r: Seq<SessionModel>, pane: Seq<char>, number: i32)
    ensures
        ({
            let k = showing(r, pane, 0);
            &&& k >= r.len() ==> layout_resizable(r, pane, number)
            &&& number != 1 && number != 2 ==> layout_resizable(r, pane, number)
            &&& k < r.len() && number == 1 ==> layout_resizable(r, pane, number)
                == layout_model::resizable(r[k].layout, pane, SplitDirection::LeftRight)
            &&& k < r.len() && number == 2 ==> layout_resizable(r, pane, number)
                == layout_model::resizable(r[k].layout, pane, SplitDirection::TopBottom)
        }),
{
}

/// A tab that is not there takes no pane.
pub proof fn law_unknown_tabs_take_no_pane(tabs: Seq<TabModel>, tab: Seq<char>, pane: Seq<char>)
    requires
        forall|i: int| 0 <= i < tabs.len() ==> (#[trigger] tabs[i]).id != tab,
    ensures
        pane_added_to_tab(tabs, tab, pane) == tabs,
{
    lemma_tab_index(tabs, tab, 0, tabs.len() as int);
}

} // verus!
