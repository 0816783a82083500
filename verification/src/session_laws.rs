//! What holds of a session, whatever panes come and go.
use crate::layout;
use crate::layout::SplitDirection;
use crate::layout_model;
use crate::layout_model::NodeModel;
use crate::pane_requests;
use crate::persistence;
use crate::registry;
use crate::session;
use crate::session::{PaneModel, SessionModel, TabModel};
use crate::text;
use crate::text_order;
use vstd::prelude::*;

verus! {

/// Whether a layout shows just the panes of a session; a session without panes
/// has the placeholder.
pub open spec fn layout_fits(layout: NodeModel, panes: Seq<PaneModel>, max_wire: int) -> bool {
    ||| layout == layout::empty_model() && panes.len() == 0
    ||| {
        &&& layout_model::sound(layout, max_wire)
        &&& forall|p: Seq<char>| #[trigger]
            layout_model::holds_pane(layout, p) <==> session::pane_keys(panes).contains(p)
    }
}

/// Whether the parts of a session fit together: its layout shows its panes,
/// its tabs list them, and what is focused is there.
pub open spec fn coherent(s: SessionModel, max_wire: int) -> bool {
    let keys = session::pane_keys(s.panes);
    &&& s.wf()
    &&& layout_fits(s.layout, s.panes, max_wire)
    &&& persistence::tabs_are_known(s.tabs, keys)
    &&& persistence::all_listed(s.tabs, keys)
    &&& s.focused_pane is Some ==> keys.contains(s.focused_pane->0)
    &&& s.focused_tab is Some ==> session::tab_keys(s.tabs).contains(s.focused_tab->0)
}

/// A new session is coherent.
pub proof fn law_new_sessions_are_coherent(
    id: Seq<char>,
    name: Seq<char>,
    cwd: Seq<char>,
    created: u64,
    max_wire: int,
)
    ensures
        coherent(registry::fresh_session(id, name, cwd, created), max_wire),
{
    let s = registry::fresh_session(id, name, cwd, created);
    assert(session::tab_keys(s.tabs)[0] == "tab-0"@);
}

proof fn lemma_contains_push(list: Seq<Seq<char>>, last: Seq<char>, x: Seq<char>)
    ensures
        list.push(last).contains(x) <==> (list.contains(x) || x == last),
{
    let longer = list.push(last);
    assert(longer[list.len() as int] == last);
    if list.contains(x) {
        let i = choose|i: int| 0 <= i < list.len() && list[i] == x;
        assert(longer[i] == x);
    }
    if longer.contains(x) {
        let i = choose|i: int| 0 <= i < longer.len() && longer[i] == x;
        if i < list.len() {
            assert(list[i] == x);
        }
    }
}

/// Whether tabs list what others list and one pane more.
spec fn lists_one_more(before: Seq<TabModel>, after: Seq<TabModel>, pane: Seq<char>) -> bool {
    &&& forall|x: Seq<char>| #[trigger]
        persistence::is_listed(after, x) <==> (persistence::is_listed(before, x) || x == pane)
}

proof fn lemma_tab_index(tabs: Seq<TabModel>, tab: Seq<char>, k: int)
    requires
        0 <= k <= tabs.len(),
    ensures
        k <= pane_requests::tab_index(tabs, tab, k) <= tabs.len(),
        pane_requests::tab_index(tabs, tab, k) < tabs.len() ==> tabs[pane_requests::tab_index(
            tabs,
            tab,
            k,
        )].id == tab,
        pane_requests::tab_index(tabs, tab, k) == tabs.len() ==> forall|i: int|
            k <= i < tabs.len() ==> (#[trigger] tabs[i]).id != tab,
    decreases tabs.len() - k,
{
    if k < tabs.len() && tabs[k].id != tab {
        lemma_tab_index(tabs, tab, k + 1);
    }
}

proof fn lemma_added_to_tab(tabs: Seq<TabModel>, tab: Seq<char>, pane: Seq<char>)
    requires
        session::tab_keys(tabs).contains(tab),
    ensures
        lists_one_more(tabs, pane_requests::pane_added_to_tab(tabs, tab, pane), pane),
        session::tab_keys(pane_requests::pane_added_to_tab(tabs, tab, pane)) == session::tab_keys(
            tabs,
        ),
{
    let k = pane_requests::tab_index(tabs, tab, 0);
    lemma_tab_index(tabs, tab, 0);
    if k == tabs.len() {
        let i = choose|i: int| 0 <= i < tabs.len() && session::tab_keys(tabs)[i] == tab;
        assert(tabs[i].id == tab);
    }
    let after = pane_requests::pane_added_to_tab(tabs, tab, pane);
    assert(session::tab_keys(after) =~= session::tab_keys(tabs));
    assert forall|x: Seq<char>| #[trigger]
        persistence::is_listed(after, x) <==> (persistence::is_listed(tabs, x) || x == pane) by {
        lemma_contains_push(tabs[k].pane_ids, pane, x);
        if persistence::is_listed(after, x) {
            let i = choose|i: int|
                0 <= i < after.len() && (#[trigger] after[i]).pane_ids.contains(x);
            if i != k {
                assert(tabs[i].pane_ids.contains(x));
            } else if x != pane {
                assert(tabs[k].pane_ids.contains(x));
            }
        }
        if persistence::is_listed(tabs, x) {
            let i = choose|i: int|
                0 <= i < tabs.len() && (#[trigger] tabs[i]).pane_ids.contains(x);
            assert(after[i].pane_ids.contains(x));
        }
        if x == pane {
            assert(after[k].pane_ids.contains(x));
        }
    }
}

proof fn lemma_put_in_tab(tabs: Seq<TabModel>, tab: Seq<char>, pane: Seq<char>)
    requires
        session::tab_keys(tabs).no_duplicates(),
    ensures
        lists_one_more(tabs, pane_requests::with_pane_in_tab(tabs, tab, pane), pane),
        session::tab_keys(pane_requests::with_pane_in_tab(tabs, tab, pane)).no_duplicates(),
        session::tab_keys(pane_requests::with_pane_in_tab(tabs, tab, pane)).contains(tab),
{
    let after = pane_requests::with_pane_in_tab(tabs, tab, pane);
    if session::tab_keys(tabs).contains(tab) {
        lemma_added_to_tab(tabs, tab, pane);
    } else {
        let added = TabModel { id: tab, title: Seq::empty(), pane_ids: seq![pane] };
        assert(after == tabs.push(added));
        assert(session::tab_keys(after) =~= session::tab_keys(tabs).push(tab));
        layout_model::lemma_fresh_push(session::tab_keys(tabs), tab);
        assert(session::tab_keys(after)[tabs.len() as int] == tab);
        assert forall|x: Seq<char>| #[trigger]
            persistence::is_listed(after, x) <==> (persistence::is_listed(tabs, x) || x
                == pane) by {
            assert(added.pane_ids[0] == pane);
            if persistence::is_listed(after, x) {
                let i = choose|i: int|
                    0 <= i < after.len() && (#[trigger] after[i]).pane_ids.contains(x);
                if i < tabs.len() {
                    assert(tabs[i].pane_ids.contains(x));
                }
            }
            if persistence::is_listed(tabs, x) {
                let i = choose|i: int|
                    0 <= i < tabs.len() && (#[trigger] tabs[i]).pane_ids.contains(x);
                assert(after[i].pane_ids.contains(x));
            }
            if x == pane {
                assert(after[tabs.len() as int].pane_ids.contains(x));
            }
        }
    }
}

/// What is listed and what is there is the same.
proof fn lemma_listed_is_there(tabs: Seq<TabModel>, keys: Seq<Seq<char>>)
    ensures
        (persistence::tabs_are_known(tabs, keys) && persistence::all_listed(tabs, keys)) <==> (
        forall|x: Seq<char>| #[trigger] persistence::is_listed(tabs, x) <==> keys.contains(x)),
{
    if persistence::tabs_are_known(tabs, keys) && persistence::all_listed(tabs, keys) {
        assert forall|x: Seq<char>| #[trigger] persistence::is_listed(tabs, x) <==> keys.contains(
            x,
        ) by {
            if persistence::is_listed(tabs, x) {
                let i = choose|i: int|
                    0 <= i < tabs.len() && (#[trigger] tabs[i]).pane_ids.contains(x);
                let j = choose|j: int|
                    0 <= j < tabs[i].pane_ids.len() && tabs[i].pane_ids[j] == x;
                assert(keys.contains(tabs[i].pane_ids[j]));
            }
            if keys.contains(x) {
                let i = choose|i: int| 0 <= i < keys.len() && keys[i] == x;
                assert(persistence::is_listed(tabs, keys[i]));
            }
        }
    }
    if forall|x: Seq<char>| #[trigger] persistence::is_listed(tabs, x) <==> keys.contains(x) {
        assert forall|i: int, j: int|
            0 <= i < tabs.len() && 0 <= j < tabs[i].pane_ids.len() implies keys.contains(
            #[trigger] tabs[i].pane_ids[j],
        ) by {
            assert(tabs[i].pane_ids.contains(tabs[i].pane_ids[j]));
            assert(persistence::is_listed(tabs, tabs[i].pane_ids[j]));
        }
        assert forall|i: int| 0 <= i < keys.len() implies persistence::is_listed(
            tabs,
            #[trigger] keys[i],
        ) by {
            assert(keys.contains(keys[i]));
        }
    }
}

proof fn lemma_with_pane(
    s: SessionModel,
    pane: PaneModel,
    layout: NodeModel,
    tab: Seq<char>,
    tabs: Seq<TabModel>,
    max_wire: int,
)
    requires
        coherent(s, max_wire),
        !s.has_pane(pane.id),
        layout_model::sound(layout, max_wire),
        forall|p: Seq<char>| #[trigger]
            layout_model::holds_pane(layout, p) <==> (s.has_pane(p) || p == pane.id),
        lists_one_more(s.tabs, tabs, pane.id),
        session::tab_keys(tabs).no_duplicates(),
        session::tab_keys(tabs).contains(tab),
    ensures
        coherent(pane_requests::session_with_pane(s, pane, layout, tab, tabs), max_wire),
{
    let after = pane_requests::session_with_pane(s, pane, layout, tab, tabs);
    let keys = session::pane_keys(s.panes);
    let more = session::pane_keys(after.panes);
    assert(more =~= keys.push(pane.id));
    layout_model::lemma_fresh_push(keys, pane.id);
    assert forall|p: Seq<char>| #[trigger]
        layout_model::holds_pane(layout, p) <==> more.contains(p) by {
        lemma_contains_push(keys, pane.id, p);
    }
    lemma_listed_is_there(s.tabs, keys);
    assert forall|x: Seq<char>| #[trigger] persistence::is_listed(tabs, x) <==> more.contains(
        x,
    ) by {
        lemma_contains_push(keys, pane.id, x);
        assert(persistence::is_listed(s.tabs, x) <==> keys.contains(x));
    }
    lemma_listed_is_there(tabs, more);
    lemma_contains_push(keys, pane.id, pane.id);
}

/// A pane that is started in a coherent session leaves it coherent.
pub proof fn law_spawning_keeps_coherence(
    s: SessionModel,
    pane: PaneModel,
    tab: Seq<char>,
    max_wire: int,
)
    requires
        0 <= max_wire,
        coherent(s, max_wire),
        pane.id.len() > 0,
        !s.has_pane(pane.id),
        pane_requests::layout_with(s, pane.id, max_wire) is Ok,
    ensures
        coherent(
            pane_requests::session_with_pane(
                s,
                pane,
                pane_requests::layout_with(s, pane.id, max_wire)->Ok_0,
                tab,
                pane_requests::with_pane_in_tab(s.tabs, tab, pane.id),
            ),
            max_wire,
        ),
{
    let layout = pane_requests::layout_with(s, pane.id, max_wire)->Ok_0;
    if s.layout == layout::empty_model() {
        reveal_strlit("node-");
        assert(layout_model::node_ids(layout) =~= seq!["node-"@ + pane.id]);
        assert(layout_model::pane_ids(layout) =~= seq![pane.id]);
        assert(s.panes.len() == 0) by {
            if s.panes.len() > 0 {
                lemma_sound_is_not_empty(max_wire);
            }
        }
        assert forall|p: Seq<char>| #[trigger]
            layout_model::holds_pane(layout, p) <==> (s.has_pane(p) || p == pane.id) by {
            assert(seq![pane.id][0] == pane.id);
        }
    } else {
        let anchor = pane_requests::anchor_of(s)->0;
        assert forall|p: Seq<char>| #[trigger]
            layout_model::holds_pane(layout, p) <==> (s.has_pane(p) || p == pane.id) by {
            layout_model::law_split_adds_only_the_pane(
                s.layout,
                anchor,
                pane.id,
                SplitDirection::TopBottom,
                p,
                max_wire,
            );
            assert(layout_model::holds_pane(s.layout, p) <==> s.has_pane(p));
        }
        layout_model::law_split_adds_only_the_pane(
            s.layout,
            anchor,
            pane.id,
            SplitDirection::TopBottom,
            pane.id,
            max_wire,
        );
    }
    lemma_put_in_tab(s.tabs, tab, pane.id);
    lemma_with_pane(
        s,
        pane,
        layout,
        tab,
        pane_requests::with_pane_in_tab(s.tabs, tab, pane.id),
        max_wire,
    );
}

proof fn lemma_sound_is_not_empty(max_wire: int)
    ensures
        !layout_model::sound(layout::empty_model(), max_wire),
{
}

/// A pane that is split off in a coherent session leaves it coherent.
pub proof fn law_splitting_keeps_coherence(
    s: SessionModel,
    parent: Seq<char>,
    pane: PaneModel,
    direction: SplitDirection,
    tab: Seq<char>,
    max_wire: int,
)
    requires
        coherent(s, max_wire),
        s.has_pane(parent),
        session::tab_keys(s.tabs).contains(tab),
        layout_model::split_result(s.layout, parent, pane.id, direction, max_wire) is Ok,
    ensures
        coherent(
            pane_requests::session_with_pane(
                s,
                pane,
                layout_model::split_result(s.layout, parent, pane.id, direction, max_wire)->Ok_0,
                tab,
                pane_requests::pane_added_to_tab(s.tabs, tab, pane.id),
            ),
            max_wire,
        ),
{
    let layout = layout_model::split_result(s.layout, parent, pane.id, direction, max_wire)->Ok_0;
    assert(s.panes.len() > 0);
    assert(!layout_model::holds_pane(s.layout, pane.id));
    assert forall|p: Seq<char>| #[trigger]
        layout_model::holds_pane(layout, p) <==> (s.has_pane(p) || p == pane.id) by {
        layout_model::law_split_adds_only_the_pane(
            s.layout,
            parent,
            pane.id,
            direction,
            p,
            max_wire,
        );
        assert(layout_model::holds_pane(s.layout, p) <==> s.has_pane(p));
    }
    layout_model::law_split_adds_only_the_pane(
        s.layout,
        parent,
        pane.id,
        direction,
        pane.id,
        max_wire,
    );
    lemma_added_to_tab(s.tabs, tab, pane.id);
    lemma_with_pane(
        s,
        pane,
        layout,
        tab,
        pane_requests::pane_added_to_tab(s.tabs, tab, pane.id),
        max_wire,
    );
}

proof fn lemma_panes_without(panes: Seq<PaneModel>, pane: Seq<char>)
    ensures
        session::pane_keys(session::panes_without(panes, pane)) == text::without(
            session::pane_keys(panes),
            pane,
        ),
    decreases panes.len(),
{
    let keys = session::pane_keys(panes);
    if panes.len() > 0 {
        let init = panes.drop_last();
        lemma_panes_without(init, pane);
        assert(keys.drop_last() =~= session::pane_keys(init));
        let kept = session::panes_without(init, pane);
        assert(session::pane_keys(kept.push(panes.last())) =~= session::pane_keys(kept).push(
            panes.last().id,
        ));
    } else {
        assert(session::pane_keys(session::panes_without(panes, pane)) =~= text::without(
            keys,
            pane,
        ));
    }
}

proof fn lemma_tab_of_pane(tabs: Seq<TabModel>, pane: Seq<char>)
    ensures
        session::tab_of_pane(tabs, pane) is Some ==> session::tab_keys(tabs).contains(
            session::tab_of_pane(tabs, pane)->0,
        ),
    decreases tabs.len(),
{
    if tabs.len() > 0 {
        let init = tabs.drop_last();
        lemma_tab_of_pane(init, pane);
        let keys = session::tab_keys(tabs);
        assert(keys =~= session::tab_keys(init).push(tabs.last().id));
        if session::tab_of_pane(tabs, pane) is Some {
            lemma_contains_push(
                session::tab_keys(init),
                tabs.last().id,
                session::tab_of_pane(tabs, pane)->0,
            );
        }
    }
}

proof fn lemma_first_live(shown: Seq<Seq<char>>, panes: Seq<PaneModel>)
    ensures
        session::first_live(shown, panes) is Some ==> session::pane_keys(panes).contains(
            session::first_live(shown, panes)->0,
        ),
    decreases shown.len(),
{
    if shown.len() > 0 {
        lemma_first_live(shown.drop_last(), panes);
    }
}

proof fn lemma_tabs_without_pane(tabs: Seq<TabModel>, pane: Seq<char>, x: Seq<char>)
    ensures
        persistence::is_listed(session::tabs_without_pane(tabs, pane), x) <==> (
        persistence::is_listed(tabs, x) && x != pane),
{
    let after = session::tabs_without_pane(tabs, pane);
    if persistence::is_listed(after, x) {
        let i = choose|i: int| 0 <= i < after.len() && (#[trigger] after[i]).pane_ids.contains(x);
        text::lemma_without(tabs[i].pane_ids, pane, x);
        assert(tabs[i].pane_ids.contains(x));
    }
    if persistence::is_listed(tabs, x) && x != pane {
        let i = choose|i: int| 0 <= i < tabs.len() && (#[trigger] tabs[i]).pane_ids.contains(x);
        text::lemma_without(tabs[i].pane_ids, pane, x);
        assert(after[i].pane_ids.contains(x));
    }
}

/// A pane that goes leaves a coherent session coherent.
pub proof fn law_removing_keeps_coherence(s: SessionModel, pane: Seq<char>, max_wire: int)
    requires
        coherent(s, max_wire),
        s.has_pane(pane),
        session::layout_without(s.layout, pane, max_wire) is Ok,
    ensures
        coherent(
            session::session_without(
                s,
                pane,
                session::layout_without(s.layout, pane, max_wire)->Ok_0,
            ),
            max_wire,
        ),
{
    let layout = session::layout_without(s.layout, pane, max_wire)->Ok_0;
    let after = session::session_without(s, pane, layout);
    let keys = session::pane_keys(s.panes);
    let left = session::pane_keys(after.panes);
    let shown = layout_model::pane_ids(s.layout);
    lemma_panes_without(s.panes, pane);
    text::lemma_without_no_duplicates(keys, pane);
    assert forall|p: Seq<char>| #[trigger] left.contains(p) <==> (keys.contains(p) && p
        != pane) by {
        text::lemma_without(keys, pane, p);
    }
    assert(s.panes.len() > 0);
    assert(layout_model::holds_pane(s.layout, pane));
    if shown.len() == 1 && shown[0] == pane {
        assert(after.panes.len() == 0) by {
            if after.panes.len() > 0 {
                let other = left[0];
                assert(left.contains(other));
                assert(layout_model::holds_pane(s.layout, other));
                let i = choose|i: int| 0 <= i < shown.len() && shown[i] == other;
                assert(i == 0);
            }
        }
    } else {
        layout_model::law_remove_takes_only_the_pane(s.layout, pane, pane, max_wire);
        assert forall|p: Seq<char>| #[trigger]
            layout_model::holds_pane(layout, p) <==> left.contains(p) by {
            layout_model::law_remove_takes_only_the_pane(s.layout, pane, p, max_wire);
            assert(layout_model::holds_pane(s.layout, p) <==> keys.contains(p));
        }
    }
    lemma_listed_is_there(s.tabs, keys);
    assert forall|x: Seq<char>| #[trigger] persistence::is_listed(
        after.tabs,
        x,
    ) <==> left.contains(x) by {
        lemma_tabs_without_pane(s.tabs, pane, x);
        assert(persistence::is_listed(s.tabs, x) <==> keys.contains(x));
    }
    lemma_listed_is_there(after.tabs, left);
    lemma_first_live(layout_model::pane_ids(layout), after.panes);
    if after.focused_pane is Some {
        lemma_tab_of_pane(after.tabs, after.focused_pane->0);
    }
    assert(session::tab_keys(after.tabs) =~= session::tab_keys(s.tabs));
}

proof fn lemma_same_set(a: Seq<Seq<char>>, b: Seq<Seq<char>>)
    requires
        a.no_duplicates(),
        b.no_duplicates(),
        forall|x: Seq<char>| #[trigger] a.contains(x) <==> b.contains(x),
    ensures
        a.to_multiset() == b.to_multiset(),
{
    broadcast use vstd::seq_lib::group_to_multiset_ensures;

    a.lemma_multiset_has_no_duplicates();
    b.lemma_multiset_has_no_duplicates();
    assert forall|x: Seq<char>| a.to_multiset().count(x) == b.to_multiset().count(x) by {
        assert(a.contains(x) <==> a.to_multiset().count(x) > 0);
        assert(b.contains(x) <==> b.to_multiset().count(x) > 0);
        assert(a.contains(x) <==> b.contains(x));
    }
    assert(a.to_multiset() =~= b.to_multiset());
}

/// A coherent session with panes can be saved.
pub proof fn law_coherent_sessions_can_be_saved(s: SessionModel, max_wire: int)
    requires
        coherent(s, max_wire),
        s.panes.len() > 0,
    ensures
        persistence::save_error(s) is None,
{
    let saved = persistence::saved_session(s);
    let keys = session::pane_keys(s.panes);
    let all = s.panes.map_values(|p: PaneModel| persistence::saved_pane(p));
    let ids = persistence::saved_ids(saved.panes);
    text_order::law_order_keeps_keys(all);
    assert(text_order::keys(all) =~= keys);
    assert(text_order::keys(saved.panes) =~= ids);
    text_order::lemma_same_texts(keys, ids);
    let shown = layout_model::pane_ids(s.layout);
    assert forall|x: Seq<char>| #[trigger] shown.contains(x) <==> ids.contains(x) by {
        assert(layout_model::holds_pane(s.layout, x) <==> keys.contains(x));
        assert(keys.contains(x) <==> ids.contains(x));
    }
    lemma_same_set(shown, ids);
    lemma_listed_is_there(s.tabs, keys);
    assert forall|x: Seq<char>| #[trigger] persistence::is_listed(
        saved.tabs,
        x,
    ) <==> ids.contains(x) by {
        assert(keys.contains(x) <==> ids.contains(x));
        assert(persistence::is_listed(s.tabs, x) <==> keys.contains(x));
        if persistence::is_listed(saved.tabs, x) {
            let i = choose|i: int|
                0 <= i < saved.tabs.len() && (#[trigger] saved.tabs[i]).pane_ids.contains(x);
            let t = saved.tabs[i];
            text_order::law_order_keeps_everything(s.tabs, t);
            assert(saved.tabs.contains(t));
            let j = choose|j: int| 0 <= j < s.tabs.len() && s.tabs[j] == t;
            assert(s.tabs[j].pane_ids.contains(x));
        }
        if persistence::is_listed(s.tabs, x) {
            let i = choose|i: int|
                0 <= i < s.tabs.len() && (#[trigger] s.tabs[i]).pane_ids.contains(x);
            let t = s.tabs[i];
            text_order::law_order_keeps_everything(s.tabs, t);
            assert(s.tabs.contains(t));
            let j = choose|j: int| 0 <= j < saved.tabs.len() && saved.tabs[j] == t;
            assert(saved.tabs[j].pane_ids.contains(x));
        }
    }
    lemma_listed_is_there(saved.tabs, ids);
    text_order::law_order_keeps_keys(s.tabs);
    assert(text_order::keys(s.tabs) =~= session::tab_keys(s.tabs));
    assert(text_order::keys(saved.tabs) =~= session::tab_keys(saved.tabs));
    text_order::lemma_same_texts(session::tab_keys(s.tabs), session::tab_keys(saved.tabs));
}

} // verus!
