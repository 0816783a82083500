//! What saving and loading a split tree keep.
use crate::layout;
use crate::layout::SplitDirection;
use crate::layout_model;
use crate::layout_model::NodeModel;
use crate::layout_persist;
use crate::layout_persist::{EntryModel, PersistedLayoutError, MAX_PERSISTED_LAYOUT_NODES};
use crate::ratio;
use vstd::prelude::*;

verus! {

/// Whether the table holds the flat form of a tree from `base` on.
spec fn embeds(t: Seq<EntryModel>, base: int, n: NodeModel) -> bool {
    &&& 0 <= base
    &&& base + layout_persist::size(n) <= t.len()
    &&& t.subrange(base, base + layout_persist::size(n)) == layout_persist::flat(n, base)
}

spec fn embeds_forest(t: Seq<EntryModel>, base: int, f: Seq<NodeModel>) -> bool {
    &&& 0 <= base
    &&& base + layout_persist::forest_size(f) <= t.len()
    &&& t.subrange(base, base + layout_persist::forest_size(f)) == layout_persist::flat_forest(
        f,
        base,
    )
}

proof fn lemma_embeds_split(t: Seq<EntryModel>, base: int, n: NodeModel)
    requires
        embeds(t, base, n),
    ensures
        match n {
            NodeModel::Pane { id, pane_id } => t[base] == (EntryModel::Pane { id, pane_id }),
            NodeModel::Split { id, direction, children, ratios } => t[base] == (EntryModel::Split {
                id,
                direction,
                children: layout_persist::starts(children, base + 1),
                ratios,
            }) && embeds_forest(t, base + 1, children),
        },
{
    let whole = layout_persist::flat(n, base);
    layout_persist::lemma_flat_len(n, base);
    assert(t[base] == t.subrange(base, base + layout_persist::size(n))[0]);
    if let NodeModel::Split { id, direction, children, ratios } = n {
        layout_persist::lemma_flat_forest_len(children, base + 1);
        let below = layout_persist::flat_forest(children, base + 1);
        let range = t.subrange(base + 1, base + 1 + layout_persist::forest_size(children));
        assert forall|i: int| 0 <= i < below.len() implies range[i] == below[i] by {
            assert(whole[i + 1] == below[i]);
            assert(t.subrange(base, base + layout_persist::size(n))[i + 1] == t[base + 1 + i]);
        }
        assert(range =~= below);
    }
}

proof fn lemma_embeds_last(t: Seq<EntryModel>, base: int, f: Seq<NodeModel>)
    requires
        embeds_forest(t, base, f),
        f.len() > 0,
    ensures
        embeds_forest(t, base, f.drop_last()),
        embeds(t, base + layout_persist::forest_size(f.drop_last()), f.last()),
{
    let init = f.drop_last();
    let mid = base + layout_persist::forest_size(init);
    layout_persist::lemma_flat_forest_len(init, base);
    layout_persist::lemma_flat_len(f.last(), mid);
    let whole = layout_persist::flat_forest(f, base);
    let range = t.subrange(base, base + layout_persist::forest_size(f));
    let head = layout_persist::flat_forest(init, base);
    let tail = layout_persist::flat(f.last(), mid);
    assert(t.subrange(base, mid) =~= head) by {
        assert forall|i: int| 0 <= i < head.len() implies t.subrange(base, mid)[i] == head[i] by {
            assert(whole[i] == head[i]);
            assert(range[i] == t[base + i]);
        }
    }
    assert(t.subrange(mid, mid + layout_persist::size(f.last())) =~= tail) by {
        assert forall|i: int| 0 <= i < tail.len() implies t.subrange(
            mid,
            mid + layout_persist::size(f.last()),
        )[i] == tail[i] by {
            assert(whole[head.len() + i] == tail[i]);
            assert(range[head.len() + i] == t[mid + i]);
        }
    }
}

/// The children of an embedded split: where they start, in order, and that
/// they are embedded there.
proof fn lemma_embeds_child(t: Seq<EntryModel>, base: int, f: Seq<NodeModel>, k: int)
    requires
        embeds_forest(t, base, f),
        0 <= k < f.len(),
    ensures
        layout_persist::starts(f, base).len() == f.len(),
        embeds(t, layout_persist::starts(f, base)[k], f[k]),
        base <= layout_persist::starts(f, base)[k],
        layout_persist::starts(f, base)[k] + layout_persist::size(f[k]) <= base
            + layout_persist::forest_size(f),
        k + 1 < f.len() ==> layout_persist::starts(f, base)[k + 1]
            == layout_persist::starts(f, base)[k] + layout_persist::size(f[k]),
        k == f.len() - 1 ==> layout_persist::starts(f, base)[k] + layout_persist::size(f[k]) == base
            + layout_persist::forest_size(f),
        k == 0 ==> layout_persist::starts(f, base)[0] == base,
    decreases f.len(),
{
    let init = f.drop_last();
    layout_persist::lemma_flat_forest_len(f, base);
    layout_persist::lemma_flat_forest_len(init, base);
    layout_persist::lemma_flat_len(f.last(), base);
    lemma_embeds_last(t, base, f);
    if k < init.len() {
        lemma_embeds_child(t, base, init, k);
        assert(init[k] == f[k]);
        assert(layout_persist::starts(f, base)[k] == layout_persist::starts(init, base)[k]);
        if k + 1 < init.len() {
            assert(layout_persist::starts(f, base)[k + 1] == layout_persist::starts(init, base)[k
                + 1]);
        }
    } else {
        if k == 0 {
            assert(init =~= Seq::<NodeModel>::empty());
            assert(layout_persist::forest_size(init) == 0);
        }
    }
}

proof fn lemma_starts_increase(t: Seq<EntryModel>, base: int, f: Seq<NodeModel>, k: int, l: int)
    requires
        embeds_forest(t, base, f),
        0 <= k < l < f.len(),
    ensures
        layout_persist::starts(f, base)[k] + layout_persist::size(f[k])
            <= layout_persist::starts(f, base)[l],
    decreases l - k,
{
    lemma_embeds_child(t, base, f, k);
    layout_persist::lemma_flat_len(f[k + 1], 0);
    if k + 1 < l {
        lemma_starts_increase(t, base, f, k + 1, l);
    }
}

/// Loading gives back what was saved.
proof fn lemma_rebuilt(t: Seq<EntryModel>, base: int, n: NodeModel)
    requires
        embeds(t, base, n),
    ensures
        layout_persist::rebuilt(t, base) == n,
    decreases n,
{
    lemma_embeds_split(t, base, n);
    if let NodeModel::Split { id, direction, children, ratios } = n {
        let all = layout_persist::starts(children, base + 1);
        layout_persist::lemma_flat_forest_len(children, base + 1);
        let again = layout_persist::rebuilt(t, base)->children;
        assert forall|k: int| 0 <= k < children.len() implies again[k] == children[k] by {
            lemma_embeds_child(t, base + 1, children, k);
            layout_persist::lemma_flat_len(children[k], 0);
            lemma_rebuilt(t, all[k], children[k]);
        }
        assert(again =~= children);
    }
}

/// Whether a node between `base` and `end` has the node at `j` as a child.
spec fn has_parent(t: Seq<EntryModel>, base: int, end: int, j: int) -> bool {
    exists|p: int| base <= p < end && #[trigger] layout_persist::refers(t, p, j)
}

/// What holds of a node of a flat table on its own.
spec fn entry_fits(t: Seq<EntryModel>, i: int) -> bool {
    match t[i] {
        EntryModel::Pane { id, pane_id } => id.len() > 0 && pane_id.len() > 0,
        EntryModel::Split { id, direction, children, ratios } => {
            &&& id.len() > 0
            &&& children.len() >= 2
            &&& children.len() == ratios.len()
            &&& layout_persist::orderly(children, i, t.len() as int)
            &&& layout_model::all_shares(ratios)
            &&& ratio::total_of(ratios).share()
        },
    }
}

/// Every node of an embedded sound tree fits, its children stay inside the
/// tree, and every node but the root has exactly one parent there.
proof fn lemma_entries_fit(
    t: Seq<EntryModel>,
    base: int,
    n: NodeModel,
    depth: int,
    wire: int,
    parent: Option<SplitDirection>,
    max_wire: int,
)
    requires
        embeds(t, base, n),
        layout_model::shaped(n, depth, wire, parent, max_wire),
    ensures
        forall|i: int| base <= i < base + layout_persist::size(n) ==> #[trigger] entry_fits(t, i),
        forall|p: int, j: int|
            base <= p < base + layout_persist::size(n) && #[trigger] layout_persist::refers(t, p, j)
                ==> p < j < base + layout_persist::size(n),
        forall|j: int|
            base < j < base + layout_persist::size(n) ==> #[trigger] has_parent(
                t,
                base,
                base + layout_persist::size(n),
                j,
            ),
        forall|p: int, q: int, j: int|
            base <= p < base + layout_persist::size(n) && base <= q < base + layout_persist::size(n)
                && #[trigger] layout_persist::refers(t, p, j) && #[trigger] layout_persist::refers(
                t,
                q,
                j,
            ) ==> p == q,
    decreases n,
{
    lemma_embeds_split(t, base, n);
    layout_persist::lemma_flat_len(n, base);
    let end = base + layout_persist::size(n);
    match n {
        NodeModel::Pane { id, pane_id } => {
            assert(t[base].below() =~= Seq::<int>::empty());
        },
        NodeModel::Split { id, direction, children, ratios } => {
            let all = layout_persist::starts(children, base + 1);
            let below = layout_model::wire_below(wire, parent, direction);
            layout_persist::lemma_flat_forest_len(children, base + 1);
            assert(t[base].below() == all);
            assert forall|k: int| 0 <= k < children.len() implies base < (#[trigger] all[k]) && all[k]
                + layout_persist::size(children[k]) <= end && layout_persist::size(children[k]) >= 1 by {
                lemma_embeds_child(t, base + 1, children, k);
                layout_persist::lemma_flat_len(children[k], 0);
            }
            assert forall|k: int, l: int| 0 <= k < l < children.len() implies (#[trigger] all[k])
                + layout_persist::size(children[k]) <= (#[trigger] all[l]) by {
                lemma_starts_increase(t, base + 1, children, k, l);
            }
            assert(layout_persist::orderly(all, base, t.len() as int));
            assert(entry_fits(t, base));
            assert forall|k: int| 0 <= k < children.len() implies child_fits(
                t,
                #[trigger] all[k],
                children[k],
            ) by {
                lemma_embeds_child(t, base + 1, children, k);
                layout_model::lemma_forest_shaped_at(
                    children,
                    k,
                    depth + 1,
                    below,
                    direction,
                    max_wire,
                );
                lemma_entries_fit(
                    t,
                    all[k],
                    children[k],
                    depth + 1,
                    below,
                    Some(direction),
                    max_wire,
                );
            }
            assert forall|i: int| base < i < end implies #[trigger] within(children, all, i) by {
                lemma_within(t, base + 1, children, i);
            }
            assert forall|i: int| base <= i < end implies #[trigger] entry_fits(t, i) by {
                if i > base {
                    assert(within(children, all, i));
                    let k = choose|k: int|
                        0 <= k < children.len() && (#[trigger] all[k]) <= i < all[k]
                            + layout_persist::size(children[k]);
                    assert(child_fits(t, all[k], children[k]));
                }
            }
            assert forall|p: int, j: int|
                base <= p < end && #[trigger] layout_persist::refers(t, p, j) implies p < j < end by {
                if p > base {
                    assert(within(children, all, p));
                    let k = choose|k: int|
                        0 <= k < children.len() && (#[trigger] all[k]) <= p < all[k]
                            + layout_persist::size(children[k]);
                    assert(child_fits(t, all[k], children[k]));
                } else {
                    let k = choose|k: int| 0 <= k < all.len() && all[k] == j;
                    assert(base < all[k]);
                }
            }
            assert forall|j: int| base < j < end implies #[trigger] has_parent(t, base, end, j) by {
                assert(within(children, all, j));
                let k = choose|k: int|
                    0 <= k < children.len() && (#[trigger] all[k]) <= j < all[k]
                        + layout_persist::size(children[k]);
                if j == all[k] {
                    assert(all.contains(j));
                    assert(layout_persist::refers(t, base, j));
                } else {
                    assert(child_fits(t, all[k], children[k]));
                    assert(has_parent(t, all[k], all[k] + layout_persist::size(children[k]), j));
                    let p = choose|p: int|
                        all[k] <= p < all[k] + layout_persist::size(children[k])
                            && #[trigger] layout_persist::refers(t, p, j);
                    assert(layout_persist::refers(t, p, j));
                }
            }
            assert forall|p: int, q: int, j: int|
                base <= p < end && base <= q < end && #[trigger] layout_persist::refers(t, p, j)
                    && #[trigger] layout_persist::refers(t, q, j) implies p == q by {
                lemma_one_parent(t, base, children, all, end, p, q, j);
            }
        },
    }
}

/// What [`lemma_entries_fit`] says of one child.
spec fn child_fits(t: Seq<EntryModel>, base: int, n: NodeModel) -> bool {
    let end = base + layout_persist::size(n);
    &&& forall|i: int| base <= i < end ==> #[trigger] entry_fits(t, i)
    &&& forall|p: int, j: int|
        base <= p < end && #[trigger] layout_persist::refers(t, p, j) ==> p < j < end
    &&& forall|j: int| base < j < end ==> #[trigger] has_parent(t, base, end, j)
    &&& forall|p: int, q: int, j: int|
        base <= p < end && base <= q < end && #[trigger] layout_persist::refers(t, p, j)
            && #[trigger] layout_persist::refers(t, q, j) ==> p == q
}

/// Whether a position lies inside one of the children.
spec fn within(f: Seq<NodeModel>, all: Seq<int>, i: int) -> bool {
    exists|k: int|
        0 <= k < f.len() && (#[trigger] all[k]) <= i < all[k] + layout_persist::size(f[k])
}

proof fn lemma_within(t: Seq<EntryModel>, base: int, f: Seq<NodeModel>, i: int)
    requires
        embeds_forest(t, base, f),
        base <= i < base + layout_persist::forest_size(f),
    ensures
        within(f, layout_persist::starts(f, base), i),
    decreases f.len(),
{
    let init = f.drop_last();
    let all = layout_persist::starts(f, base);
    layout_persist::lemma_flat_forest_len(init, base);
    lemma_embeds_last(t, base, f);
    if i < base + layout_persist::forest_size(init) {
        lemma_within(t, base, init, i);
        let earlier = layout_persist::starts(init, base);
        let k = choose|k: int|
            0 <= k < init.len() && (#[trigger] earlier[k]) <= i < earlier[k]
                + layout_persist::size(init[k]);
        assert(all[k] == earlier[k] && f[k] == init[k]);
    } else {
        let k = f.len() - 1;
        assert(all[k] <= i < all[k] + layout_persist::size(f[k]));
    }
}

proof fn lemma_one_parent(
    t: Seq<EntryModel>,
    base: int,
    f: Seq<NodeModel>,
    all: Seq<int>,
    end: int,
    p: int,
    q: int,
    j: int,
)
    requires
        all.len() == f.len(),
        t[base].below() == all,
        base <= p < end,
        base <= q < end,
        layout_persist::refers(t, p, j),
        layout_persist::refers(t, q, j),
        forall|k: int|
            0 <= k < f.len() ==> base < (#[trigger] all[k]) && layout_persist::size(f[k]) >= 1,
        forall|k: int, l: int|
            0 <= k < l < f.len() ==> (#[trigger] all[k]) + layout_persist::size(f[k]) <= (
            #[trigger] all[l]),
        forall|k: int| 0 <= k < f.len() ==> child_fits(t, #[trigger] all[k], f[k]),
        forall|i: int| base < i < end ==> #[trigger] within(f, all, i),
    ensures
        p == q,
{
    if p != q {
        let a = if p < q {
            p
        } else {
            q
        };
        let b = if p < q {
            q
        } else {
            p
        };
        assert(within(f, all, b));
        let l = choose|l: int|
            0 <= l < f.len() && (#[trigger] all[l]) <= b < all[l] + layout_persist::size(f[l]);
        assert(child_fits(t, all[l], f[l]));
        assert(b < j < all[l] + layout_persist::size(f[l]));
        if a == base {
            let m = choose|m: int| 0 <= m < all.len() && all[m] == j;
            if m < l {
                assert(all[m] + layout_persist::size(f[m]) <= all[l]);
            } else if m > l {
                assert(all[l] + layout_persist::size(f[l]) <= all[m]);
            }
        } else {
            assert(within(f, all, a));
            let k = choose|k: int|
                0 <= k < f.len() && (#[trigger] all[k]) <= a < all[k] + layout_persist::size(f[k]);
            assert(child_fits(t, all[k], f[k]));
            assert(a < j < all[k] + layout_persist::size(f[k]));
            if k < l {
                assert(all[k] + layout_persist::size(f[k]) <= all[l]);
            } else if k > l {
                assert(all[l] + layout_persist::size(f[l]) <= all[k]);
            }
        }
    }
}

proof fn lemma_depth_fits(
    t: Seq<EntryModel>,
    base: int,
    n: NodeModel,
    depth: int,
    wire: int,
    parent: Option<SplitDirection>,
    max_wire: int,
)
    requires
        embeds(t, base, n),
        layout_model::shaped(n, depth, wire, parent, max_wire),
        wire <= max_wire,
    ensures
        layout_persist::depth_error(t, base, depth, wire, parent, max_wire) is None,
    decreases n,
{
    lemma_embeds_split(t, base, n);
    if let NodeModel::Split { id, direction, children, ratios } = n {
        let below = layout_model::wire_below(wire, parent, direction);
        lemma_children_depth_fits(
            t,
            base,
            base + 1,
            children,
            depth + 1,
            below,
            direction,
            max_wire,
        );
    }
}

proof fn lemma_children_depth_fits(
    t: Seq<EntryModel>,
    i: int,
    base: int,
    f: Seq<NodeModel>,
    depth: int,
    wire: int,
    parent: SplitDirection,
    max_wire: int,
)
    requires
        embeds_forest(t, base, f),
        i < base,
        layout_model::forest_shaped(f, depth, wire, parent, max_wire),
        wire <= max_wire,
    ensures
        layout_persist::children_depth_error(
            t,
            i,
            layout_persist::starts(f, base),
            depth,
            wire,
            parent,
            max_wire,
        ) is None,
    decreases f,
{
    let all = layout_persist::starts(f, base);
    layout_persist::lemma_flat_forest_len(f, base);
    if f.len() > 0 {
        lemma_embeds_last(t, base, f);
        let init = f.drop_last();
        assert(all.drop_last() =~= layout_persist::starts(init, base));
        lemma_depth_fits(t, all.last(), f.last(), depth, wire, Some(parent), max_wire);
        lemma_children_depth_fits(t, i, base, init, depth, wire, parent, max_wire);
    }
}

/// The node identifiers of a table, in order.
spec fn ids_of(t: Seq<EntryModel>) -> Seq<Seq<char>> {
    t.map_values(|e: EntryModel| e.node_id())
}

proof fn lemma_ids_of_flat(n: NodeModel, base: int)
    ensures
        ids_of(layout_persist::flat(n, base)) == layout_model::node_ids(n),
    decreases n,
{
    match n {
        NodeModel::Pane { id, pane_id } => {
            assert(ids_of(layout_persist::flat(n, base)) =~= seq![id]);
        },
        NodeModel::Split { id, direction, children, ratios } => {
            lemma_ids_of_flat_forest(children, base + 1);
            assert(ids_of(layout_persist::flat(n, base)) =~= seq![id] + ids_of(
                layout_persist::flat_forest(children, base + 1),
            ));
        },
    }
}

proof fn lemma_ids_of_flat_forest(f: Seq<NodeModel>, base: int)
    ensures
        ids_of(layout_persist::flat_forest(f, base)) == layout_model::forest_node_ids(f),
    decreases f,
{
    if f.len() == 0 {
        assert(ids_of(layout_persist::flat_forest(f, base)) =~= Seq::<Seq<char>>::empty());
    } else {
        let init = f.drop_last();
        let mid = base + layout_persist::forest_size(init);
        lemma_ids_of_flat_forest(init, base);
        lemma_ids_of_flat(f.last(), mid);
        assert(ids_of(layout_persist::flat_forest(f, base)) =~= ids_of(
            layout_persist::flat_forest(init, base),
        ) + ids_of(layout_persist::flat(f.last(), mid)));
    }
}

/// The panes of a table, in order.
spec fn panes_of(t: Seq<EntryModel>) -> Seq<Seq<char>>
    decreases t.len(),
{
    if t.len() == 0 {
        Seq::empty()
    } else if t.last() is Pane {
        panes_of(t.drop_last()).push(t.last()->pane_id)
    } else {
        panes_of(t.drop_last())
    }
}

proof fn lemma_panes_of_concat(a: Seq<EntryModel>, b: Seq<EntryModel>)
    ensures
        panes_of(a + b) == panes_of(a) + panes_of(b),
    decreases b.len(),
{
    if b.len() == 0 {
        assert(a + b =~= a);
        assert(panes_of(a) + panes_of(b) =~= panes_of(a));
    } else {
        lemma_panes_of_concat(a, b.drop_last());
        assert((a + b).drop_last() =~= a + b.drop_last());
        assert((a + b).last() == b.last());
        assert(panes_of(a + b) =~= panes_of(a) + panes_of(b));
    }
}

proof fn lemma_panes_of_flat(n: NodeModel, base: int)
    ensures
        panes_of(layout_persist::flat(n, base)) == layout_model::pane_ids(n),
    decreases n,
{
    match n {
        NodeModel::Pane { id, pane_id } => {
            let t = layout_persist::flat(n, base);
            assert(t.drop_last() =~= Seq::<EntryModel>::empty());
            assert(panes_of(t.drop_last()) =~= Seq::<Seq<char>>::empty());
            assert(panes_of(t) =~= seq![pane_id]);
        },
        NodeModel::Split { id, direction, children, ratios } => {
            let head = seq![
                EntryModel::Split {
                    id,
                    direction,
                    children: layout_persist::starts(children, base + 1),
                    ratios,
                },
            ];
            lemma_panes_of_flat_forest(children, base + 1);
            lemma_panes_of_concat(head, layout_persist::flat_forest(children, base + 1));
            assert(head.drop_last() =~= Seq::<EntryModel>::empty());
            assert(panes_of(head.drop_last()) =~= Seq::<Seq<char>>::empty());
            assert(panes_of(head) =~= Seq::<Seq<char>>::empty());
            assert(panes_of(layout_persist::flat(n, base)) =~= layout_model::forest_pane_ids(
                children,
            ));
        },
    }
}

proof fn lemma_panes_of_flat_forest(f: Seq<NodeModel>, base: int)
    ensures
        panes_of(layout_persist::flat_forest(f, base)) == layout_model::forest_pane_ids(f),
    decreases f,
{
    if f.len() > 0 {
        let init = f.drop_last();
        let mid = base + layout_persist::forest_size(init);
        lemma_panes_of_flat_forest(init, base);
        lemma_panes_of_flat(f.last(), mid);
        lemma_panes_of_concat(
            layout_persist::flat_forest(init, base),
            layout_persist::flat(f.last(), mid),
        );
    }
}

proof fn lemma_panes_of_contains(t: Seq<EntryModel>, k: int)
    requires
        0 <= k < t.len(),
        t[k] is Pane,
    ensures
        panes_of(t).contains(t[k]->pane_id),
    decreases t.len(),
{
    let pane = t[k]->pane_id;
    if k == t.len() - 1 {
        assert(panes_of(t)[panes_of(t).len() - 1] == pane);
    } else {
        lemma_panes_of_contains(t.drop_last(), k);
        let all = panes_of(t.drop_last());
        let w = choose|w: int| 0 <= w < all.len() && all[w] == pane;
        assert(panes_of(t)[w] == pane);
    }
}

/// A table that shows no pane twice has no node that repeats an earlier pane.
proof fn lemma_no_pane_before(t: Seq<EntryModel>, i: int)
    requires
        0 <= i < t.len(),
        t[i] is Pane,
        panes_of(t).no_duplicates(),
    ensures
        !layout_persist::pane_before(t, i, t[i]->pane_id),
{
    let pane = t[i]->pane_id;
    if layout_persist::pane_before(t, i, pane) {
        let j = choose|j: int| 0 <= j < i && (#[trigger] t[j]) is Pane && t[j]->pane_id == pane;
        let head = t.take(i);
        let tail = t.skip(i);
        assert(t =~= head + tail);
        lemma_panes_of_concat(head, tail);
        assert(head[j] == t[j] && tail[0] == t[i]);
        lemma_panes_of_contains(head, j);
        lemma_panes_of_contains(tail, 0);
        let a = choose|a: int| 0 <= a < panes_of(head).len() && panes_of(head)[a] == pane;
        let b = choose|b: int| 0 <= b < panes_of(tail).len() && panes_of(tail)[b] == pane;
        assert(panes_of(t)[a] == panes_of(t)[panes_of(head).len() + b]);
    }
}

proof fn lemma_no_entry_error(t: Seq<EntryModel>, k: int)
    requires
        0 <= k <= t.len(),
        forall|i: int| 0 <= i < t.len() ==> #[trigger] layout_persist::entry_error(t, i) is None,
    ensures
        layout_persist::first_entry_error(t, k) is None,
    decreases k,
{
    if k > 0 {
        lemma_no_entry_error(t, k - 1);
        assert(layout_persist::entry_error(t, k - 1) is None);
    }
}

/// Loading a saved tree gives the very tree back: a sound one of no more
/// nodes than a saved tree may have, and the placeholder of a session
/// without panes.
pub proof fn law_loading_undoes_saving(n: NodeModel, max_wire: int)
    requires
        0 <= max_wire,
        (layout_model::sound(n, max_wire) && layout_persist::size(n) <= MAX_PERSISTED_LAYOUT_NODES)
            || n == layout::empty_model(),
    ensures
        layout_persist::loaded(layout_persist::flat(n, 0), max_wire) == Ok::<
            NodeModel,
            PersistedLayoutError,
        >(n),
{
    let t = layout_persist::flat(n, 0);
    layout_persist::lemma_flat_len(n, 0);
    assert(t.subrange(0, t.len() as int) =~= t);
    if n != layout::empty_model() {
        assert(embeds(t, 0, n));
        lemma_entries_fit(t, 0, n, 0, 0, None, max_wire);
        lemma_depth_fits(t, 0, n, 0, 0, None, max_wire);
        lemma_rebuilt(t, 0, n);
        lemma_ids_of_flat(n, 0);
        lemma_panes_of_flat(n, 0);
        assert forall|i: int| 0 <= i < t.len() implies #[trigger] layout_persist::entry_error(t, i)
            is None by {
            assert(entry_fits(t, i));
            assert(!layout_persist::id_before(t, i, t[i].node_id())) by {
                if layout_persist::id_before(t, i, t[i].node_id()) {
                    let j = choose|j: int|
                        0 <= j < i && (#[trigger] t[j]).node_id() == t[i].node_id();
                    assert(ids_of(t)[j] == ids_of(t)[i]);
                }
            }
            if t[i] is Pane {
                lemma_no_pane_before(t, i);
            } else {
                layout_persist::lemma_child_error(t[i].below(), i, t.len() as int);
            }
        }
        lemma_no_entry_error(t, t.len() as int);
        assert(layout_persist::single_tree(t)) by {
            if layout_persist::referred_before(t, t.len() as int, 0) {
                let p = choose|p: int| 0 <= p < t.len() && #[trigger] layout_persist::refers(t, p, 0);
                assert(p < 0);
            }
            assert forall|j: int| 1 <= j < t.len() implies #[trigger] layout_persist::referred_before(
                t,
                t.len() as int,
                j,
            ) by {
                assert(has_parent(t, 0, t.len() as int, j));
            }
        }
        assert(!layout_persist::shared_before(t, t.len() as int));
        assert(entry_fits(t, 0));
    }
}

/// The positions at and below the node at `i`, parents first.
spec fn reach(t: Seq<EntryModel>, i: int) -> Seq<int>
    decreases t.len() - i, t[i].below().len() + 1,
{
    seq![i] + reach_children(t, i, t[i].below())
}

spec fn reach_children(t: Seq<EntryModel>, i: int, children: Seq<int>) -> Seq<int>
    decreases t.len() - i, children.len(),
{
    if children.len() == 0 {
        Seq::empty()
    } else if !(i < children.last() < t.len()) {
        Seq::empty()
    } else {
        reach_children(t, i, children.drop_last()) + reach(t, children.last())
    }
}

spec fn all_after(i: int, children: Seq<int>, count: int) -> bool {
    forall|k: int| 0 <= k < children.len() ==> i < #[trigger] children[k] < count
}

proof fn lemma_reach_children_contains(t: Seq<EntryModel>, i: int, children: Seq<int>, j: int)
    requires
        all_after(i, children, t.len() as int),
    ensures
        reach_children(t, i, children).contains(j) <==> exists|k: int|
            0 <= k < children.len() && reach(t, #[trigger] children[k]).contains(j),
    decreases children.len(),
{
    if children.len() > 0 {
        let init = children.drop_last();
        assert(all_after(i, init, t.len() as int)) by {
            assert forall|k: int| 0 <= k < init.len() implies i < #[trigger] init[k] < t.len() by {
                assert(init[k] == children[k]);
            }
        }
        lemma_reach_children_contains(t, i, init, j);
        assert(i < children[children.len() - 1] < t.len());
        lemma_int_contains_concat(reach_children(t, i, init), reach(t, children.last()), j);
        if reach_children(t, i, init).contains(j) {
            let k = choose|k: int| 0 <= k < init.len() && reach(t, #[trigger] init[k]).contains(j);
            assert(children[k] == init[k]);
        }
        if exists|k: int| 0 <= k < children.len() && reach(t, #[trigger] children[k]).contains(j) {
            let k = choose|k: int|
                0 <= k < children.len() && reach(t, #[trigger] children[k]).contains(j);
            if k < init.len() {
                assert(init[k] == children[k]);
            }
        }
        if reach(t, children.last()).contains(j) {
            assert(reach(t, children[children.len() - 1]).contains(j));
        }
    }
}

proof fn lemma_int_contains_concat(a: Seq<int>, b: Seq<int>, x: int)
    ensures
        (a + b).contains(x) <==> a.contains(x) || b.contains(x),
{
    if a.contains(x) {
        let k = choose|k: int| 0 <= k < a.len() && a[k] == x;
        assert((a + b)[k] == x);
    }
    if b.contains(x) {
        let k = choose|k: int| 0 <= k < b.len() && b[k] == x;
        assert((a + b)[a.len() + k] == x);
    }
    if (a + b).contains(x) {
        let k = choose|k: int| 0 <= k < (a + b).len() && (a + b)[k] == x;
        if k < a.len() {
            assert(a[k] == x);
        } else {
            assert(b[k - a.len()] == x);
        }
    }
}

/// What is reached lies at or after the start, and has a parent that is
/// reached too.
proof fn lemma_reach_step(t: Seq<EntryModel>, i: int, j: int)
    requires
        layout_persist::table_orderly(t),
        0 <= i < t.len(),
        reach(t, i).contains(j),
    ensures
        i <= j < t.len(),
        j != i ==> exists|p: int| i <= p < j && reach(t, i).contains(p) && #[trigger]
            layout_persist::refers(t, p, j),
    decreases t.len() - i,
{
    let children = t[i].below();
    assert(layout_persist::orderly(children, i, t.len() as int));
    assert(all_after(i, children, t.len() as int));
    lemma_int_contains_concat(seq![i], reach_children(t, i, children), j);
    assert(reach(t, i)[0] == i);
    assert(seq![i][0] == i);
    if j != i {
        lemma_reach_children_contains(t, i, children, j);
        let k = choose|k: int|
            0 <= k < children.len() && reach(t, #[trigger] children[k]).contains(j);
        lemma_reach_step(t, children[k], j);
        if j == children[k] {
            assert(layout_persist::refers(t, i, j));
            assert(reach(t, i).contains(i));
        } else {
            let p = choose|p: int| children[k] <= p < j && reach(t, children[k]).contains(p)
                && #[trigger] layout_persist::refers(t, p, j);
            lemma_reach_children_contains(t, i, children, p);
            lemma_int_contains_concat(seq![i], reach_children(t, i, children), p);
            assert(layout_persist::refers(t, p, j));
        }
    }
}

/// Where no node has two parents, two children of a node reach nothing in
/// common.
proof fn lemma_reach_apart(t: Seq<EntryModel>, i: int, a: int, b: int, j: int)
    requires
        layout_persist::table_orderly(t),
        !layout_persist::shared_before(t, t.len() as int),
        0 <= i < t.len(),
        a != b,
        layout_persist::refers(t, i, a),
        layout_persist::refers(t, i, b),
        i < a < t.len(),
        i < b < t.len(),
        reach(t, a).contains(j),
    ensures
        !reach(t, b).contains(j),
    decreases j,
{
    if reach(t, b).contains(j) {
        lemma_reach_step(t, a, j);
        lemma_reach_step(t, b, j);
        if j == a {
            let p = choose|p: int| b <= p < j && reach(t, b).contains(p) && #[trigger]
                layout_persist::refers(t, p, j);
            assert(layout_persist::refers(t, i, j) && layout_persist::refers(t, p, j));
        } else if j == b {
            let p = choose|p: int| a <= p < j && reach(t, a).contains(p) && #[trigger]
                layout_persist::refers(t, p, j);
            assert(layout_persist::refers(t, i, j) && layout_persist::refers(t, p, j));
        } else {
            let p = choose|p: int| a <= p < j && reach(t, a).contains(p) && #[trigger]
                layout_persist::refers(t, p, j);
            let q = choose|q: int| b <= q < j && reach(t, b).contains(q) && #[trigger]
                layout_persist::refers(t, q, j);
            assert(p == q) by {
                if p < q {
                    assert(layout_persist::refers(t, p, j) && layout_persist::refers(t, q, j));
                } else if q < p {
                    assert(layout_persist::refers(t, q, j) && layout_persist::refers(t, p, j));
                }
            }
            lemma_reach_apart(t, i, a, b, p);
        }
    }
}

proof fn lemma_reach_once(t: Seq<EntryModel>, i: int)
    requires
        layout_persist::table_orderly(t),
        !layout_persist::shared_before(t, t.len() as int),
        0 <= i < t.len(),
    ensures
        reach(t, i).no_duplicates(),
    decreases t.len() - i, t[i].below().len() + 1,
{
    let children = t[i].below();
    assert(layout_persist::orderly(children, i, t.len() as int));
    lemma_reach_children_once(t, i, children.len() as int);
    assert(children.take(children.len() as int) =~= children);
    let all = reach_children(t, i, children);
    assert(all_after(i, children, t.len() as int));
    assert(!all.contains(i)) by {
        if all.contains(i) {
            lemma_reach_children_contains(t, i, children, i);
            let k = choose|k: int|
                0 <= k < children.len() && reach(t, #[trigger] children[k]).contains(i);
            lemma_reach_step(t, children[k], i);
        }
    }
    assert forall|x: int, y: int|
        0 <= x < reach(t, i).len() && 0 <= y < reach(t, i).len() && x != y implies reach(t, i)[x]
        != reach(t, i)[y] by {
        if x > 0 && y > 0 {
            assert(all[x - 1] != all[y - 1]);
        } else if x == 0 {
            assert(all.contains(all[y - 1]));
        } else {
            assert(all.contains(all[x - 1]));
        }
    }
}

proof fn lemma_reach_children_once(t: Seq<EntryModel>, i: int, k: int)
    requires
        layout_persist::table_orderly(t),
        !layout_persist::shared_before(t, t.len() as int),
        0 <= i < t.len(),
        0 <= k <= t[i].below().len(),
    ensures
        reach_children(t, i, t[i].below().take(k)).no_duplicates(),
    decreases t.len() - i, k,
{
    let all = t[i].below();
    assert(layout_persist::orderly(all, i, t.len() as int));
    if k > 0 {
        let taken = all.take(k);
        let init = all.take(k - 1);
        let last = all[k - 1];
        assert(taken.drop_last() =~= init);
        assert(taken.last() == last);
        lemma_reach_children_once(t, i, k - 1);
        lemma_reach_once(t, last);
        assert(all_after(i, init, t.len() as int));
        let a = reach_children(t, i, init);
        let b = reach(t, last);
        assert forall|x: int, y: int|
            0 <= x < (a + b).len() && 0 <= y < (a + b).len() && x != y implies (a + b)[x] != (a
            + b)[y] by {
            if x < a.len() && y < a.len() {
                assert(a[x] != a[y]);
            } else if x >= a.len() && y >= a.len() {
                assert(b[x - a.len()] != b[y - a.len()]);
            } else {
                let u = if x < a.len() {
                    x
                } else {
                    y
                };
                let v = if x < a.len() {
                    y
                } else {
                    x
                };
                let j = a[u];
                assert(a.contains(j));
                lemma_reach_children_contains(t, i, init, j);
                let c = choose|c: int| 0 <= c < init.len() && reach(t, #[trigger] init[c]).contains(j);
                assert(init[c] == all[c]);
                assert(all[c] < all[k - 1]);
                assert(layout_persist::refers(t, i, all[c]));
                assert(layout_persist::refers(t, i, last));
                lemma_reach_apart(t, i, all[c], last, j);
                assert(b.contains(b[v - a.len()]));
            }
        }
    }
}

/// The nodes at some positions of a table.
spec fn entries_at(t: Seq<EntryModel>, r: Seq<int>) -> Seq<EntryModel> {
    r.map_values(|j: int| t[j])
}

proof fn lemma_rebuilt_lists(t: Seq<EntryModel>, i: int)
    requires
        layout_persist::table_orderly(t),
        0 <= i < t.len(),
    ensures
        layout_model::node_ids(layout_persist::rebuilt(t, i)) == ids_of(entries_at(t, reach(t, i))),
        layout_model::pane_ids(layout_persist::rebuilt(t, i)) == panes_of(
            entries_at(t, reach(t, i)),
        ),
    decreases t.len() - i, t[i].below().len() + 1,
{
    let r = reach(t, i);
    let n = layout_persist::rebuilt(t, i);
    let all = t[i].below();
    assert(layout_persist::orderly(all, i, t.len() as int));
    let below = entries_at(t, reach_children(t, i, all));
    let head = seq![t[i]];
    assert(entries_at(t, r) =~= head + below);
    lemma_panes_of_concat(head, below);
    assert(head.drop_last() =~= Seq::<EntryModel>::empty());
    assert(panes_of(head.drop_last()) =~= Seq::<Seq<char>>::empty());
    assert(ids_of(head + below) =~= seq![t[i].node_id()] + ids_of(below));
    match t[i] {
        EntryModel::Pane { id, pane_id } => {
            assert(reach_children(t, i, all) =~= Seq::<int>::empty());
            assert(below =~= Seq::<EntryModel>::empty());
            assert(panes_of(below) =~= Seq::<Seq<char>>::empty());
            assert(panes_of(head) =~= seq![pane_id]);
            assert(layout_model::pane_ids(n) =~= panes_of(head + below));
            assert(layout_model::node_ids(n) =~= ids_of(head + below));
        },
        EntryModel::Split { id, direction, children, ratios } => {
            lemma_rebuilt_children_lists(t, i, children.len() as int);
            assert(children.take(children.len() as int) =~= children);
            assert(n->children.take(children.len() as int) =~= n->children);
            assert(panes_of(head) =~= Seq::<Seq<char>>::empty());
            assert(layout_model::pane_ids(n) =~= panes_of(head + below));
        },
    }
}

proof fn lemma_rebuilt_children_lists(t: Seq<EntryModel>, i: int, k: int)
    requires
        layout_persist::table_orderly(t),
        0 <= i < t.len(),
        t[i] is Split,
        0 <= k <= t[i].below().len(),
    ensures
        layout_model::forest_node_ids(layout_persist::rebuilt(t, i)->children.take(k)) == ids_of(
            entries_at(t, reach_children(t, i, t[i].below().take(k))),
        ),
        layout_model::forest_pane_ids(layout_persist::rebuilt(t, i)->children.take(k)) == panes_of(
            entries_at(t, reach_children(t, i, t[i].below().take(k))),
        ),
    decreases t.len() - i, k,
{
    let all = t[i].below();
    assert(layout_persist::orderly(all, i, t.len() as int));
    let f = layout_persist::rebuilt(t, i)->children;
    let taken = all.take(k);
    if k == 0 {
        let none = entries_at(t, reach_children(t, i, taken));
        assert(none =~= Seq::<EntryModel>::empty());
        assert(ids_of(none) =~= Seq::<Seq<char>>::empty());
    } else {
        let last = all[k - 1];
        assert(taken.drop_last() =~= all.take(k - 1));
        assert(taken.last() == last);
        assert(f.take(k).drop_last() =~= f.take(k - 1));
        assert(f.take(k).last() == layout_persist::rebuilt(t, last));
        lemma_rebuilt_children_lists(t, i, k - 1);
        lemma_rebuilt_lists(t, last);
        let a = entries_at(t, reach_children(t, i, all.take(k - 1)));
        let b = entries_at(t, reach(t, last));
        assert(entries_at(t, reach_children(t, i, taken)) =~= a + b);
        assert(ids_of(a + b) =~= ids_of(a) + ids_of(b));
        lemma_panes_of_concat(a, b);
    }
}

proof fn lemma_panes_distinct(t: Seq<EntryModel>, r: Seq<int>)
    requires
        r.no_duplicates(),
        forall|x: int| 0 <= x < r.len() ==> 0 <= #[trigger] r[x] < t.len(),
        forall|p: int, q: int|
            0 <= p < q < t.len() && (#[trigger] t[p]) is Pane && (#[trigger] t[q]) is Pane
                ==> t[p]->pane_id != t[q]->pane_id,
    ensures
        panes_of(entries_at(t, r)).no_duplicates(),
        forall|pane: Seq<char>| #[trigger]
            panes_of(entries_at(t, r)).contains(pane) ==> exists|x: int|
                0 <= x < r.len() && t[#[trigger] r[x]] is Pane && t[r[x]]->pane_id == pane,
    decreases r.len(),
{
    let e = entries_at(t, r);
    if r.len() > 0 {
        let init = r.drop_last();
        assert forall|x: int| 0 <= x < init.len() implies 0 <= #[trigger] init[x] < t.len() by {
            assert(init[x] == r[x]);
        }
        assert(init.no_duplicates()) by {
            assert forall|x: int, y: int|
                0 <= x < init.len() && 0 <= y < init.len() && x != y implies init[x] != init[y] by {
                assert(init[x] == r[x] && init[y] == r[y]);
            }
        }
        lemma_panes_distinct(t, init);
        assert(e.drop_last() =~= entries_at(t, init));
        let last = r[r.len() - 1];
        assert(e.last() == t[last]);
        let before = panes_of(entries_at(t, init));
        if t[last] is Pane {
            let pane = t[last]->pane_id;
            assert(!before.contains(pane)) by {
                if before.contains(pane) {
                    let x = choose|x: int|
                        0 <= x < init.len() && t[#[trigger] init[x]] is Pane && t[init[x]]->pane_id
                            == pane;
                    assert(init[x] == r[x]);
                    assert(r[x] != last);
                    assert(t[r[x]] is Pane && t[last] is Pane);
                }
            }
            layout_model::lemma_fresh_push(before, pane);
        }
        assert forall|pane: Seq<char>| #[trigger] panes_of(e).contains(pane) implies exists|x: int|
            0 <= x < r.len() && t[#[trigger] r[x]] is Pane && t[r[x]]->pane_id == pane by {
            if before.contains(pane) {
                let x = choose|x: int|
                    0 <= x < init.len() && t[#[trigger] init[x]] is Pane && t[init[x]]->pane_id
                        == pane;
                assert(r[x] == init[x]);
            } else {
                let w = choose|w: int| 0 <= w < panes_of(e).len() && panes_of(e)[w] == pane;
                if w < before.len() {
                    assert(before[w] == pane);
                }
                assert(t[r[r.len() - 1]] is Pane);
            }
        }
    }
}

proof fn lemma_rebuilt_shaped(
    t: Seq<EntryModel>,
    i: int,
    depth: int,
    wire: int,
    parent: Option<SplitDirection>,
    max_wire: int,
)
    requires
        layout_persist::table_orderly(t),
        0 <= i < t.len(),
        forall|p: int| 0 <= p < t.len() ==> #[trigger] entry_fits(t, p),
        layout_persist::depth_error(t, i, depth, wire, parent, max_wire) is None,
    ensures
        layout_model::shaped(layout_persist::rebuilt(t, i), depth, wire, parent, max_wire),
        wire <= max_wire,
    decreases t.len() - i, t[i].below().len() + 1,
{
    assert(entry_fits(t, i));
    if let EntryModel::Split { id, direction, children, ratios } = t[i] {
        let below = layout_model::wire_below(wire, parent, direction);
        assert(children.take(children.len() as int) =~= children);
        let f = layout_persist::rebuilt(t, i)->children;
        assert(f.take(children.len() as int) =~= f);
        lemma_rebuilt_children_shaped(
            t,
            i,
            children.len() as int,
            depth + 1,
            below,
            direction,
            max_wire,
        );
    }
}

proof fn lemma_rebuilt_children_shaped(
    t: Seq<EntryModel>,
    i: int,
    k: int,
    depth: int,
    wire: int,
    parent: SplitDirection,
    max_wire: int,
)
    requires
        layout_persist::table_orderly(t),
        0 <= i < t.len(),
        t[i] is Split,
        0 <= k <= t[i].below().len(),
        forall|p: int| 0 <= p < t.len() ==> #[trigger] entry_fits(t, p),
        layout_persist::children_depth_error(
            t,
            i,
            t[i].below().take(k),
            depth,
            wire,
            parent,
            max_wire,
        ) is None,
    ensures
        layout_model::forest_shaped(
            layout_persist::rebuilt(t, i)->children.take(k),
            depth,
            wire,
            parent,
            max_wire,
        ),
        k > 0 ==> wire <= max_wire,
    decreases t.len() - i, k,
{
    let all = t[i].below();
    assert(layout_persist::orderly(all, i, t.len() as int));
    let f = layout_persist::rebuilt(t, i)->children;
    if k > 0 {
        let last = all[k - 1];
        assert(all.take(k).last() == last);
        assert(all.take(k).drop_last() =~= all.take(k - 1));
        assert(f.take(k).drop_last() =~= f.take(k - 1));
        assert(f.take(k).last() == layout_persist::rebuilt(t, last));
        lemma_rebuilt_shaped(t, last, depth, wire, Some(parent), max_wire);
        lemma_rebuilt_children_shaped(t, i, k - 1, depth, wire, parent, max_wire);
    }
}

/// Whatever loads is a sound tree, or the placeholder of a session without
/// panes.
pub proof fn law_what_loads_is_sound(t: Seq<EntryModel>, max_wire: int)
    requires
        layout_persist::loaded(t, max_wire) is Ok,
    ensures
        layout_persist::loaded(t, max_wire)->Ok_0 == layout::empty_model() || layout_model::sound(
            layout_persist::loaded(t, max_wire)->Ok_0,
            max_wire,
        ),
{
    let n = layout_persist::loaded(t, max_wire)->Ok_0;
    if n != layout::empty_model() {
        assert forall|p: int| 0 <= p < t.len() implies #[trigger] entry_fits(t, p)
            && layout_persist::entry_error(t, p) is None by {
            layout_persist::lemma_first_entry_error(t, t.len() as int, p);
            if t[p] is Split {
                layout_persist::lemma_child_error(t[p].below(), p, t.len() as int);
            }
        }
        assert forall|p: int| 0 <= p < t.len() implies layout_persist::orderly(
            (#[trigger] t[p]).below(),
            p,
            t.len() as int,
        ) by {
            assert(entry_fits(t, p));
        }
        lemma_rebuilt_shaped(t, 0, 0, 0, None, max_wire);
        lemma_rebuilt_lists(t, 0);
        lemma_reach_once(t, 0);
        let r = reach(t, 0);
        assert forall|x: int| 0 <= x < r.len() implies 0 <= #[trigger] r[x] < t.len() by {
            assert(r.contains(r[x]));
            lemma_reach_step(t, 0, r[x]);
        }
        assert forall|p: int, q: int|
            0 <= p < q < t.len() && (#[trigger] t[p]) is Pane && (#[trigger] t[q]) is Pane implies t[p]->pane_id
            != t[q]->pane_id by {
            assert(entry_fits(t, q));
            assert(layout_persist::entry_error(t, q) is None);
        }
        lemma_panes_distinct(t, r);
        let ids = ids_of(entries_at(t, r));
        assert forall|x: int, y: int|
            0 <= x < ids.len() && 0 <= y < ids.len() && x != y implies ids[x] != ids[y] by {
            let p = r[x];
            let q = r[y];
            assert(p != q);
            let late = if p < q {
                q
            } else {
                p
            };
            assert(entry_fits(t, late));
            assert(layout_persist::entry_error(t, late) is None);
            assert(t[p].node_id() == ids[x] && t[q].node_id() == ids[y]);
        }
    }
}

} // verus!
