//! What a split tree is, mathematically: its panes and node identifiers in
//! order, and when its structure is sound.
use crate::layout::{LayoutError, SplitDirection, MAX_INTERNAL_LAYOUT_DEPTH};
use crate::ratio;
use crate::ratio::Ratio;
use crate::text;
use vstd::prelude::*;

verus! {

/// The mathematical value of a node.
pub enum NodeModel {
    Pane { id: Seq<char>, pane_id: Seq<char> },
    Split {
        id: Seq<char>,
        direction: SplitDirection,
        children: Seq<NodeModel>,
        ratios: Seq<Ratio>,
    },
}

impl NodeModel {
    pub open spec fn node_id(self) -> Seq<char> {
        match self {
            NodeModel::Pane { id, pane_id } => id,
            NodeModel::Split { id, direction, children, ratios } => id,
        }
    }

    /// The node under another identifier.
    pub open spec fn with_id(self, new_id: Seq<char>) -> NodeModel {
        match self {
            NodeModel::Pane { id, pane_id } => NodeModel::Pane { id: new_id, pane_id },
            NodeModel::Split { id, direction, children, ratios } => NodeModel::Split {
                id: new_id,
                direction,
                children,
                ratios,
            },
        }
    }
}

/// The identifiers of all nodes, parents before children.
pub open spec fn node_ids(n: NodeModel) -> Seq<Seq<char>>
    decreases n,
{
    match n {
        NodeModel::Pane { id, pane_id } => seq![id],
        NodeModel::Split { id, direction, children, ratios } => seq![id] + forest_node_ids(children),
    }
}

pub open spec fn forest_node_ids(f: Seq<NodeModel>) -> Seq<Seq<char>>
    decreases f,
{
    if f.len() == 0 {
        Seq::empty()
    } else {
        forest_node_ids(f.drop_last()) + node_ids(f.last())
    }
}

/// The identifiers of all panes, from left to right and top to bottom.
pub open spec fn pane_ids(n: NodeModel) -> Seq<Seq<char>>
    decreases n,
{
    match n {
        NodeModel::Pane { id, pane_id } => seq![pane_id],
        NodeModel::Split { id, direction, children, ratios } => forest_pane_ids(children),
    }
}

pub open spec fn forest_pane_ids(f: Seq<NodeModel>) -> Seq<Seq<char>>
    decreases f,
{
    if f.len() == 0 {
        Seq::empty()
    } else {
        forest_pane_ids(f.drop_last()) + pane_ids(f.last())
    }
}

/// The nesting on the wire of the children of a split: a split that runs as
/// its parent does shares the parent's level.
pub open spec fn wire_below(
    wire: int,
    parent: Option<SplitDirection>,
    direction: SplitDirection,
) -> int {
    if parent == Some(direction) {
        wire
    } else {
        wire + 1
    }
}

/// Whether every ratio is finite and above zero.
pub open spec fn all_shares(ratios: Seq<Ratio>) -> bool {
    forall|i: int| 0 <= i < ratios.len() ==> (#[trigger] ratios[i]).share()
}

/// Whether a node, apart from duplicate identifiers, is sound at this depth.
pub open spec fn shaped(
    n: NodeModel,
    depth: int,
    wire: int,
    parent: Option<SplitDirection>,
    max_wire: int,
) -> bool
    decreases n,
{
    &&& depth <= MAX_INTERNAL_LAYOUT_DEPTH
    &&& match n {
        NodeModel::Pane { id, pane_id } => id.len() > 0 && pane_id.len() > 0,
        NodeModel::Split { id, direction, children, ratios } => {
            let below = wire_below(wire, parent, direction);
            &&& below <= max_wire
            &&& id.len() > 0
            &&& children.len() >= 2
            &&& children.len() == ratios.len()
            &&& all_shares(ratios)
            &&& ratio::total_of(ratios).share()
            &&& forest_shaped(children, depth + 1, below, direction, max_wire)
        },
    }
}

pub open spec fn forest_shaped(
    f: Seq<NodeModel>,
    depth: int,
    wire: int,
    parent: SplitDirection,
    max_wire: int,
) -> bool
    decreases f,
{
    f.len() == 0 || (forest_shaped(f.drop_last(), depth, wire, parent, max_wire) && shaped(
        f.last(),
        depth,
        wire,
        Some(parent),
        max_wire,
    ))
}

/// A sound tree: sound at every node, and no identifier used twice.
pub open spec fn sound(n: NodeModel, max_wire: int) -> bool {
    &&& shaped(n, 0, 0, None, max_wire)
    &&& node_ids(n).no_duplicates()
    &&& pane_ids(n).no_duplicates()
}

/// The identifiers met so far on a walk of a tree.
pub struct Seen {
    pub nodes: Seq<Seq<char>>,
    pub panes: Seq<Seq<char>>,
}

/// What a walk of the tree, parents first, meets: the identifiers seen, or
/// the first thing that is wrong.
pub open spec fn visit(
    n: NodeModel,
    depth: int,
    wire: int,
    parent: Option<SplitDirection>,
    seen: Seen,
    max_wire: int,
) -> Result<Seen, LayoutError>
    decreases n,
{
    if depth > MAX_INTERNAL_LAYOUT_DEPTH {
        Err(LayoutError::InternalDepth)
    } else {
        match n {
            NodeModel::Pane { id, pane_id } => {
                if id.len() == 0 {
                    Err(LayoutError::EmptyNodeId)
                } else if pane_id.len() == 0 {
                    Err(LayoutError::EmptyPaneId)
                } else if seen.nodes.contains(id) {
                    Err(LayoutError::DuplicateNodeId)
                } else if seen.panes.contains(pane_id) {
                    Err(LayoutError::DuplicatePaneId)
                } else {
                    Ok(Seen { nodes: seen.nodes.push(id), panes: seen.panes.push(pane_id) })
                }
            },
            NodeModel::Split { id, direction, children, ratios } => {
                let below = wire_below(wire, parent, direction);
                if below > max_wire {
                    Err(LayoutError::WireDepth)
                } else if id.len() == 0 {
                    Err(LayoutError::EmptyNodeId)
                } else if seen.nodes.contains(id) {
                    Err(LayoutError::DuplicateNodeId)
                } else if children.len() < 2 {
                    Err(LayoutError::TooFewChildren)
                } else if children.len() != ratios.len() {
                    Err(LayoutError::MismatchedRatios)
                } else if !all_shares(ratios) {
                    Err(LayoutError::InvalidRatio)
                } else if !ratio::total_of(ratios).share() {
                    Err(LayoutError::InvalidRatioSum)
                } else {
                    visit_forest(
                        children,
                        depth + 1,
                        below,
                        direction,
                        Seen { nodes: seen.nodes.push(id), panes: seen.panes },
                        max_wire,
                    )
                }
            },
        }
    }
}

pub open spec fn visit_forest(
    f: Seq<NodeModel>,
    depth: int,
    wire: int,
    parent: SplitDirection,
    seen: Seen,
    max_wire: int,
) -> Result<Seen, LayoutError>
    decreases f,
{
    if f.len() == 0 {
        Ok(seen)
    } else {
        match visit_forest(f.drop_last(), depth, wire, parent, seen, max_wire) {
            Err(e) => Err(e),
            Ok(after) => visit(f.last(), depth, wire, Some(parent), after, max_wire),
        }
    }
}

/// The first thing that is wrong with a tree, in the order of a walk.
pub open spec fn structure(n: NodeModel, max_wire: int) -> Result<(), LayoutError> {
    match visit(n, 0, 0, None, Seen { nodes: Seq::empty(), panes: Seq::empty() }, max_wire) {
        Ok(seen) => Ok(()),
        Err(e) => Err(e),
    }
}

pub proof fn lemma_visit_prefix_error(
    f: Seq<NodeModel>,
    k: int,
    depth: int,
    wire: int,
    parent: SplitDirection,
    seen: Seen,
    max_wire: int,
)
    requires
        0 <= k <= f.len(),
        visit_forest(f.take(k), depth, wire, parent, seen, max_wire) is Err,
    ensures
        visit_forest(f, depth, wire, parent, seen, max_wire) == visit_forest(
            f.take(k),
            depth,
            wire,
            parent,
            seen,
            max_wire,
        ),
    decreases f.len(),
{
    if k == f.len() {
        assert(f.take(k) =~= f);
    } else {
        assert(f.drop_last().take(k) =~= f.take(k));
        lemma_visit_prefix_error(f.drop_last(), k, depth, wire, parent, seen, max_wire);
    }
}

/// Two lists that together hold nothing twice.
pub open spec fn fresh(seen: Seq<Seq<char>>, more: Seq<Seq<char>>) -> bool {
    (seen + more).no_duplicates()
}

proof fn lemma_no_duplicates_prefix(a: Seq<Seq<char>>, b: Seq<Seq<char>>)
    requires
        (a + b).no_duplicates(),
    ensures
        a.no_duplicates(),
        b.no_duplicates(),
{
    assert forall|i: int, j: int| 0 <= i < a.len() && 0 <= j < a.len() && i != j implies a[i]
        != a[j] by {
        assert((a + b)[i] == a[i] && (a + b)[j] == a[j]);
    }
    assert forall|i: int, j: int| 0 <= i < b.len() && 0 <= j < b.len() && i != j implies b[i]
        != b[j] by {
        assert((a + b)[a.len() + i] == b[i] && (a + b)[a.len() + j] == b[j]);
    }
}

pub proof fn lemma_fresh_push(seen: Seq<Seq<char>>, id: Seq<char>)
    requires
        seen.no_duplicates(),
    ensures
        fresh(seen, seq![id]) == !seen.contains(id),
        seen.push(id) == seen + seq![id],
{
    let all = seen + seq![id];
    assert(seen.push(id) =~= all);
    if seen.contains(id) {
        let k = choose|k: int| 0 <= k < seen.len() && seen[k] == id;
        assert(all[k] == all[seen.len() as int]);
    } else {
        assert forall|i: int, j: int| 0 <= i < all.len() && 0 <= j < all.len() && i != j implies all[i]
            != all[j] by {
            if i == seen.len() {
                assert(all[j] == seen[j]);
            } else if j == seen.len() {
                assert(all[i] == seen[i]);
            } else {
                assert(all[i] == seen[i] && all[j] == seen[j]);
            }
        }
    }
}

/// A walk succeeds exactly on a sound node whose identifiers are new, and
/// then has seen those identifiers in their order.
pub proof fn lemma_visit(
    n: NodeModel,
    depth: int,
    wire: int,
    parent: Option<SplitDirection>,
    seen: Seen,
    max_wire: int,
)
    requires
        seen.nodes.no_duplicates(),
        seen.panes.no_duplicates(),
    ensures
        visit(n, depth, wire, parent, seen, max_wire) is Ok <==> (shaped(
            n,
            depth,
            wire,
            parent,
            max_wire,
        ) && fresh(seen.nodes, node_ids(n)) && fresh(seen.panes, pane_ids(n))),
        visit(n, depth, wire, parent, seen, max_wire) matches Ok(after) ==> after.nodes
            == seen.nodes + node_ids(n) && after.panes == seen.panes + pane_ids(n),
    decreases n,
{
    match n {
        NodeModel::Pane { id, pane_id } => {
            lemma_fresh_push(seen.nodes, id);
            lemma_fresh_push(seen.panes, pane_id);
        },
        NodeModel::Split { id, direction, children, ratios } => {
            lemma_fresh_push(seen.nodes, id);
            let below = wire_below(wire, parent, direction);
            let next = Seen { nodes: seen.nodes.push(id), panes: seen.panes };
            assert(seen.nodes + node_ids(n) =~= next.nodes + forest_node_ids(children));
            if fresh(seen.nodes, node_ids(n)) {
                lemma_no_duplicates_prefix(next.nodes, forest_node_ids(children));
            }
            if next.nodes.no_duplicates() {
                lemma_visit_forest(children, depth + 1, below, direction, next, max_wire);
            }
        },
    }
}

pub proof fn lemma_visit_forest(
    f: Seq<NodeModel>,
    depth: int,
    wire: int,
    parent: SplitDirection,
    seen: Seen,
    max_wire: int,
)
    requires
        seen.nodes.no_duplicates(),
        seen.panes.no_duplicates(),
    ensures
        visit_forest(f, depth, wire, parent, seen, max_wire) is Ok <==> (forest_shaped(
            f,
            depth,
            wire,
            parent,
            max_wire,
        ) && fresh(seen.nodes, forest_node_ids(f)) && fresh(seen.panes, forest_pane_ids(f))),
        visit_forest(f, depth, wire, parent, seen, max_wire) matches Ok(after) ==> after.nodes
            == seen.nodes + forest_node_ids(f) && after.panes == seen.panes + forest_pane_ids(f),
    decreases f,
{
    if f.len() == 0 {
        assert(seen.nodes + forest_node_ids(f) =~= seen.nodes);
        assert(seen.panes + forest_pane_ids(f) =~= seen.panes);
    } else {
        let init = f.drop_last();
        lemma_visit_forest(init, depth, wire, parent, seen, max_wire);
        let nodes = seen.nodes + forest_node_ids(init);
        let panes = seen.panes + forest_pane_ids(init);
        assert(seen.nodes + forest_node_ids(f) =~= nodes + node_ids(f.last()));
        assert(seen.panes + forest_pane_ids(f) =~= panes + pane_ids(f.last()));
        if fresh(seen.nodes, forest_node_ids(f)) {
            lemma_no_duplicates_prefix(nodes, node_ids(f.last()));
        }
        if fresh(seen.panes, forest_pane_ids(f)) {
            lemma_no_duplicates_prefix(panes, pane_ids(f.last()));
        }
        if visit_forest(init, depth, wire, parent, seen, max_wire) is Ok {
            let after = visit_forest(init, depth, wire, parent, seen, max_wire)->Ok_0;
            lemma_visit(f.last(), depth, wire, Some(parent), after, max_wire);
        }
    }
}

/// Nothing is wrong with a tree exactly when it is sound.
pub proof fn law_structure_is_soundness(n: NodeModel, max_wire: int)
    ensures
        structure(n, max_wire) is Ok <==> sound(n, max_wire),
{
    let seen = Seen { nodes: Seq::empty(), panes: Seq::empty() };
    lemma_visit(n, 0, 0, None, seen, max_wire);
    assert(seen.nodes + node_ids(n) =~= node_ids(n));
    assert(seen.panes + pane_ids(n) =~= pane_ids(n));
}

/// Whether a pane is below a node.
pub open spec fn holds_pane(n: NodeModel, pane: Seq<char>) -> bool {
    pane_ids(n).contains(pane)
}

/// Whether a node identifier is used at or below a node.
pub open spec fn holds_node(n: NodeModel, id: Seq<char>) -> bool {
    node_ids(n).contains(id)
}

/// The first of the nodes, from `k` on, that a pane is below; their number
/// where it is below none.
pub open spec fn first_holding_pane(f: Seq<NodeModel>, pane: Seq<char>, k: int) -> int
    decreases f.len() - k,
{
    if k >= f.len() {
        f.len() as int
    } else if holds_pane(f[k], pane) {
        k
    } else {
        first_holding_pane(f, pane, k + 1)
    }
}

/// The first of the nodes, from `k` on, that uses a node identifier; their
/// number where none does.
pub open spec fn first_holding_node(f: Seq<NodeModel>, id: Seq<char>, k: int) -> int
    decreases f.len() - k,
{
    if k >= f.len() {
        f.len() as int
    } else if holds_node(f[k], id) {
        k
    } else {
        first_holding_node(f, id, k + 1)
    }
}

/// The first of the nodes, from `k` on, that is the leaf of a pane; their
/// number where none is.
pub open spec fn first_leaf(f: Seq<NodeModel>, pane: Seq<char>, k: int) -> int
    decreases f.len() - k,
{
    if k >= f.len() {
        f.len() as int
    } else if f[k] is Pane && f[k]->pane_id == pane {
        k
    } else {
        first_leaf(f, pane, k + 1)
    }
}

/// The identifier of the first node that shows a pane.
pub open spec fn pane_node_id(n: NodeModel, pane: Seq<char>) -> Option<Seq<char>>
    decreases n,
{
    match n {
        NodeModel::Pane { id, pane_id } => if pane_id == pane {
            Some(id)
        } else {
            None
        },
        NodeModel::Split { id, direction, children, ratios } => forest_pane_node_id(children, pane),
    }
}

pub open spec fn forest_pane_node_id(f: Seq<NodeModel>, pane: Seq<char>) -> Option<Seq<char>>
    decreases f,
{
    if f.len() == 0 {
        None
    } else {
        match forest_pane_node_id(f.drop_last(), pane) {
            Some(id) => Some(id),
            None => pane_node_id(f.last(), pane),
        }
    }
}

/// A leaf split in two: the old pane first, the new one second, in halves.
pub open spec fn leaf_split(
    id: Seq<char>,
    pane_id: Seq<char>,
    new_pane: Seq<char>,
    direction: SplitDirection,
) -> NodeModel {
    NodeModel::Split {
        id,
        direction,
        children: seq![
            NodeModel::Pane { id: id + "-left"@, pane_id },
            NodeModel::Pane { id: id + "-right"@, pane_id: new_pane },
        ],
        ratios: seq![Ratio { bits: ratio::HALF_BITS }, Ratio { bits: ratio::HALF_BITS }],
    }
}

/// The tree with the leaf `id` split, where such a leaf is found.
pub open spec fn split_at(
    n: NodeModel,
    id: Seq<char>,
    new_pane: Seq<char>,
    direction: SplitDirection,
) -> Option<NodeModel>
    decreases n,
{
    match n {
        NodeModel::Pane { id: own, pane_id } => if own == id {
            Some(leaf_split(own, pane_id, new_pane, direction))
        } else {
            None
        },
        NodeModel::Split { id: own, direction: along, children, ratios } => {
            let k = first_holding_node(children, id, 0);
            if 0 <= k < children.len() {
                match split_at(children[k], id, new_pane, direction) {
                    Some(child) => Some(
                        NodeModel::Split {
                            id: own,
                            direction: along,
                            children: children.update(k, child),
                            ratios,
                        },
                    ),
                    None => None,
                }
            } else {
                None
            }
        },
    }
}

/// A split after a child was taken out or changed: the one child that is
/// left takes the place, and the identifier, of its split.
pub open spec fn settled(
    id: Seq<char>,
    direction: SplitDirection,
    children: Seq<NodeModel>,
    ratios: Seq<Ratio>,
) -> NodeModel {
    if children.len() == 1 {
        children[0].with_id(id)
    } else {
        NodeModel::Split { id, direction, children, ratios }
    }
}

/// The ratios after the one at `index` was taken out: where more than one is
/// left, the neighbour before it (the first one, where there is none) gets it.
pub open spec fn ratios_without(ratios: Seq<Ratio>, index: int) -> Seq<Ratio> {
    let left = ratios.remove(index);
    if left.len() > 1 {
        let recipient = if index > 0 {
            index - 1
        } else {
            0
        };
        left.update(recipient, left[recipient].plus(ratios[index]))
    } else {
        left
    }
}

/// The tree without a pane; nothing where the pane is below no split.
pub open spec fn without_pane(n: NodeModel, pane: Seq<char>) -> Result<
    Option<NodeModel>,
    LayoutError,
>
    decreases n,
{
    match n {
        NodeModel::Pane { id, pane_id } => Ok(None),
        NodeModel::Split { id, direction, children, ratios } => {
            let leaf = first_leaf(children, pane, 0);
            let k = first_holding_pane(children, pane, 0);
            if 0 <= leaf < children.len() {
                if children.len() != ratios.len() {
                    Err(LayoutError::MismatchedRatios)
                } else {
                    Ok(
                        Some(
                            settled(
                                id,
                                direction,
                                children.remove(leaf),
                                ratios_without(ratios, leaf),
                            ),
                        ),
                    )
                }
            } else if 0 <= k < children.len() {
                match without_pane(children[k], pane) {
                    Err(e) => Err(e),
                    Ok(None) => Ok(None),
                    Ok(Some(child)) => Ok(
                        Some(settled(id, direction, children.update(k, child), ratios)),
                    ),
                }
            } else {
                Ok(None)
            }
        },
    }
}

/// The neighbour that a resize takes from or gives to: the one before, else
/// the one after; the number of ratios where there is none.
pub open spec fn resize_neighbor(index: int, count: int) -> int {
    if index > 0 {
        index - 1
    } else if index + 1 < count {
        index + 1
    } else {
        count
    }
}

/// The two ratios that a resize of a pane along a direction acts on: those of
/// the innermost split that runs in that direction.
pub open spec fn resize_pair(
    n: NodeModel,
    pane: Seq<char>,
    along: SplitDirection,
) -> Result<Option<(Ratio, Ratio)>, LayoutError>
    decreases n,
{
    match n {
        NodeModel::Pane { id, pane_id } => Ok(None),
        NodeModel::Split { id, direction, children, ratios } => {
            let index = first_holding_pane(children, pane, 0);
            if 0 <= index < children.len() {
                match resize_pair(children[index], pane, along) {
                    Ok(None) => {
                        let neighbor = resize_neighbor(index, ratios.len() as int);
                        if direction != along {
                            Ok(None)
                        } else if children.len() != ratios.len() {
                            Err(LayoutError::MismatchedRatios)
                        } else if neighbor >= ratios.len() {
                            Err(LayoutError::NoResizeNeighbor)
                        } else {
                            Ok(Some((ratios[index], ratios[neighbor])))
                        }
                    },
                    other => other,
                }
            } else {
                Ok(None)
            }
        },
    }
}

/// The tree with the two ratios that a resize acts on replaced.
pub open spec fn with_pair(
    n: NodeModel,
    pane: Seq<char>,
    along: SplitDirection,
    pair: (Ratio, Ratio),
) -> NodeModel
    decreases n,
{
    match n {
        NodeModel::Pane { id, pane_id } => n,
        NodeModel::Split { id, direction, children, ratios } => {
            let index = first_holding_pane(children, pane, 0);
            if 0 <= index < children.len() {
                if resize_pair(children[index], pane, along) == Ok::<
                    Option<(Ratio, Ratio)>,
                    LayoutError,
                >(None) {
                    let neighbor = resize_neighbor(index, ratios.len() as int);
                    NodeModel::Split {
                        id,
                        direction,
                        children,
                        ratios: ratios.update(index, pair.0).update(neighbor, pair.1),
                    }
                } else {
                    NodeModel::Split {
                        id,
                        direction,
                        children: children.update(
                            index,
                            with_pair(children[index], pane, along, pair),
                        ),
                        ratios,
                    }
                }
            } else {
                n
            }
        },
    }
}

pub proof fn lemma_first_holding_pane(f: Seq<NodeModel>, pane: Seq<char>, k: int)
    requires
        0 <= k <= f.len(),
    ensures
        k <= first_holding_pane(f, pane, k) <= f.len(),
        first_holding_pane(f, pane, k) < f.len() ==> holds_pane(
            f[first_holding_pane(f, pane, k)],
            pane,
        ),
    decreases f.len() - k,
{
    if k < f.len() && !holds_pane(f[k], pane) {
        lemma_first_holding_pane(f, pane, k + 1);
    }
}

pub proof fn lemma_first_holding_node(f: Seq<NodeModel>, id: Seq<char>, k: int)
    requires
        0 <= k <= f.len(),
    ensures
        k <= first_holding_node(f, id, k) <= f.len(),
    decreases f.len() - k,
{
    if k < f.len() && !holds_node(f[k], id) {
        lemma_first_holding_node(f, id, k + 1);
    }
}

pub proof fn lemma_first_leaf(f: Seq<NodeModel>, pane: Seq<char>, k: int)
    requires
        0 <= k <= f.len(),
    ensures
        k <= first_leaf(f, pane, k) <= f.len(),
    decreases f.len() - k,
{
    if k < f.len() && !(f[k] is Pane && f[k]->pane_id == pane) {
        lemma_first_leaf(f, pane, k + 1);
    }
}

pub proof fn lemma_pane_node_prefix(f: Seq<NodeModel>, k: int, pane: Seq<char>)
    requires
        0 <= k <= f.len(),
        forest_pane_node_id(f.take(k), pane) is Some,
    ensures
        forest_pane_node_id(f, pane) == forest_pane_node_id(f.take(k), pane),
    decreases f.len(),
{
    if k == f.len() {
        assert(f.take(k) =~= f);
    } else {
        assert(f.drop_last().take(k) =~= f.take(k));
        lemma_pane_node_prefix(f.drop_last(), k, pane);
    }
}

/// A pane is below a list of nodes exactly when it is below one of them.
pub proof fn lemma_forest_holds_pane(f: Seq<NodeModel>, pane: Seq<char>)
    ensures
        forest_pane_ids(f).contains(pane) <==> first_holding_pane(f, pane, 0) < f.len(),
{
    lemma_forest_pane_witness(f, pane);
    lemma_first_holding_pane(f, pane, 0);
    if forest_pane_ids(f).contains(pane) {
        let w = choose|w: int| 0 <= w < f.len() && holds_pane(#[trigger] f[w], pane);
        lemma_first_holding_pane_bound(f, pane, 0, w);
    } else if first_holding_pane(f, pane, 0) < f.len() {
        assert(holds_pane(f[first_holding_pane(f, pane, 0)], pane));
    }
}

proof fn lemma_first_holding_pane_bound(f: Seq<NodeModel>, pane: Seq<char>, k: int, w: int)
    requires
        0 <= k <= w < f.len(),
        holds_pane(f[w], pane),
    ensures
        first_holding_pane(f, pane, k) <= w,
    decreases w - k,
{
    if k < w && !holds_pane(f[k], pane) {
        lemma_first_holding_pane_bound(f, pane, k + 1, w);
    }
}

proof fn lemma_forest_pane_witness(f: Seq<NodeModel>, pane: Seq<char>)
    ensures
        forest_pane_ids(f).contains(pane) <==> exists|w: int|
            0 <= w < f.len() && holds_pane(#[trigger] f[w], pane),
    decreases f.len(),
{
    if f.len() > 0 {
        let init = f.drop_last();
        lemma_forest_pane_witness(init, pane);
        lemma_contains_concat(forest_pane_ids(init), pane_ids(f.last()), pane);
        if forest_pane_ids(init).contains(pane) {
            let w = choose|w: int| 0 <= w < init.len() && holds_pane(#[trigger] init[w], pane);
            assert(f[w] == init[w]);
        }
        if exists|w: int| 0 <= w < f.len() && holds_pane(#[trigger] f[w], pane) {
            let w = choose|w: int| 0 <= w < f.len() && holds_pane(#[trigger] f[w], pane);
            if w < init.len() {
                assert(init[w] == f[w]);
            }
        }
        if holds_pane(f.last(), pane) {
            assert(holds_pane(f[f.len() - 1], pane));
        }
    }
}

pub proof fn lemma_contains_concat(a: Seq<Seq<char>>, b: Seq<Seq<char>>, x: Seq<char>)
    ensures
        (a + b).contains(x) <==> a.contains(x) || b.contains(x),
{
    if a.contains(x) {
        let k = choose|k: int| 0 <= k < a.len() && a[k] == x;
        assert((a + b)[k] == x);
    }
    if b.contains(x) {
        let k = choose|k: int| 0 <= k < b.len() && b[k] == x;
        assert((a + b)[a.len() + k] == x);
    }
    if (a + b).contains(x) {
        let k = choose|k: int| 0 <= k < (a + b).len() && (a + b)[k] == x;
        if k < a.len() {
            assert(a[k] == x);
        } else {
            assert(b[k - a.len()] == x);
        }
    }
}

/// A node identifier is used below a list of nodes exactly when one of them
/// uses it.
pub proof fn lemma_forest_holds_node(f: Seq<NodeModel>, id: Seq<char>)
    ensures
        forest_node_ids(f).contains(id) <==> first_holding_node(f, id, 0) < f.len(),
{
    lemma_forest_node_witness(f, id);
    lemma_first_holding_node(f, id, 0);
    if forest_node_ids(f).contains(id) {
        let w = choose|w: int| 0 <= w < f.len() && holds_node(#[trigger] f[w], id);
        lemma_first_holding_node_bound(f, id, 0, w);
    } else if first_holding_node(f, id, 0) < f.len() {
        lemma_first_holding_node_holds(f, id, 0);
        assert(holds_node(f[first_holding_node(f, id, 0)], id));
    }
}

pub proof fn lemma_first_holding_node_holds(f: Seq<NodeModel>, id: Seq<char>, k: int)
    requires
        0 <= k <= f.len(),
        first_holding_node(f, id, k) < f.len(),
    ensures
        k <= first_holding_node(f, id, k),
        holds_node(f[first_holding_node(f, id, k)], id),
    decreases f.len() - k,
{
    if k < f.len() && !holds_node(f[k], id) {
        lemma_first_holding_node_holds(f, id, k + 1);
    }
}

proof fn lemma_first_holding_node_bound(f: Seq<NodeModel>, id: Seq<char>, k: int, w: int)
    requires
        0 <= k <= w < f.len(),
        holds_node(f[w], id),
    ensures
        first_holding_node(f, id, k) <= w,
    decreases w - k,
{
    if k < w && !holds_node(f[k], id) {
        lemma_first_holding_node_bound(f, id, k + 1, w);
    }
}

proof fn lemma_forest_node_witness(f: Seq<NodeModel>, id: Seq<char>)
    ensures
        forest_node_ids(f).contains(id) <==> exists|w: int|
            0 <= w < f.len() && holds_node(#[trigger] f[w], id),
    decreases f.len(),
{
    if f.len() > 0 {
        let init = f.drop_last();
        lemma_forest_node_witness(init, id);
        lemma_contains_concat(forest_node_ids(init), node_ids(f.last()), id);
        if forest_node_ids(init).contains(id) {
            let w = choose|w: int| 0 <= w < init.len() && holds_node(#[trigger] init[w], id);
            assert(f[w] == init[w]);
        }
        if exists|w: int| 0 <= w < f.len() && holds_node(#[trigger] f[w], id) {
            let w = choose|w: int| 0 <= w < f.len() && holds_node(#[trigger] f[w], id);
            if w < init.len() {
                assert(init[w] == f[w]);
            }
        }
        if holds_node(f.last(), id) {
            assert(holds_node(f[f.len() - 1], id));
        }
    }
}

/// A tree that is taken over only where its structure is sound.
pub open spec fn checked(n: NodeModel, max_wire: int) -> Result<NodeModel, LayoutError> {
    match structure(n, max_wire) {
        Ok(_) => Ok(n),
        Err(e) => Err(e),
    }
}

/// What splitting a pane gives.
pub open spec fn split_result(
    n: NodeModel,
    pane: Seq<char>,
    new_pane: Seq<char>,
    direction: SplitDirection,
    max_wire: int,
) -> Result<NodeModel, LayoutError> {
    if new_pane.len() == 0 {
        Err(LayoutError::EmptyNewPaneId)
    } else if holds_pane(n, new_pane) {
        Err(LayoutError::PaneAlreadyExists)
    } else {
        match pane_node_id(n, pane) {
            None => Err(LayoutError::PaneNotFound),
            Some(id) => match split_at(n, id, new_pane, direction) {
                None => Err(LayoutError::NodeNotFound),
                Some(after) => checked(after, max_wire),
            },
        }
    }
}

/// What removing a pane gives.
pub open spec fn remove_result(n: NodeModel, pane: Seq<char>, max_wire: int) -> Result<
    NodeModel,
    LayoutError,
> {
    if n is Pane && n->pane_id == pane {
        Err(LayoutError::SoleRootPane)
    } else {
        match without_pane(n, pane) {
            Err(e) => Err(e),
            Ok(None) => Err(LayoutError::PaneNotFound),
            Ok(Some(after)) => checked(after, max_wire),
        }
    }
}

/// What moving the edge of a pane gives.
pub open spec fn resize_result(
    n: NodeModel,
    pane: Seq<char>,
    along: SplitDirection,
    delta: Ratio,
    max_wire: int,
) -> Result<NodeModel, LayoutError> {
    if !delta.finite() {
        Err(LayoutError::NonFiniteDelta)
    } else {
        match resize_pair(n, pane, along) {
            Err(e) => Err(e),
            Ok(None) => Err(LayoutError::NoMatchingSplit),
            Ok(Some(pair)) => if !pair.0.plus(pair.1).share() {
                Err(LayoutError::InvalidResizePair)
            } else {
                checked(
                    with_pair(n, pane, along, ratio::resized(pair.0, pair.1, delta)),
                    max_wire,
                )
            },
        }
    }
}

/// Whether a resize can share out the two ratios that it acts on.
pub open spec fn resizable(n: NodeModel, pane: Seq<char>, along: SplitDirection) -> bool {
    resize_pair(n, pane, along) matches Ok(Some(pair)) ==> pair.0.plus(pair.1).share()
        ==> ratio::divisible(pair.0.plus(pair.1))
}

proof fn lemma_first_leaf_skips(f: Seq<NodeModel>, pane: Seq<char>, k: int)
    requires
        0 <= k <= f.len(),
        forall|i: int| k <= i < f.len() ==> !((#[trigger] f[i]) is Pane && f[i]->pane_id == pane),
    ensures
        first_leaf(f, pane, k) == f.len(),
    decreases f.len() - k,
{
    if k < f.len() {
        lemma_first_leaf_skips(f, pane, k + 1);
    }
}

proof fn lemma_first_holding_pane_is(f: Seq<NodeModel>, pane: Seq<char>, k: int, w: int)
    requires
        0 <= k <= w < f.len(),
        holds_pane(f[w], pane),
        forall|i: int| k <= i < w ==> !holds_pane(#[trigger] f[i], pane),
    ensures
        first_holding_pane(f, pane, k) == w,
    decreases w - k,
{
    if k < w {
        lemma_first_holding_pane_is(f, pane, k + 1, w);
    }
}

proof fn lemma_split_undone(
    n: NodeModel,
    id: Seq<char>,
    new_pane: Seq<char>,
    direction: SplitDirection,
    depth: int,
    wire: int,
    parent: Option<SplitDirection>,
    max_wire: int,
)
    requires
        shaped(n, depth, wire, parent, max_wire),
        !holds_pane(n, new_pane),
        split_at(n, id, new_pane, direction) is Some,
    ensures
        split_at(n, id, new_pane, direction)->0 is Split,
        holds_pane(split_at(n, id, new_pane, direction)->0, new_pane),
        without_pane(split_at(n, id, new_pane, direction)->0, new_pane) == Ok::<
            Option<NodeModel>,
            LayoutError,
        >(Some(n)),
    decreases n,
{
    let after = split_at(n, id, new_pane, direction)->0;
    match n {
        NodeModel::Pane { id: own, pane_id } => {
            let children = after->children;
            let ratios = after->ratios;
            assert(seq![pane_id][0] == pane_id);
            assert(pane_id != new_pane);
            assert(children[0]->pane_id == pane_id && children[1]->pane_id == new_pane);
            reveal_with_fuel(first_leaf, 3);
            assert(first_leaf(children, new_pane, 0) == 1);
            assert(children.remove(1) =~= seq![children[0]]);
            assert(children.remove(1)[0].with_id(own) == n);
            assert(pane_ids(children[1]) =~= seq![new_pane]);
            assert(pane_ids(children[1])[0] == new_pane);
            lemma_forest_pane_witness(children, new_pane);
            assert(holds_pane(children[1], new_pane));
        },
        NodeModel::Split { id: own, direction: along, children, ratios } => {
            let k = first_holding_node(children, id, 0);
            lemma_first_holding_node(children, id, 0);
            lemma_forest_pane_witness(children, new_pane);
            assert(!holds_pane(children[k], new_pane));
            let below = wire_below(wire, parent, along);
            lemma_forest_shaped_at(children, k, depth + 1, below, along, max_wire);
            lemma_split_undone(
                children[k],
                id,
                new_pane,
                direction,
                depth + 1,
                below,
                Some(along),
                max_wire,
            );
            let changed = after->children;
            let child = split_at(children[k], id, new_pane, direction)->0;
            assert(changed[k] == child);
            assert forall|i: int| 0 <= i < changed.len() implies !((#[trigger] changed[i]) is Pane
                && changed[i]->pane_id == new_pane) by {
                if i != k {
                    assert(changed[i] == children[i]);
                    assert(!holds_pane(children[i], new_pane));
                    if children[i] is Pane {
                        assert(pane_ids(children[i])[0] == children[i]->pane_id);
                    }
                }
            }
            lemma_first_leaf_skips(changed, new_pane, 0);
            assert forall|i: int| 0 <= i < k implies !holds_pane(#[trigger] changed[i], new_pane) by {
                assert(changed[i] == children[i]);
                assert(!holds_pane(children[i], new_pane));
            }
            lemma_first_holding_pane_is(changed, new_pane, 0, k);
            assert(changed.update(k, children[k]) =~= children);
            lemma_forest_pane_witness(changed, new_pane);
            assert(holds_pane(changed[k], new_pane));
        },
    }
}

pub proof fn lemma_forest_shaped_at(
    f: Seq<NodeModel>,
    k: int,
    depth: int,
    wire: int,
    parent: SplitDirection,
    max_wire: int,
)
    requires
        0 <= k < f.len(),
        forest_shaped(f, depth, wire, parent, max_wire),
    ensures
        shaped(f[k], depth, wire, Some(parent), max_wire),
    decreases f.len(),
{
    if k < f.len() - 1 {
        lemma_forest_shaped_at(f.drop_last(), k, depth, wire, parent, max_wire);
    }
}

/// Removing the pane that a split has just added gives the tree back.
pub proof fn law_remove_undoes_split(
    n: NodeModel,
    pane: Seq<char>,
    new_pane: Seq<char>,
    direction: SplitDirection,
    max_wire: int,
)
    requires
        split_result(n, pane, new_pane, direction, max_wire) is Ok,
    ensures
        remove_result(
            split_result(n, pane, new_pane, direction, max_wire)->Ok_0,
            new_pane,
            max_wire,
        ) == Ok::<NodeModel, LayoutError>(n),
{
    law_only_sound_trees_are_split(n, pane, new_pane, direction, max_wire);
    let id = pane_node_id(n, pane)->0;
    lemma_split_undone(n, id, new_pane, direction, 0, 0, None, max_wire);
    law_structure_is_soundness(n, max_wire);
}

/// A sound tree shows at least one pane.
pub proof fn law_sound_tree_has_a_pane(n: NodeModel, max_wire: int)
    requires
        sound(n, max_wire),
    ensures
        pane_ids(n).len() > 0,
{
    lemma_shaped_has_a_pane(n, 0, 0, None, max_wire);
}

proof fn lemma_shaped_has_a_pane(
    n: NodeModel,
    depth: int,
    wire: int,
    parent: Option<SplitDirection>,
    max_wire: int,
)
    requires
        shaped(n, depth, wire, parent, max_wire),
    ensures
        pane_ids(n).len() > 0,
    decreases n,
{
    if let NodeModel::Split { id, direction, children, ratios } = n {
        let below = wire_below(wire, parent, direction);
        lemma_forest_shaped_at(
            children,
            children.len() - 1,
            depth + 1,
            below,
            direction,
            max_wire,
        );
        lemma_shaped_has_a_pane(children.last(), depth + 1, below, Some(direction), max_wire);
    }
}

proof fn lemma_without_pane_holds(n: NodeModel, pane: Seq<char>, other: Seq<char>)
    requires
        pane_ids(n).no_duplicates(),
        without_pane(n, pane) matches Ok(Some(_)),
    ensures
        holds_pane(without_pane(n, pane)->Ok_0->0, other) <==> holds_pane(n, other) && other
            != pane,
    decreases n,
{
    let after = without_pane(n, pane)->Ok_0->0;
    if let NodeModel::Split { id, direction, children, ratios } = n {
        let leaf = first_leaf(children, pane, 0);
        let k = first_holding_pane(children, pane, 0);
        lemma_first_leaf(children, pane, 0);
        lemma_first_holding_pane(children, pane, 0);
        lemma_forest_pane_witness(children, other);
        if 0 <= leaf < children.len() {
            lemma_first_leaf_is_leaf(children, pane, 0);
            let rest = children.remove(leaf);
            lemma_forest_pane_witness(rest, other);
            assert(pane_ids(children[leaf]) =~= seq![pane]);
            assert(pane_ids(children[leaf])[0] == pane);
            assert forall|i: int| 0 <= i < children.len() && i != leaf implies !holds_pane(
                #[trigger] children[i],
                pane,
            ) by {
                lemma_forest_panes_apart(children, leaf, i, pane);
            }
            if holds_pane(n, other) && other != pane {
                let w = choose|w: int|
                    0 <= w < children.len() && holds_pane(#[trigger] children[w], other);
                if w == leaf {
                    assert(seq![pane].contains(other));
                }
                let v = if w < leaf {
                    w
                } else {
                    w - 1
                };
                assert(rest[v] == children[w]);
            }
            if forest_pane_ids(rest).contains(other) {
                let v = choose|v: int| 0 <= v < rest.len() && holds_pane(#[trigger] rest[v], other);
                let w = if v < leaf {
                    v
                } else {
                    v + 1
                };
                assert(children[w] == rest[v]);
            }
            lemma_settled_holds(id, direction, rest, ratios_without(ratios, leaf), other);
        } else {
            lemma_forest_no_duplicates_at(children, k);
            lemma_without_pane_holds(children[k], pane, other);
            let child = without_pane(children[k], pane)->Ok_0->0;
            let changed = children.update(k, child);
            lemma_forest_pane_witness(changed, other);
            assert forall|i: int| 0 <= i < children.len() && i != k implies !holds_pane(
                #[trigger] children[i],
                pane,
            ) by {
                lemma_forest_panes_apart(children, k, i, pane);
            }
            if holds_pane(n, other) && other != pane {
                let w = choose|w: int|
                    0 <= w < children.len() && holds_pane(#[trigger] children[w], other);
                assert(holds_pane(changed[w], other));
            }
            if forest_pane_ids(changed).contains(other) {
                let w = choose|w: int|
                    0 <= w < changed.len() && holds_pane(#[trigger] changed[w], other);
                assert(holds_pane(children[w], other));
            }
            lemma_settled_holds(id, direction, changed, ratios, other);
        }
    }
}

proof fn lemma_settled_holds(
    id: Seq<char>,
    direction: SplitDirection,
    children: Seq<NodeModel>,
    ratios: Seq<Ratio>,
    pane: Seq<char>,
)
    ensures
        holds_pane(settled(id, direction, children, ratios), pane)
            == forest_pane_ids(children).contains(pane),
{
    if children.len() == 1 {
        assert(forest_pane_ids(children.drop_last()) == Seq::<Seq<char>>::empty());
        assert(forest_pane_ids(children) =~= pane_ids(children[0]));
        assert(pane_ids(children[0].with_id(id)) =~= pane_ids(children[0]));
    }
}

proof fn lemma_first_leaf_is_leaf(f: Seq<NodeModel>, pane: Seq<char>, k: int)
    requires
        0 <= k <= f.len(),
        first_leaf(f, pane, k) < f.len(),
    ensures
        k <= first_leaf(f, pane, k),
        f[first_leaf(f, pane, k)] is Pane,
        f[first_leaf(f, pane, k)]->pane_id == pane,
    decreases f.len() - k,
{
    if k < f.len() && !(f[k] is Pane && f[k]->pane_id == pane) {
        lemma_first_leaf_is_leaf(f, pane, k + 1);
    }
}

/// In a list of nodes that shows no pane twice, two nodes share no pane.
proof fn lemma_forest_panes_apart(f: Seq<NodeModel>, i: int, j: int, pane: Seq<char>)
    requires
        0 <= i < f.len(),
        0 <= j < f.len(),
        i != j,
        forest_pane_ids(f).no_duplicates(),
        holds_pane(f[i], pane),
    ensures
        !holds_pane(f[j], pane),
    decreases f.len(),
{
    let init = f.drop_last();
    lemma_no_duplicates_prefix(forest_pane_ids(init), pane_ids(f.last()));
    lemma_forest_pane_witness(init, pane);
    if i < init.len() && j < init.len() {
        lemma_forest_panes_apart(init, i, j, pane);
    } else {
        let early = if i < j {
            i
        } else {
            j
        };
        if holds_pane(f[j], pane) {
            assert(holds_pane(init[early], pane));
            let all = forest_pane_ids(init) + pane_ids(f.last());
            let a = choose|a: int|
                0 <= a < forest_pane_ids(init).len() && forest_pane_ids(init)[a] == pane;
            let b = choose|b: int| 0 <= b < pane_ids(f.last()).len() && pane_ids(f.last())[b] == pane;
            assert(all[a] == all[forest_pane_ids(init).len() + b]);
        }
    }
}

proof fn lemma_forest_no_duplicates_at(f: Seq<NodeModel>, k: int)
    requires
        0 <= k < f.len(),
        forest_pane_ids(f).no_duplicates(),
    ensures
        pane_ids(f[k]).no_duplicates(),
    decreases f.len(),
{
    lemma_no_duplicates_prefix(forest_pane_ids(f.drop_last()), pane_ids(f.last()));
    if k < f.len() - 1 {
        lemma_forest_no_duplicates_at(f.drop_last(), k);
    }
}

/// Removing a pane from a sound tree leaves a sound tree that shows every
/// other pane and no longer that one.
pub proof fn law_remove_takes_only_the_pane(
    n: NodeModel,
    pane: Seq<char>,
    other: Seq<char>,
    max_wire: int,
)
    requires
        sound(n, max_wire),
        remove_result(n, pane, max_wire) is Ok,
    ensures
        sound(remove_result(n, pane, max_wire)->Ok_0, max_wire),
        holds_pane(remove_result(n, pane, max_wire)->Ok_0, other) <==> holds_pane(n, other)
            && other != pane,
{
    lemma_without_pane_holds(n, pane, other);
    law_structure_is_soundness(remove_result(n, pane, max_wire)->Ok_0, max_wire);
}

proof fn lemma_split_at_holds(
    n: NodeModel,
    id: Seq<char>,
    new_pane: Seq<char>,
    direction: SplitDirection,
    other: Seq<char>,
)
    requires
        split_at(n, id, new_pane, direction) is Some,
    ensures
        holds_pane(split_at(n, id, new_pane, direction)->0, other) <==> holds_pane(n, other)
            || other == new_pane,
    decreases n,
{
    let after = split_at(n, id, new_pane, direction)->0;
    match n {
        NodeModel::Pane { id: own, pane_id } => {
            let children = after->children;
            lemma_forest_pane_witness(children, other);
            assert(pane_ids(children[0]) =~= seq![pane_id]);
            assert(pane_ids(children[1]) =~= seq![new_pane]);
            assert(seq![pane_id][0] == pane_id);
            assert(seq![new_pane][0] == new_pane);
            if other == pane_id {
                assert(holds_pane(children[0], other));
            }
            if other == new_pane {
                assert(holds_pane(children[1], other));
            }
        },
        NodeModel::Split { id: own, direction: along, children, ratios } => {
            let k = first_holding_node(children, id, 0);
            lemma_first_holding_node(children, id, 0);
            lemma_split_at_holds(children[k], id, new_pane, direction, other);
            let changed = after->children;
            lemma_forest_pane_witness(children, other);
            lemma_forest_pane_witness(changed, other);
            if forest_pane_ids(children).contains(other) {
                let w = choose|w: int|
                    0 <= w < children.len() && holds_pane(#[trigger] children[w], other);
                assert(holds_pane(changed[w], other));
            }
            if forest_pane_ids(changed).contains(other) {
                let w = choose|w: int|
                    0 <= w < changed.len() && holds_pane(#[trigger] changed[w], other);
                if w != k {
                    assert(holds_pane(children[w], other));
                } else {
                    assert(holds_pane(children[k], other) || other == new_pane);
                }
            }
            if other == new_pane {
                assert(holds_pane(changed[k], other));
            }
        },
    }
}

/// Splitting a pane gives a sound tree that shows what was shown before and
/// the new pane.
pub proof fn law_split_adds_only_the_pane(
    n: NodeModel,
    pane: Seq<char>,
    new_pane: Seq<char>,
    direction: SplitDirection,
    other: Seq<char>,
    max_wire: int,
)
    requires
        split_result(n, pane, new_pane, direction, max_wire) is Ok,
    ensures
        sound(split_result(n, pane, new_pane, direction, max_wire)->Ok_0, max_wire),
        holds_pane(split_result(n, pane, new_pane, direction, max_wire)->Ok_0, other)
            <==> holds_pane(n, other) || other == new_pane,
{
    let id = pane_node_id(n, pane)->0;
    lemma_split_at_holds(n, id, new_pane, direction, other);
    law_structure_is_soundness(
        split_result(n, pane, new_pane, direction, max_wire)->Ok_0,
        max_wire,
    );
}

proof fn lemma_forest_update(f: Seq<NodeModel>, k: int, child: NodeModel)
    requires
        0 <= k < f.len(),
        pane_ids(child) == pane_ids(f[k]),
        node_ids(child) == node_ids(f[k]),
    ensures
        forest_pane_ids(f.update(k, child)) == forest_pane_ids(f),
        forest_node_ids(f.update(k, child)) == forest_node_ids(f),
    decreases f.len(),
{
    let changed = f.update(k, child);
    if k == f.len() - 1 {
        assert(changed.drop_last() =~= f.drop_last());
    } else {
        lemma_forest_update(f.drop_last(), k, child);
        assert(changed.drop_last() =~= f.drop_last().update(k, child));
    }
}

proof fn lemma_with_pair_keeps_ids(
    n: NodeModel,
    pane: Seq<char>,
    along: SplitDirection,
    pair: (Ratio, Ratio),
)
    ensures
        pane_ids(with_pair(n, pane, along, pair)) == pane_ids(n),
        node_ids(with_pair(n, pane, along, pair)) == node_ids(n),
    decreases n,
{
    if let NodeModel::Split { id, direction, children, ratios } = n {
        let index = first_holding_pane(children, pane, 0);
        if 0 <= index < children.len() {
            lemma_with_pair_keeps_ids(children[index], pane, along, pair);
            lemma_forest_update(
                children,
                index,
                with_pair(children[index], pane, along, pair),
            );
        }
    }
}

/// Moving the edge of a pane gives a sound tree with the same nodes and the
/// same panes, in the same order.
pub proof fn law_resize_keeps_panes(
    n: NodeModel,
    pane: Seq<char>,
    along: SplitDirection,
    delta: Ratio,
    max_wire: int,
)
    requires
        resize_result(n, pane, along, delta, max_wire) is Ok,
    ensures
        ({
            let after = resize_result(n, pane, along, delta, max_wire)->Ok_0;
            &&& sound(after, max_wire)
            &&& pane_ids(after) == pane_ids(n)
            &&& node_ids(after) == node_ids(n)
        }),
{
    let pair = resize_pair(n, pane, along)->Ok_0->0;
    lemma_with_pair_keeps_ids(n, pane, along, ratio::resized(pair.0, pair.1, delta));
    law_structure_is_soundness(resize_result(n, pane, along, delta, max_wire)->Ok_0, max_wire);
}

/// The panes and nodes of a list of nodes, around one of them.
proof fn lemma_forest_around(f: Seq<NodeModel>, k: int)
    requires
        0 <= k < f.len(),
    ensures
        forest_pane_ids(f) == forest_pane_ids(f.take(k)) + pane_ids(f[k]) + forest_pane_ids(
            f.skip(k + 1),
        ),
        forest_node_ids(f) == forest_node_ids(f.take(k)) + node_ids(f[k]) + forest_node_ids(
            f.skip(k + 1),
        ),
    decreases f.len(),
{
    let rest = f.skip(k + 1);
    if k == f.len() - 1 {
        assert(f.take(k) =~= f.drop_last());
        assert(rest =~= Seq::<NodeModel>::empty());
        assert(forest_pane_ids(f.take(k)) + pane_ids(f[k]) + forest_pane_ids(rest)
            =~= forest_pane_ids(f.take(k)) + pane_ids(f[k]));
        assert(forest_node_ids(f.take(k)) + node_ids(f[k]) + forest_node_ids(rest)
            =~= forest_node_ids(f.take(k)) + node_ids(f[k]));
    } else {
        let init = f.drop_last();
        lemma_forest_around(init, k);
        assert(init.take(k) =~= f.take(k));
        assert(rest.drop_last() =~= init.skip(k + 1));
        assert(rest.last() == f.last());
        assert(forest_pane_ids(f) =~= forest_pane_ids(f.take(k)) + pane_ids(f[k])
            + forest_pane_ids(rest));
        assert(forest_node_ids(f) =~= forest_node_ids(f.take(k)) + node_ids(f[k])
            + forest_node_ids(rest));
    }
}

/// The panes and nodes of two lists of nodes, one behind the other.
proof fn lemma_forest_concat(a: Seq<NodeModel>, b: Seq<NodeModel>)
    ensures
        forest_pane_ids(a + b) == forest_pane_ids(a) + forest_pane_ids(b),
        forest_node_ids(a + b) == forest_node_ids(a) + forest_node_ids(b),
    decreases b.len(),
{
    if b.len() == 0 {
        assert(a + b =~= a);
        assert(forest_pane_ids(a) + forest_pane_ids(b) =~= forest_pane_ids(a));
        assert(forest_node_ids(a) + forest_node_ids(b) =~= forest_node_ids(a));
    } else {
        lemma_forest_concat(a, b.drop_last());
        assert((a + b).drop_last() =~= a + b.drop_last());
        assert(forest_pane_ids(a + b) =~= forest_pane_ids(a) + forest_pane_ids(b));
        assert(forest_node_ids(a + b) =~= forest_node_ids(a) + forest_node_ids(b));
    }
}

/// A part of a list that nothing occurs in twice can give way to fewer of its
/// things.
proof fn lemma_fewer_in_the_middle(
    a: Seq<Seq<char>>,
    b: Seq<Seq<char>>,
    c: Seq<Seq<char>>,
    fewer: Seq<Seq<char>>,
)
    requires
        (a + b + c).no_duplicates(),
        fewer.no_duplicates(),
        forall|x: Seq<char>| #[trigger] fewer.contains(x) ==> b.contains(x),
    ensures
        (a + fewer + c).no_duplicates(),
        forall|x: Seq<char>| #[trigger] (a + fewer + c).contains(x) ==> (a + b + c).contains(x),
{
    let all = a + b + c;
    let less = a + fewer + c;
    assert forall|i: int| 0 <= i < less.len() implies exists|w: int|
        0 <= w < all.len() && all[w] == #[trigger] less[i] && stands(a.len() as int, b.len() as int,
            fewer.len() as int, i, w) by {
        if i < a.len() {
            assert(all[i] == less[i]);
            assert(stands(a.len() as int, b.len() as int, fewer.len() as int, i, i));
        } else if i < a.len() + fewer.len() {
            let x = fewer[i - a.len()];
            assert(fewer.contains(x));
            let w = choose|w: int| 0 <= w < b.len() && b[w] == x;
            assert(all[a.len() + w] == less[i]);
            assert(stands(a.len() as int, b.len() as int, fewer.len() as int, i, a.len() + w));
        } else {
            let w = i - fewer.len() + b.len();
            assert(all[w] == less[i]);
            assert(stands(a.len() as int, b.len() as int, fewer.len() as int, i, w));
        }
    }
    assert forall|i: int, j: int| 0 <= i < less.len() && 0 <= j < less.len() && i != j implies less[i]
        != less[j] by {
        let w = choose|w: int|
            0 <= w < all.len() && all[w] == less[i] && stands(
                a.len() as int,
                b.len() as int,
                fewer.len() as int,
                i,
                w,
            );
        let v = choose|v: int|
            0 <= v < all.len() && all[v] == less[j] && stands(
                a.len() as int,
                b.len() as int,
                fewer.len() as int,
                j,
                v,
            );
        if less[i] == less[j] {
            assert(w == v);
            assert(a.len() <= i < a.len() + fewer.len());
            assert(fewer[i - a.len()] == fewer[j - a.len()]);
        }
    }
    assert forall|x: Seq<char>| #[trigger] less.contains(x) implies all.contains(x) by {
        let i = choose|i: int| 0 <= i < less.len() && less[i] == x;
        let w = choose|w: int|
            0 <= w < all.len() && all[w] == less[i] && stands(
                a.len() as int,
                b.len() as int,
                fewer.len() as int,
                i,
                w,
            );
        assert(all[w] == x);
    }
}

/// Where something stands once the middle of a list, from `a` on and `b` long,
/// has `fewer` things: in front of it and behind it, where it stood.
spec fn stands(a: int, b: int, fewer: int, i: int, w: int) -> bool {
    &&& i < a ==> w == i
    &&& a <= i < a + fewer ==> a <= w < a + b
    &&& i >= a + fewer ==> w == i - fewer + b
}

proof fn lemma_forest_shaped_from(
    f: Seq<NodeModel>,
    depth: int,
    wire: int,
    parent: SplitDirection,
    max_wire: int,
)
    requires
        forall|i: int| 0 <= i < f.len() ==> shaped(#[trigger] f[i], depth, wire, Some(parent), max_wire),
    ensures
        forest_shaped(f, depth, wire, parent, max_wire),
    decreases f.len(),
{
    if f.len() > 0 {
        let init = f.drop_last();
        assert forall|i: int| 0 <= i < init.len() implies shaped(
            #[trigger] init[i],
            depth,
            wire,
            Some(parent),
            max_wire,
        ) by {
            assert(init[i] == f[i]);
        }
        lemma_forest_shaped_from(init, depth, wire, parent, max_wire);
        assert(shaped(f[f.len() - 1], depth, wire, Some(parent), max_wire));
    }
}

/// A node that is sound somewhere is sound where it nests no deeper.
proof fn lemma_lifted(
    n: NodeModel,
    depth: int,
    wire: int,
    parent: Option<SplitDirection>,
    new_depth: int,
    new_wire: int,
    new_parent: Option<SplitDirection>,
    max_wire: int,
)
    requires
        shaped(n, depth, wire, parent, max_wire),
        new_depth <= depth,
        n is Split ==> wire_below(new_wire, new_parent, n->direction) <= wire_below(
            wire,
            parent,
            n->direction,
        ),
    ensures
        shaped(n, new_depth, new_wire, new_parent, max_wire),
    decreases n,
{
    if let NodeModel::Split { id, direction, children, ratios } = n {
        let below = wire_below(wire, parent, direction);
        let new_below = wire_below(new_wire, new_parent, direction);
        assert forall|i: int| 0 <= i < children.len() implies shaped(
            #[trigger] children[i],
            new_depth + 1,
            new_below,
            Some(direction),
            max_wire,
        ) by {
            lemma_forest_shaped_at(children, i, depth + 1, below, direction, max_wire);
            lemma_lifted(
                children[i],
                depth + 1,
                below,
                Some(direction),
                new_depth + 1,
                new_below,
                Some(direction),
                max_wire,
            );
        }
        lemma_forest_shaped_from(children, new_depth + 1, new_below, direction, max_wire);
    }
}

/// Whether the ratios of the split that a pane is removed from still are shares
/// once the one of the pane is merged into that of a neighbour. Only ratios
/// whose sum is near the largest number there is are not.
pub open spec fn merges(n: NodeModel, pane: Seq<char>) -> bool
    decreases n,
{
    match n {
        NodeModel::Pane { id, pane_id } => true,
        NodeModel::Split { id, direction, children, ratios } => {
            let leaf = first_leaf(children, pane, 0);
            let k = first_holding_pane(children, pane, 0);
            if 0 <= leaf < children.len() {
                let left = ratios_without(ratios, leaf);
                children.len() == 2 || (all_shares(left) && ratio::total_of(left).share())
            } else if 0 <= k < children.len() {
                merges(children[k], pane)
            } else {
                true
            }
        },
    }
}

proof fn lemma_without(list: Seq<Seq<char>>, x: Seq<char>)
    ensures
        !list.contains(x) ==> text::without(list, x) == list,
    decreases list.len(),
{
    if list.len() > 0 && !list.contains(x) {
        let init = list.drop_last();
        assert(!init.contains(x)) by {
            if init.contains(x) {
                let i = choose|i: int| 0 <= i < init.len() && init[i] == x;
                assert(list[i] == x);
            }
        }
        lemma_without(init, x);
        assert(list[list.len() - 1] == list.last());
        assert(init.push(list.last()) =~= list);
    } else if list.len() == 0 {
        assert(text::without(list, x) =~= list);
    }
}

proof fn lemma_without_concat(a: Seq<Seq<char>>, b: Seq<Seq<char>>, x: Seq<char>)
    ensures
        text::without(a + b, x) == text::without(a, x) + text::without(b, x),
    decreases b.len(),
{
    if b.len() == 0 {
        assert(a + b =~= a);
        assert(text::without(a, x) + text::without(b, x) =~= text::without(a, x));
    } else {
        lemma_without_concat(a, b.drop_last(), x);
        assert((a + b).drop_last() =~= a + b.drop_last());
        assert(text::without(a + b, x) =~= text::without(a, x) + text::without(b, x));
    }
}

proof fn lemma_without_middle(
    a: Seq<Seq<char>>,
    b: Seq<Seq<char>>,
    c: Seq<Seq<char>>,
    x: Seq<char>,
)
    requires
        (a + b + c).no_duplicates(),
        b.contains(x),
    ensures
        text::without(a + b + c, x) == a + text::without(b, x) + c,
{
    lemma_without_concat(a + b, c, x);
    lemma_without_concat(a, b, x);
    let w = choose|w: int| 0 <= w < b.len() && b[w] == x;
    let all = a + b + c;
    assert(all[a.len() + w] == x);
    assert(!a.contains(x)) by {
        if a.contains(x) {
            let i = choose|i: int| 0 <= i < a.len() && a[i] == x;
            assert(all[i] == x);
        }
    }
    assert(!c.contains(x)) by {
        if c.contains(x) {
            let i = choose|i: int| 0 <= i < c.len() && c[i] == x;
            assert(all[a.len() + b.len() + i] == x);
        }
    }
    lemma_without(a, x);
    lemma_without(c, x);
}

/// A node under another identifier has its nodes under theirs.
proof fn lemma_with_id(n: NodeModel, id: Seq<char>)
    ensures
        pane_ids(n.with_id(id)) == pane_ids(n),
        node_ids(n).len() > 0,
        node_ids(n)[0] == n.node_id(),
        node_ids(n.with_id(id)) == seq![id] + node_ids(n).skip(1),
{
    match n {
        NodeModel::Pane { id: own, pane_id } => {
            assert(node_ids(n.with_id(id)) =~= seq![id] + node_ids(n).skip(1));
        },
        NodeModel::Split { id: own, direction, children, ratios } => {
            assert(node_ids(n).skip(1) =~= forest_node_ids(children));
        },
    }
}

/// The panes of a list of nodes without one of them.
proof fn lemma_panes_without(children: Seq<NodeModel>, leaf: int, pane: Seq<char>)
    requires
        0 <= leaf < children.len(),
        children[leaf] is Pane,
        children[leaf]->pane_id == pane,
        forest_pane_ids(children).no_duplicates(),
    ensures
        forest_pane_ids(children.remove(leaf)) == text::without(forest_pane_ids(children), pane),
{
    let rest = children.remove(leaf);
    let before = children.take(leaf);
    let behind = children.skip(leaf + 1);
    assert(rest =~= before + behind);
    lemma_forest_concat(before, behind);
    lemma_forest_around(children, leaf);
    assert(pane_ids(children[leaf]) =~= seq![pane]);
    assert(seq![pane][0] == pane);
    lemma_without_middle(
        forest_pane_ids(before),
        pane_ids(children[leaf]),
        forest_pane_ids(behind),
        pane,
    );
    assert(text::without(seq![pane], pane) =~= Seq::<Seq<char>>::empty()) by {
        reveal_with_fuel(text::without, 2);
        assert(seq![pane].drop_last() =~= Seq::<Seq<char>>::empty());
    }
    assert(forest_pane_ids(rest) =~= forest_pane_ids(before) + Seq::<Seq<char>>::empty()
        + forest_pane_ids(behind));
}

/// The nodes of a split without one of its children.
proof fn lemma_nodes_without(id: Seq<char>, children: Seq<NodeModel>, leaf: int)
    requires
        0 <= leaf < children.len(),
        (seq![id] + forest_node_ids(children)).no_duplicates(),
    ensures
        (seq![id] + forest_node_ids(children.remove(leaf))).no_duplicates(),
        forall|x: Seq<char>| #[trigger]
            (seq![id] + forest_node_ids(children.remove(leaf))).contains(x) ==> (seq![id]
                + forest_node_ids(children)).contains(x),
{
    let rest = children.remove(leaf);
    let before = children.take(leaf);
    let behind = children.skip(leaf + 1);
    assert(rest =~= before + behind);
    lemma_forest_concat(before, behind);
    lemma_forest_around(children, leaf);
    let front = seq![id] + forest_node_ids(before);
    let gone = node_ids(children[leaf]);
    let back = forest_node_ids(behind);
    let none = Seq::<Seq<char>>::empty();
    assert(seq![id] + forest_node_ids(children) =~= front + gone + back);
    lemma_fewer_in_the_middle(front, gone, back, none);
    assert(seq![id] + forest_node_ids(rest) =~= front + none + back);
}

/// The nodes of a split whose only child takes its place.
proof fn lemma_nodes_collapsed(id: Seq<char>, survivor: NodeModel)
    requires
        (seq![id] + node_ids(survivor)).no_duplicates(),
    ensures
        node_ids(survivor.with_id(id)).no_duplicates(),
        forall|x: Seq<char>| #[trigger]
            node_ids(survivor.with_id(id)).contains(x) ==> (seq![id] + node_ids(
                survivor,
            )).contains(x),
{
    lemma_with_id(survivor, id);
    let own = seq![survivor.node_id()];
    let inner = node_ids(survivor).skip(1);
    let none = Seq::<Seq<char>>::empty();
    assert(node_ids(survivor) =~= own + inner);
    assert(seq![id] + node_ids(survivor) =~= seq![id] + own + inner);
    lemma_fewer_in_the_middle(seq![id], own, inner, none);
    assert(seq![id] + none + inner =~= node_ids(survivor.with_id(id)));
}

/// The panes and nodes of a list of one node.
proof fn lemma_single(n: NodeModel)
    ensures
        forest_pane_ids(seq![n]) == pane_ids(n),
        forest_node_ids(seq![n]) == node_ids(n),
{
    let f = seq![n];
    let none = Seq::<NodeModel>::empty();
    assert(f.drop_last() =~= none);
    assert(forest_pane_ids(none) == Seq::<Seq<char>>::empty());
    assert(forest_node_ids(none) == Seq::<Seq<char>>::empty());
    assert(forest_pane_ids(f) =~= pane_ids(f.last()));
    assert(forest_node_ids(f) =~= node_ids(f.last()));
}

proof fn lemma_removed_leaf(
    n: NodeModel,
    pane: Seq<char>,
    depth: int,
    wire: int,
    parent: Option<SplitDirection>,
    max_wire: int,
)
    requires
        shaped(n, depth, wire, parent, max_wire),
        node_ids(n).no_duplicates(),
        pane_ids(n).no_duplicates(),
        n is Split,
        holds_pane(n, pane),
        first_leaf(n->children, pane, 0) < n->children.len(),
    ensures
        without_pane(n, pane) matches Ok(Some(_)),
        pane_ids(without_pane(n, pane)->Ok_0->0) == text::without(pane_ids(n), pane),
        node_ids(without_pane(n, pane)->Ok_0->0).no_duplicates(),
        forall|x: Seq<char>| #[trigger]
            node_ids(without_pane(n, pane)->Ok_0->0).contains(x) ==> node_ids(n).contains(x),
        merges(n, pane) <==> shaped(
            without_pane(n, pane)->Ok_0->0,
            depth,
            wire,
            parent,
            max_wire,
        ),
{
    let id = n->Split_id;
    let direction = n->direction;
    let children = n->children;
    let ratios = n->ratios;
    let below = wire_below(wire, parent, direction);
    let leaf = first_leaf(children, pane, 0);
    lemma_first_leaf_is_leaf(children, pane, 0);
    let rest = children.remove(leaf);
    let left = ratios_without(ratios, leaf);
    lemma_panes_without(children, leaf, pane);
    lemma_nodes_without(id, children, leaf);
    assert(node_ids(n) == seq![id] + forest_node_ids(children));
    assert forall|i: int| 0 <= i < rest.len() implies shaped(
        #[trigger] rest[i],
        depth + 1,
        below,
        Some(direction),
        max_wire,
    ) by {
        let w = if i < leaf {
            i
        } else {
            i + 1
        };
        lemma_forest_shaped_at(children, w, depth + 1, below, direction, max_wire);
    }
    let after = settled(id, direction, rest, left);
    assert(without_pane(n, pane) == Ok::<Option<NodeModel>, LayoutError>(Some(after)));
    if rest.len() == 1 {
        let survivor = rest[0];
        assert(rest =~= seq![survivor]);
        lemma_single(survivor);
        lemma_with_id(survivor, id);
        lemma_nodes_collapsed(id, survivor);
        assert(after == survivor.with_id(id));
        lemma_lifted(survivor, depth + 1, below, Some(direction), depth, wire, parent, max_wire);
        assert(shaped(after, depth, wire, parent, max_wire));
    } else {
        lemma_forest_shaped_from(rest, depth + 1, below, direction, max_wire);
        assert(left.len() == rest.len());
        assert(after == NodeModel::Split { id, direction, children: rest, ratios: left });
    }
}

/// What is left of a sound node without a pane is sound, has the other panes in
/// their order, and has nodes of the node alone.
#[verifier::rlimit(40)]
proof fn lemma_removed(
    n: NodeModel,
    pane: Seq<char>,
    depth: int,
    wire: int,
    parent: Option<SplitDirection>,
    max_wire: int,
)
    requires
        shaped(n, depth, wire, parent, max_wire),
        node_ids(n).no_duplicates(),
        pane_ids(n).no_duplicates(),
        n is Split,
        holds_pane(n, pane),
    ensures
        without_pane(n, pane) matches Ok(Some(_)),
        pane_ids(without_pane(n, pane)->Ok_0->0) == text::without(pane_ids(n), pane),
        node_ids(without_pane(n, pane)->Ok_0->0).no_duplicates(),
        forall|x: Seq<char>| #[trigger]
            node_ids(without_pane(n, pane)->Ok_0->0).contains(x) ==> node_ids(n).contains(x),
        merges(n, pane) <==> shaped(
            without_pane(n, pane)->Ok_0->0,
            depth,
            wire,
            parent,
            max_wire,
        ),
    decreases n,
{
    let id = n->Split_id;
    let direction = n->direction;
    let children = n->children;
    let ratios = n->ratios;
    let below = wire_below(wire, parent, direction);
    let leaf = first_leaf(children, pane, 0);
    let k = first_holding_pane(children, pane, 0);
    lemma_first_leaf(children, pane, 0);
    lemma_first_holding_pane(children, pane, 0);
    lemma_forest_holds_pane(children, pane);
    if leaf < children.len() {
        lemma_removed_leaf(n, pane, depth, wire, parent, max_wire);
    } else {
        let child = children[k];
        lemma_forest_shaped_at(children, k, depth + 1, below, direction, max_wire);
        lemma_forest_around(children, k);
        let before = children.take(k);
        let behind = children.skip(k + 1);
        let front = seq![id] + forest_node_ids(before);
        let back = forest_node_ids(behind);
        assert(node_ids(n) =~= front + node_ids(child) + back);
        lemma_no_duplicates_prefix(front + node_ids(child), back);
        lemma_no_duplicates_prefix(front, node_ids(child));
        lemma_forest_no_duplicates_at(children, k);
        if child is Pane {
            assert(pane_ids(child) =~= seq![child->pane_id]);
            let at = choose|at: int| 0 <= at < pane_ids(child).len() && pane_ids(child)[at] == pane;
            assert(child->pane_id == pane);
            lemma_no_leaf(children, pane, 0);
            assert(false);
        }
        lemma_removed(child, pane, depth + 1, below, Some(direction), max_wire);
        let fewer = without_pane(child, pane)->Ok_0->0;
        let changed = children.update(k, fewer);
        let after = NodeModel::Split { id, direction, children: changed, ratios };
        assert(without_pane(n, pane) == Ok::<Option<NodeModel>, LayoutError>(Some(after)));
        lemma_forest_around(changed, k);
        assert(changed.take(k) =~= before);
        assert(changed.skip(k + 1) =~= behind);
        lemma_without_middle(
            forest_pane_ids(before),
            pane_ids(child),
            forest_pane_ids(behind),
            pane,
        );
        lemma_fewer_in_the_middle(front, node_ids(child), back, node_ids(fewer));
        assert(node_ids(after) =~= front + node_ids(fewer) + back);
        lemma_child_shaped(n, k, fewer, depth, wire, parent, max_wire);
    }
}

/// A sound split with another child in place of one is sound where that child
/// is.
proof fn lemma_child_shaped(
    n: NodeModel,
    k: int,
    child: NodeModel,
    depth: int,
    wire: int,
    parent: Option<SplitDirection>,
    max_wire: int,
)
    requires
        n is Split,
        0 <= k < n->children.len(),
        shaped(n, depth, wire, parent, max_wire),
    ensures
        shaped(
            (NodeModel::Split {
                id: n->Split_id,
                direction: n->direction,
                children: n->children.update(k, child),
                ratios: n->ratios,
            }),
            depth,
            wire,
            parent,
            max_wire,
        ) <==> shaped(
            child,
            depth + 1,
            wire_below(wire, parent, n->direction),
            Some(n->direction),
            max_wire,
        ),
{
    let direction = n->direction;
    let children = n->children;
    let below = wire_below(wire, parent, direction);
    let changed = children.update(k, child);
    if shaped(child, depth + 1, below, Some(direction), max_wire) {
        assert forall|i: int| 0 <= i < changed.len() implies shaped(
            #[trigger] changed[i],
            depth + 1,
            below,
            Some(direction),
            max_wire,
        ) by {
            lemma_forest_shaped_at(children, i, depth + 1, below, direction, max_wire);
        }
        lemma_forest_shaped_from(changed, depth + 1, below, direction, max_wire);
    }
    if forest_shaped(changed, depth + 1, below, direction, max_wire) {
        lemma_forest_shaped_at(changed, k, depth + 1, below, direction, max_wire);
    }
}

proof fn lemma_no_leaf(f: Seq<NodeModel>, pane: Seq<char>, k: int)
    requires
        0 <= k <= f.len(),
        first_leaf(f, pane, k) >= f.len(),
    ensures
        forall|i: int| k <= i < f.len() ==> !((#[trigger] f[i]) is Pane && f[i]->pane_id == pane),
    decreases f.len() - k,
{
    if k < f.len() {
        lemma_no_leaf(f, pane, k + 1);
    }
}

/// Removing a pane from a sound tree succeeds exactly where the tree shows it
/// below a split and the ratios can be merged. The tree is then sound, shows at
/// least one pane, and shows the other panes in their order.
pub proof fn law_removal_succeeds(n: NodeModel, pane: Seq<char>, max_wire: int)
    requires
        sound(n, max_wire),
    ensures
        remove_result(n, pane, max_wire) is Ok <==> (n is Split && holds_pane(n, pane) && merges(
            n,
            pane,
        )),
        remove_result(n, pane, max_wire) matches Ok(after) ==> {
            &&& sound(after, max_wire)
            &&& pane_ids(after) == text::without(pane_ids(n), pane)
            &&& pane_ids(after).len() > 0
        },
{
    if n is Split {
        if holds_pane(n, pane) {
            lemma_removed(n, pane, 0, 0, None, max_wire);
            let after = without_pane(n, pane)->Ok_0->0;
            law_structure_is_soundness(after, max_wire);
            text::lemma_without_no_duplicates(pane_ids(n), pane);
            if remove_result(n, pane, max_wire) is Ok {
                law_sound_tree_has_a_pane(after, max_wire);
            }
        } else {
            lemma_not_held(n, pane);
        }
    }
}

proof fn lemma_not_held(n: NodeModel, pane: Seq<char>)
    requires
        !holds_pane(n, pane),
        n is Split,
    ensures
        without_pane(n, pane) == Ok::<Option<NodeModel>, LayoutError>(None),
{
    let children = n->children;
    lemma_forest_pane_witness(children, pane);
    assert forall|i: int| 0 <= i < children.len() implies !((#[trigger] children[i]) is Pane
        && children[i]->pane_id == pane) by {
        assert(!holds_pane(children[i], pane));
        if children[i] is Pane {
            assert(pane_ids(children[i])[0] == children[i]->pane_id);
        }
    }
    lemma_first_leaf_skips(children, pane, 0);
    lemma_first_holding_pane(children, pane, 0);
    lemma_forest_holds_pane(children, pane);
}

/// What a tree was before a split is sound where the tree after it is.
proof fn lemma_unsplit(
    n: NodeModel,
    id: Seq<char>,
    new_pane: Seq<char>,
    direction: SplitDirection,
    depth: int,
    wire: int,
    parent: Option<SplitDirection>,
    max_wire: int,
)
    requires
        split_at(n, id, new_pane, direction) is Some,
        shaped(split_at(n, id, new_pane, direction)->0, depth, wire, parent, max_wire),
        node_ids(split_at(n, id, new_pane, direction)->0).no_duplicates(),
        pane_ids(split_at(n, id, new_pane, direction)->0).no_duplicates(),
    ensures
        shaped(n, depth, wire, parent, max_wire),
        node_ids(n).no_duplicates(),
        pane_ids(n).no_duplicates(),
        forall|x: Seq<char>| #[trigger]
            node_ids(n).contains(x) ==> node_ids(
                split_at(n, id, new_pane, direction)->0,
            ).contains(x),
        forall|x: Seq<char>| #[trigger]
            pane_ids(n).contains(x) ==> pane_ids(
                split_at(n, id, new_pane, direction)->0,
            ).contains(x),
    decreases n,
{
    let after = split_at(n, id, new_pane, direction)->0;
    match n {
        NodeModel::Pane { id: own, pane_id } => {
            let children = after->children;
            let below = wire_below(wire, parent, direction);
            lemma_forest_shaped_at(children, 0, depth + 1, below, direction, max_wire);
            lemma_forest_around(children, 0);
            assert(children.take(0) =~= Seq::<NodeModel>::empty());
            assert(pane_ids(children[0]) =~= seq![pane_id]);
            assert(pane_ids(after)[0] == pane_id);
            assert(node_ids(after)[0] == own);
        },
        NodeModel::Split { id: own, direction: along, children, ratios } => {
            let k = first_holding_node(children, id, 0);
            lemma_first_holding_node(children, id, 0);
            let below = wire_below(wire, parent, along);
            let child = split_at(children[k], id, new_pane, direction)->0;
            let changed = children.update(k, child);
            lemma_forest_shaped_at(changed, k, depth + 1, below, along, max_wire);
            lemma_forest_around(children, k);
            lemma_forest_around(changed, k);
            let before = children.take(k);
            let behind = children.skip(k + 1);
            assert(changed.take(k) =~= before);
            assert(changed.skip(k + 1) =~= behind);
            let front = seq![own] + forest_node_ids(before);
            let back = forest_node_ids(behind);
            assert(node_ids(after) =~= front + node_ids(child) + back);
            assert(node_ids(n) =~= front + node_ids(children[k]) + back);
            lemma_no_duplicates_prefix(front + node_ids(child), back);
            lemma_no_duplicates_prefix(front, node_ids(child));
            lemma_forest_no_duplicates_at(changed, k);
            lemma_unsplit(
                children[k],
                id,
                new_pane,
                direction,
                depth + 1,
                below,
                Some(along),
                max_wire,
            );
            lemma_fewer_in_the_middle(front, node_ids(child), back, node_ids(children[k]));
            lemma_fewer_in_the_middle(
                forest_pane_ids(before),
                pane_ids(child),
                forest_pane_ids(behind),
                pane_ids(children[k]),
            );
            assert forall|i: int| 0 <= i < children.len() implies shaped(
                #[trigger] children[i],
                depth + 1,
                below,
                Some(along),
                max_wire,
            ) by {
                if i != k {
                    assert(changed[i] == children[i]);
                    lemma_forest_shaped_at(changed, i, depth + 1, below, along, max_wire);
                }
            }
            lemma_forest_shaped_from(children, depth + 1, below, along, max_wire);
        },
    }
}

/// A split succeeds only on a sound tree.
pub proof fn law_only_sound_trees_are_split(
    n: NodeModel,
    pane: Seq<char>,
    new_pane: Seq<char>,
    direction: SplitDirection,
    max_wire: int,
)
    requires
        split_result(n, pane, new_pane, direction, max_wire) is Ok,
    ensures
        sound(n, max_wire),
{
    let id = pane_node_id(n, pane)->0;
    let after = split_at(n, id, new_pane, direction)->0;
    law_structure_is_soundness(after, max_wire);
    lemma_unsplit(n, id, new_pane, direction, 0, 0, None, max_wire);
}

/// The pane of the leaf of an identifier.
pub open spec fn leaf_pane(n: NodeModel, id: Seq<char>) -> Seq<char>
    decreases n,
{
    match n {
        NodeModel::Pane { id: own, pane_id } => pane_id,
        NodeModel::Split { id: own, direction, children, ratios } => {
            let k = first_holding_node(children, id, 0);
            if 0 <= k < children.len() {
                leaf_pane(children[k], id)
            } else {
                Seq::empty()
            }
        },
    }
}

/// A list with something put right behind a thing of it.
pub open spec fn put_behind(list: Seq<Seq<char>>, thing: Seq<char>, new: Seq<char>) -> Seq<Seq<char>>
    decreases list.len(),
{
    if list.len() == 0 {
        list
    } else if list.last() == thing {
        list.push(new)
    } else {
        put_behind(list.drop_last(), thing, new).push(list.last())
    }
}

proof fn lemma_put_behind_concat(
    a: Seq<Seq<char>>,
    b: Seq<Seq<char>>,
    thing: Seq<char>,
    new: Seq<char>,
)
    ensures
        b.contains(thing) ==> put_behind(a + b, thing, new) == a + put_behind(b, thing, new),
        !b.contains(thing) ==> put_behind(a + b, thing, new) == put_behind(a, thing, new) + b,
    decreases b.len(),
{
    if b.len() == 0 {
        assert(a + b =~= a);
        assert(put_behind(a, thing, new) + b =~= put_behind(a, thing, new));
    } else {
        let init = b.drop_last();
        let last = b.last();
        lemma_put_behind_concat(a, init, thing, new);
        assert((a + b).drop_last() =~= a + init);
        assert(b[b.len() - 1] == last);
        if last == thing {
            assert((a + b).push(new) =~= a + b.push(new));
        } else {
            assert(init.contains(thing) <==> b.contains(thing)) by {
                if b.contains(thing) {
                    let i = choose|i: int| 0 <= i < b.len() && b[i] == thing;
                    assert(init[i] == thing);
                }
                if init.contains(thing) {
                    let i = choose|i: int| 0 <= i < init.len() && init[i] == thing;
                    assert(b[i] == thing);
                }
            }
            assert(put_behind(a + b, thing, new) =~= put_behind(a + init, thing, new).push(last));
            if b.contains(thing) {
                assert(put_behind(a + b, thing, new) =~= a + put_behind(b, thing, new));
            } else {
                assert(put_behind(a + b, thing, new) =~= put_behind(a, thing, new) + b);
            }
        }
    }
}

proof fn lemma_split_order(
    n: NodeModel,
    id: Seq<char>,
    new_pane: Seq<char>,
    direction: SplitDirection,
)
    requires
        split_at(n, id, new_pane, direction) is Some,
        pane_ids(n).no_duplicates(),
    ensures
        pane_ids(n).contains(leaf_pane(n, id)),
        pane_ids(split_at(n, id, new_pane, direction)->0) == put_behind(
            pane_ids(n),
            leaf_pane(n, id),
            new_pane,
        ),
    decreases n,
{
    let after = split_at(n, id, new_pane, direction)->0;
    match n {
        NodeModel::Pane { id: own, pane_id } => {
            let children = after->children;
            lemma_forest_around(children, 0);
            lemma_forest_around(children, 1);
            assert(children.take(1).drop_last() =~= Seq::<NodeModel>::empty());
            assert(children.take(1).last() == children[0]);
            assert(children.skip(2) =~= Seq::<NodeModel>::empty());
            assert(pane_ids(n) =~= seq![pane_id]);
            assert(pane_ids(n)[0] == pane_id);
            assert(pane_ids(after) =~= seq![pane_id, new_pane]);
        },
        NodeModel::Split { id: own, direction: along, children, ratios } => {
            let k = first_holding_node(children, id, 0);
            lemma_first_holding_node(children, id, 0);
            lemma_forest_no_duplicates_at(children, k);
            lemma_split_order(children[k], id, new_pane, direction);
            let child = split_at(children[k], id, new_pane, direction)->0;
            let changed = children.update(k, child);
            lemma_forest_around(children, k);
            lemma_forest_around(changed, k);
            assert(changed.take(k) =~= children.take(k));
            assert(changed.skip(k + 1) =~= children.skip(k + 1));
            let a = forest_pane_ids(children.take(k));
            let b = pane_ids(children[k]);
            let c = forest_pane_ids(children.skip(k + 1));
            let pane = leaf_pane(children[k], id);
            let w = choose|w: int| 0 <= w < b.len() && b[w] == pane;
            assert((a + b + c)[a.len() + w] == pane);
            assert(!c.contains(pane)) by {
                if c.contains(pane) {
                    let i = choose|i: int| 0 <= i < c.len() && c[i] == pane;
                    assert((a + b + c)[a.len() + b.len() + i] == pane);
                }
            }
            lemma_put_behind_concat(a + b, c, pane, new_pane);
            lemma_put_behind_concat(a, b, pane, new_pane);
        },
    }
}

proof fn lemma_pane_node_is_held(n: NodeModel, pane: Seq<char>)
    requires
        pane_node_id(n, pane) is Some,
    ensures
        holds_node(n, pane_node_id(n, pane)->0),
    decreases n,
{
    match n {
        NodeModel::Pane { id, pane_id } => {
            assert(node_ids(n)[0] == id);
        },
        NodeModel::Split { id, direction, children, ratios } => {
            let k = lemma_forest_pane_node_at(children, pane);
            lemma_pane_node_is_held(children[k], pane);
            lemma_forest_around(children, k);
            let held = pane_node_id(n, pane)->0;
            let inner = node_ids(children[k]);
            let i = choose|i: int| 0 <= i < inner.len() && inner[i] == held;
            assert(node_ids(n)[1 + forest_node_ids(children.take(k)).len() + i] == held);
        },
    }
}

proof fn lemma_forest_pane_node_at(f: Seq<NodeModel>, pane: Seq<char>) -> (k: int)
    requires
        forest_pane_node_id(f, pane) is Some,
    ensures
        0 <= k < f.len(),
        pane_node_id(f[k], pane) == forest_pane_node_id(f, pane),
    decreases f.len(),
{
    if forest_pane_node_id(f.drop_last(), pane) is Some {
        let k = lemma_forest_pane_node_at(f.drop_last(), pane);
        assert(f.drop_last()[k] == f[k]);
        k
    } else {
        f.len() - 1
    }
}

proof fn lemma_leaf_of_pane(n: NodeModel, pane: Seq<char>)
    requires
        pane_node_id(n, pane) is Some,
        node_ids(n).no_duplicates(),
    ensures
        leaf_pane(n, pane_node_id(n, pane)->0) == pane,
        forall|new_pane: Seq<char>, along: SplitDirection| #[trigger]
            split_at(n, pane_node_id(n, pane)->0, new_pane, along) is Some,
    decreases n,
{
    if let NodeModel::Split { id, direction, children, ratios } = n {
        let held = pane_node_id(n, pane)->0;
        let j = lemma_forest_pane_node_at(children, pane);
        lemma_pane_node_is_held(children[j], pane);
        let k = first_holding_node(children, held, 0);
        lemma_first_holding_node(children, held, 0);
        lemma_first_holding_node_bound(children, held, 0, j);
        lemma_first_holding_node_holds(children, held, 0);
        lemma_forest_around(children, j);
        let front = seq![id] + forest_node_ids(children.take(j));
        let inner = node_ids(children[j]);
        let back = forest_node_ids(children.skip(j + 1));
        assert(node_ids(n) =~= front + inner + back);
        if k < j {
            lemma_forest_around(children.take(j), k);
            assert(children.take(j)[k] == children[k]);
            let other = node_ids(children[k]);
            let p = choose|p: int| 0 <= p < other.len() && other[p] == held;
            let q = choose|q: int| 0 <= q < inner.len() && inner[q] == held;
            let at = 1 + forest_node_ids(children.take(j).take(k)).len() + p;
            assert(forest_node_ids(children.take(j))[at - 1] == held);
            assert(node_ids(n)[at] == held);
            assert(node_ids(n)[front.len() + q] == held);
        }
        assert(k == j);
        lemma_no_duplicates_prefix(front + inner, back);
        lemma_no_duplicates_prefix(front, inner);
        lemma_leaf_of_pane(children[j], pane);
        assert forall|new_pane: Seq<char>, along: SplitDirection| #[trigger]
            split_at(n, held, new_pane, along) is Some by {
            assert(split_at(children[j], held, new_pane, along) is Some);
        }
    }
}

/// A split puts the new pane right behind the one that is split; all others stay
/// where they were.
pub proof fn law_split_puts_the_pane_behind(
    n: NodeModel,
    pane: Seq<char>,
    new_pane: Seq<char>,
    direction: SplitDirection,
    max_wire: int,
)
    requires
        split_result(n, pane, new_pane, direction, max_wire) is Ok,
    ensures
        pane_ids(split_result(n, pane, new_pane, direction, max_wire)->Ok_0) == put_behind(
            pane_ids(n),
            pane,
            new_pane,
        ),
{
    law_only_sound_trees_are_split(n, pane, new_pane, direction, max_wire);
    let id = pane_node_id(n, pane)->0;
    lemma_split_order(n, id, new_pane, direction);
    lemma_leaf_of_pane(n, pane);
}

/// The node that the steps of a path lead to, each of them into the child of
/// that number.
pub open spec fn node_at(n: NodeModel, path: Seq<int>) -> Option<NodeModel>
    decreases path.len(),
{
    if path.len() == 0 {
        Some(n)
    } else {
        match n {
            NodeModel::Pane { id, pane_id } => None,
            NodeModel::Split { id, direction, children, ratios } => if 0 <= path[0]
                < children.len() {
                node_at(children[path[0]], path.drop_first())
            } else {
                None
            },
        }
    }
}

/// Whether two nodes are the same, but for what is below them.
pub open spec fn same_apart_from_below(a: NodeModel, b: NodeModel) -> bool {
    match a {
        NodeModel::Pane { id, pane_id } => a == b,
        NodeModel::Split { id, direction, children, ratios } => {
            &&& b is Split
            &&& b->Split_id == id
            &&& b->direction == direction
            &&& b->ratios == ratios
            &&& b->children.len() == children.len()
        },
    }
}

/// Whether two trees are the same at the end of a path, but for what is below.
pub open spec fn same_at(a: NodeModel, b: NodeModel, path: Seq<int>) -> bool {
    match node_at(a, path) {
        Some(x) => node_at(b, path) matches Some(y) && same_apart_from_below(x, y),
        None => node_at(b, path) is None,
    }
}

/// Whether two trees differ at most at the end of a path.
pub open spec fn same_but_at(a: NodeModel, b: NodeModel, path: Seq<int>) -> bool {
    forall|q: Seq<int>| q != path ==> #[trigger] same_at(a, b, q)
}

/// Whether this is a split that holds a pane and runs in a direction.
pub open spec fn runs_above(x: Option<NodeModel>, pane: Seq<char>, along: SplitDirection) -> bool {
    x matches Some(s) && s is Split && holds_pane(s, pane) && s->direction == along
}

/// Whether the end of a path is the split whose edge a resize of a pane moves:
/// it runs in the direction, child `k` of it holds the pane, and no split
/// further down that holds the pane runs in the direction.
pub open spec fn is_edge(
    n: NodeModel,
    pane: Seq<char>,
    along: SplitDirection,
    path: Seq<int>,
    k: int,
) -> bool {
    &&& node_at(n, path) matches Some(s) && s is Split && s->direction == along && 0 <= k
        < s->children.len() && holds_pane(s->children[k], pane)
    &&& forall|q: Seq<int>|
        !runs_above(#[trigger] node_at(node_at(n, path)->0->children[k], q), pane, along)
}

/// Whether the shares of a split changed at two places only.
pub open spec fn changed_at(
    before: Seq<Ratio>,
    after: Seq<Ratio>,
    k: int,
    own: Ratio,
    m: int,
    other: Ratio,
) -> bool {
    &&& 0 <= k < before.len() && 0 <= m < before.len() && k != m
    &&& after.len() == before.len()
    &&& after[k] == own
    &&& after[m] == other
    &&& forall|j: int| 0 <= j < before.len() && j != k && j != m ==> #[trigger] after[j] == before[j]
}

proof fn lemma_same_tree(n: NodeModel, q: Seq<int>)
    ensures
        same_at(n, n, q),
{
}

proof fn lemma_one_child_holds(f: Seq<NodeModel>, pane: Seq<char>, i: int, j: int)
    requires
        forest_pane_ids(f).no_duplicates(),
        0 <= i < f.len(),
        0 <= j < f.len(),
        holds_pane(f[i], pane),
        holds_pane(f[j], pane),
    ensures
        i == j,
{
    lemma_children_hold_in_order(f, pane, i, j);
    lemma_children_hold_in_order(f, pane, j, i);
}

proof fn lemma_children_hold_in_order(f: Seq<NodeModel>, pane: Seq<char>, i: int, j: int)
    requires
        forest_pane_ids(f).no_duplicates(),
        0 <= i < f.len(),
        0 <= j < f.len(),
        holds_pane(f[i], pane),
        holds_pane(f[j], pane),
    ensures
        i >= j,
{
    if i < j {
        lemma_forest_around(f, j);
        lemma_forest_pane_witness(f.take(j), pane);
        assert(holds_pane(f.take(j)[i], pane));
        let before = forest_pane_ids(f.take(j));
        let own = pane_ids(f[j]);
        let rest = forest_pane_ids(f.skip(j + 1));
        let a = choose|a: int| 0 <= a < before.len() && before[a] == pane;
        let b = choose|b: int| 0 <= b < own.len() && own[b] == pane;
        let all = before + own + rest;
        assert(all[a] == pane);
        assert(all[before.len() + b] == pane);
    }
}

proof fn lemma_child_is_unique_too(f: Seq<NodeModel>, k: int)
    requires
        forest_pane_ids(f).no_duplicates(),
        0 <= k < f.len(),
    ensures
        pane_ids(f[k]).no_duplicates(),
{
    lemma_forest_around(f, k);
    let before = forest_pane_ids(f.take(k));
    let own = pane_ids(f[k]);
    lemma_no_duplicates_prefix(before + own, forest_pane_ids(f.skip(k + 1)));
    lemma_no_duplicates_prefix(before, own);
}

/// What a node further down holds, a node holds.
proof fn lemma_holds_from_below(n: NodeModel, q: Seq<int>, pane: Seq<char>)
    requires
        node_at(n, q) matches Some(x) && holds_pane(x, pane),
    ensures
        holds_pane(n, pane),
    decreases q.len(),
{
    if q.len() > 0 {
        let children = n->children;
        lemma_holds_from_below(children[q[0]], q.drop_first(), pane);
        lemma_forest_pane_witness(children, pane);
        assert(holds_pane(children[q[0]], pane));
    }
}

proof fn lemma_found_child(f: Seq<NodeModel>, pane: Seq<char>, k: int)
    requires
        forest_pane_ids(f).no_duplicates(),
        0 <= k < f.len(),
        holds_pane(f[k], pane),
    ensures
        first_holding_pane(f, pane, 0) == k,
{
    lemma_first_holding_pane(f, pane, 0);
    lemma_found_at_most(f, pane, 0, k);
    lemma_one_child_holds(f, pane, k, first_holding_pane(f, pane, 0));
}

proof fn lemma_found_at_most(f: Seq<NodeModel>, pane: Seq<char>, i: int, k: int)
    requires
        0 <= i <= k < f.len(),
        holds_pane(f[k], pane),
    ensures
        first_holding_pane(f, pane, i) <= k,
    decreases k - i,
{
    if i < k && !holds_pane(f[i], pane) {
        lemma_found_at_most(f, pane, i + 1, k);
    }
}

/// Where a resize finds no pair, no split above the pane runs in the
/// direction.
proof fn lemma_no_pair(n: NodeModel, pane: Seq<char>, along: SplitDirection, q: Seq<int>)
    requires
        pane_ids(n).no_duplicates(),
        resize_pair(n, pane, along) == Ok::<Option<(Ratio, Ratio)>, LayoutError>(None),
        node_at(n, q) matches Some(x) && x is Split && holds_pane(x, pane),
    ensures
        node_at(n, q)->0->direction != along,
    decreases q.len(),
{
    let children = n->children;
    lemma_holds_from_below(n, q, pane);
    lemma_forest_pane_witness(children, pane);
    let w = choose|w: int| 0 <= w < children.len() && holds_pane(#[trigger] children[w], pane);
    lemma_found_child(children, pane, w);
    if q.len() > 0 {
        lemma_holds_from_below(children[q[0]], q.drop_first(), pane);
        lemma_found_child(children, pane, q[0]);
        lemma_child_is_unique_too(children, q[0]);
        lemma_no_pair(children[q[0]], pane, along, q.drop_first());
    }
}

/// The edge that a resize moves, and that nothing else changes.
proof fn lemma_edge(n: NodeModel, pane: Seq<char>, along: SplitDirection, pair: (Ratio, Ratio)) -> (at: (
    Seq<int>,
    int,
))
    requires
        pane_ids(n).no_duplicates(),
        resize_pair(n, pane, along) matches Ok(Some(_)),
    ensures
        is_edge(n, pane, along, at.0, at.1),
        same_but_at(n, with_pair(n, pane, along, pair), at.0),
        ({
            let before = node_at(n, at.0)->0;
            let m = if at.1 > 0 {
                at.1 - 1
            } else {
                at.1 + 1
            };
            &&& before->ratios.len() == before->children.len() && m < before->ratios.len()
            &&& resize_pair(n, pane, along) == Ok::<Option<(Ratio, Ratio)>, LayoutError>(
                Some((before->ratios[at.1], before->ratios[m])),
            )
            &&& node_at(with_pair(n, pane, along, pair), at.0) matches Some(after) && after is Split
                && after->Split_id == before->Split_id && after->direction == before->direction
                && after->children == before->children && changed_at(
                before->ratios,
                after->ratios,
                at.1,
                pair.0,
                m,
                pair.1,
            )
        }),
    decreases n,
{
    let children = n->children;
    let ratios = n->ratios;
    let k = first_holding_pane(children, pane, 0);
    let after = with_pair(n, pane, along, pair);
    lemma_first_holding_pane(children, pane, 0);
    lemma_child_is_unique_too(children, k);
    if resize_pair(children[k], pane, along) == Ok::<Option<(Ratio, Ratio)>, LayoutError>(None) {
        let path = Seq::<int>::empty();
        assert forall|q: Seq<int>|
            !runs_above(#[trigger] node_at(children[k], q), pane, along) by {
            if runs_above(node_at(children[k], q), pane, along) {
                lemma_no_pair(children[k], pane, along, q);
            }
        }
        assert(node_at(n, path) == Some(n));
        assert forall|q: Seq<int>| q != path implies #[trigger] same_at(n, after, q) by {
            if q.len() == 0 {
                assert(q =~= path);
            } else if 0 <= q[0] < children.len() {
                lemma_same_tree(children[q[0]], q.drop_first());
            }
        }
        (path, k)
    } else {
        let (inner, c) = lemma_edge(children[k], pane, along, pair);
        let path = seq![k] + inner;
        let changed = with_pair(children[k], pane, along, pair);
        assert(path.drop_first() =~= inner);
        assert(node_at(n, path) == node_at(children[k], inner));
        assert(node_at(after, path) == node_at(changed, inner));
        assert forall|q: Seq<int>| q != path implies #[trigger] same_at(n, after, q) by {
            if q.len() > 0 && 0 <= q[0] < children.len() {
                if q[0] == k {
                    let rest = q.drop_first();
                    if rest == inner {
                        assert(q =~= seq![q[0]] + rest);
                    }
                    assert(same_at(children[k], changed, rest));
                } else {
                    assert(after->children[q[0]] == children[q[0]]);
                    lemma_same_tree(children[q[0]], q.drop_first());
                }
            }
        }
        (path, c)
    }
}

/// Whether a resize by `delta` moved the edge at the end of a path: the child
/// that holds the pane gets what it had and `delta`, within the bounds, the
/// child before it (or after it, where there is none) the rest of what both
/// had, and all else is as it was.
pub open spec fn edge_moved(
    n: NodeModel,
    after: NodeModel,
    delta: Ratio,
    path: Seq<int>,
    k: int,
) -> bool {
    let old_shares = node_at(n, path)->0->ratios;
    let m = if k > 0 {
        k - 1
    } else {
        k + 1
    };
    let total = old_shares[k].plus(old_shares[m]);
    let least = ratio::least_share(total);
    let most = total.plus(least.negated());
    let sum = old_shares[k].plus(delta);
    let share = if ratio::rank(sum) < ratio::rank(least) {
        least
    } else if ratio::rank(sum) > ratio::rank(most) {
        most
    } else {
        sum
    };
    &&& node_at(after, path) matches Some(x) && x is Split && x->Split_id == node_at(
        n,
        path,
    )->0->Split_id && x->direction == node_at(n, path)->0->direction && x->children.len()
        == node_at(n, path)->0->children.len() && changed_at(
        old_shares,
        x->ratios,
        k,
        share,
        m,
        total.plus(share.negated()),
    )
    &&& same_but_at(n, after, path)
}

/// A resize moves the edge of one split: the innermost one that runs in the
/// direction and holds the pane. The child of it that holds the pane gets
/// `delta` more, within bounds, its neighbour the rest of what both had, and
/// every other share in the tree stays. So a pane that is to grow does not
/// shrink, and one that is to shrink does not grow, where it kept within the
/// bounds before.
pub proof fn law_resize_moves_one_edge(
    n: NodeModel,
    pane: Seq<char>,
    along: SplitDirection,
    delta: Ratio,
    max_wire: int,
)
    requires
        resize_result(n, pane, along, delta, max_wire) is Ok,
        resizable(n, pane, along),
    ensures
        ({
            let after = resize_result(n, pane, along, delta, max_wire)->Ok_0;
            exists|path: Seq<int>, k: int| #[trigger]
                is_edge(n, pane, along, path, k) && edge_moved(n, after, delta, path, k) && {
                    let old_shares = node_at(n, path)->0->ratios;
                    let new_shares = node_at(after, path)->0->ratios;
                    let total = old_shares[k].plus(
                        old_shares[if k > 0 {
                            k - 1
                        } else {
                            k + 1
                        }],
                    );
                    &&& delta.value() >= 0 && ratio::rank(old_shares[k]) <= ratio::rank(
                        total.plus(ratio::least_share(total).negated()),
                    ) ==> ratio::rank(new_shares[k]) >= ratio::rank(old_shares[k])
                    &&& delta.value() <= 0 && ratio::rank(old_shares[k]) >= ratio::rank(
                        ratio::least_share(total),
                    ) ==> ratio::rank(new_shares[k]) <= ratio::rank(old_shares[k])
                }
        }),
{
    let after = resize_result(n, pane, along, delta, max_wire)->Ok_0;
    let pair = resize_pair(n, pane, along)->Ok_0->0;
    let shares = ratio::resized(pair.0, pair.1, delta);
    law_resize_keeps_panes(n, pane, along, delta, max_wire);
    assert(after == with_pair(n, pane, along, shares));
    let (path, k) = lemma_edge(n, pane, along, shares);
    ratio::law_resizing_moves_the_edge_by_delta(pair.0, pair.1, delta);
    assert(is_edge(n, pane, along, path, k));
    assert(edge_moved(n, after, delta, path, k));
}

/// Whether two trees are the same wherever a path does not lead through.
pub open spec fn same_outside(a: NodeModel, b: NodeModel, path: Seq<int>) -> bool {
    forall|q: Seq<int>| !path.is_prefix_of(q) ==> #[trigger] same_at(a, b, q)
}

/// Where a changed child of a node is all that changed, the node is the same
/// outside of the way there.
proof fn lemma_same_outside(
    a: NodeModel,
    b: NodeModel,
    k: int,
    inner: Seq<int>,
)
    requires
        a is Split,
        b is Split,
        a->Split_id == b->Split_id,
        a->direction == b->direction,
        a->ratios == b->ratios,
        0 <= k < a->children.len(),
        b->children == a->children.update(k, b->children[k]),
        same_outside(a->children[k], b->children[k], inner),
    ensures
        same_outside(a, b, seq![k] + inner),
{
    let path = seq![k] + inner;
    assert forall|q: Seq<int>| !path.is_prefix_of(q) implies #[trigger] same_at(a, b, q) by {
        if q.len() > 0 && 0 <= q[0] < a->children.len() {
            let rest = q.drop_first();
            if q[0] == k {
                if inner.is_prefix_of(rest) {
                    assert(path =~= q.subrange(0, path.len() as int)) by {
                        assert forall|i: int| 0 <= i < path.len() implies path[i] == q[i] by {
                            if i > 0 {
                                assert(path[i] == inner[i - 1]);
                                assert(inner[i - 1] == rest[i - 1]);
                            }
                        }
                    }
                }
                assert(same_at(a->children[k], b->children[k], rest));
            } else {
                assert(b->children[q[0]] == a->children[q[0]]);
                lemma_same_tree(a->children[q[0]], rest);
            }
        }
    }
}

proof fn lemma_split_path(
    n: NodeModel,
    id: Seq<char>,
    new_pane: Seq<char>,
    direction: SplitDirection,
) -> (path: Seq<int>)
    requires
        split_at(n, id, new_pane, direction) is Some,
    ensures
        node_at(n, path) == Some(NodeModel::Pane { id, pane_id: leaf_pane(n, id) }),
        node_at(split_at(n, id, new_pane, direction)->0, path) == Some(
            leaf_split(id, leaf_pane(n, id), new_pane, direction),
        ),
        same_outside(n, split_at(n, id, new_pane, direction)->0, path),
    decreases n,
{
    let after = split_at(n, id, new_pane, direction)->0;
    match n {
        NodeModel::Pane { id: own, pane_id } => {
            let path = Seq::<int>::empty();
            assert(forall|q: Seq<int>| path.is_prefix_of(q));
            path
        },
        NodeModel::Split { id: own, direction: along, children, ratios } => {
            let k = first_holding_node(children, id, 0);
            let inner = lemma_split_path(children[k], id, new_pane, direction);
            let path = seq![k] + inner;
            assert(path.drop_first() =~= inner);
            lemma_same_outside(n, after, k, inner);
            path
        },
    }
}

/// Splitting a pane puts a split in its place that runs in the direction asked
/// for: the pane first, the new one behind it, each with half of the space. The
/// rest of the tree stays.
pub proof fn law_split_divides_the_pane(
    n: NodeModel,
    pane: Seq<char>,
    new_pane: Seq<char>,
    direction: SplitDirection,
    max_wire: int,
)
    requires
        split_result(n, pane, new_pane, direction, max_wire) is Ok,
    ensures
        ({
            let after = split_result(n, pane, new_pane, direction, max_wire)->Ok_0;
            exists|path: Seq<int>| #[trigger]
                node_at(n, path) matches Some(leaf) && leaf is Pane && leaf->pane_id == pane && (
                node_at(after, path) matches Some(s) && {
                    &&& s is Split
                    &&& s->Split_id == leaf->Pane_id
                    &&& s->direction == direction
                    &&& s->children.len() == 2
                    &&& s->children[0] is Pane && s->children[0]->pane_id == pane
                    &&& s->children[1] is Pane && s->children[1]->pane_id == new_pane
                    &&& s->ratios == seq![
                        Ratio { bits: 0x3f00_0000 },
                        Ratio { bits: 0x3f00_0000 },
                    ]
                }) && same_outside(n, after, path)
        }),
{
    law_only_sound_trees_are_split(n, pane, new_pane, direction, max_wire);
    let id = pane_node_id(n, pane)->0;
    lemma_leaf_of_pane(n, pane);
    let path = lemma_split_path(n, id, new_pane, direction);
    let after = split_result(n, pane, new_pane, direction, max_wire)->Ok_0;
    assert(node_at(n, path) is Some);
    assert(node_at(after, path)->0->ratios =~= seq![
        Ratio { bits: 0x3f00_0000 },
        Ratio { bits: 0x3f00_0000 },
    ]);
}

proof fn lemma_first_leaf_is(f: Seq<NodeModel>, pane: Seq<char>, k: int)
    requires
        0 <= k <= f.len(),
    ensures
        k <= first_leaf(f, pane, k) <= f.len(),
        first_leaf(f, pane, k) < f.len() ==> f[first_leaf(f, pane, k)] is Pane && f[first_leaf(
            f,
            pane,
            k,
        )]->pane_id == pane,
    decreases f.len() - k,
{
    if k < f.len() && !(f[k] is Pane && f[k]->pane_id == pane) {
        lemma_first_leaf_is(f, pane, k + 1);
    }
}

/// Whether the child at `k` was taken out of a split: where others are left,
/// the one before it (or the first one left) gets its ratio as well, and where
/// one is left, that one takes the place and the identifier of the split.
pub open spec fn child_taken_out(before: NodeModel, after: NodeModel, k: int) -> bool {
    let children = before->children;
    let ratios = before->ratios;
    let heir = if k > 0 {
        k - 1
    } else {
        1
    };
    let place = if k > 0 {
        k - 1
    } else {
        0
    };
    if children.len() == 2 {
        after == children[1 - k].with_id(before->Split_id)
    } else {
        &&& after is Split
        &&& after->Split_id == before->Split_id
        &&& after->direction == before->direction
        &&& after->children == children.remove(k)
        &&& after->ratios.len() == ratios.len() - 1
        &&& after->ratios[place] == ratios[heir].plus(ratios[k])
        &&& forall|j: int|
            0 <= j < after->ratios.len() && j != place ==> #[trigger] after->ratios[j] == if j < k {
                ratios[j]
            } else {
                ratios[j + 1]
            }
    }
}

proof fn lemma_removal_path(
    n: NodeModel,
    pane: Seq<char>,
    depth: int,
    wire: int,
    parent: Option<SplitDirection>,
    max_wire: int,
) -> (at: (Seq<int>, int))
    requires
        shaped(n, depth, wire, parent, max_wire),
        without_pane(n, pane) matches Ok(Some(_)),
    ensures
        ({
            let after = without_pane(n, pane)->Ok_0->0;
            &&& node_at(n, at.0) matches Some(s) && s is Split && 0 <= at.1 < s->children.len()
                && s->children[at.1] is Pane && s->children[at.1]->pane_id == pane && (node_at(
                after,
                at.0,
            ) matches Some(left) && child_taken_out(s, left, at.1))
            &&& same_outside(n, after, at.0)
        }),
    decreases n,
{
    let children = n->children;
    let ratios = n->ratios;
    let after = without_pane(n, pane)->Ok_0->0;
    let leaf = first_leaf(children, pane, 0);
    let k = first_holding_pane(children, pane, 0);
    lemma_first_leaf_is(children, pane, 0);
    lemma_first_holding_pane(children, pane, 0);
    if leaf < children.len() {
        let path = Seq::<int>::empty();
        assert(forall|q: Seq<int>| path.is_prefix_of(q));
        assert(node_at(n, path) == Some(n));
        assert(node_at(after, path) == Some(after));
        if children.len() == 2 {
            assert(children.remove(leaf)[0] == children[1 - leaf]);
        }
        assert(child_taken_out(n, after, leaf));
        (path, leaf)
    } else {
        let below = wire_below(wire, parent, n->direction);
        lemma_forest_shaped_at(children, k, depth + 1, below, n->direction, max_wire);
        let (inner, c) = lemma_removal_path(
            children[k],
            pane,
            depth + 1,
            below,
            Some(n->direction),
            max_wire,
        );
        let path = seq![k] + inner;
        assert(path.drop_first() =~= inner);
        lemma_same_outside(n, after, k, inner);
        assert(node_at(n, path) == node_at(children[k], inner));
        assert(node_at(after, path) == node_at(after->children[k], inner));
        (path, c)
    }
}

/// Removing a pane takes its leaf out of the split that it stands in; the child
/// before it (or the first one left) gets its share, and a split with one child
/// left gives way to that child. The rest of the tree stays.
pub proof fn law_removal_hands_on_the_share(n: NodeModel, pane: Seq<char>, max_wire: int)
    requires
        sound(n, max_wire),
        remove_result(n, pane, max_wire) is Ok,
    ensures
        ({
            let after = remove_result(n, pane, max_wire)->Ok_0;
            exists|path: Seq<int>, k: int|
                #![trigger node_at(n, path)->0->children[k]]
                node_at(n, path) matches Some(s) && s is Split && 0 <= k < s->children.len()
                    && s->children[k] is Pane && s->children[k]->pane_id == pane && (node_at(
                    after,
                    path,
                ) matches Some(left) && child_taken_out(s, left, k)) && same_outside(n, after, path)
        }),
{
    let (path, k) = lemma_removal_path(n, pane, 0, 0, None, max_wire);
    assert(node_at(n, path)->0->children[k] is Pane);
}

/// A tree shows a pane just where a path leads to a leaf of that pane.
pub proof fn law_panes_shown_are_the_leaves(n: NodeModel, pane: Seq<char>)
    ensures
        holds_pane(n, pane) <==> exists|path: Seq<int>| #[trigger]
            node_at(n, path) matches Some(leaf) && leaf is Pane && leaf->pane_id == pane,
{
    if holds_pane(n, pane) {
        let path = lemma_path_to_pane(n, pane);
        assert(node_at(n, path) is Some);
    }
    if exists|path: Seq<int>| #[trigger]
        node_at(n, path) matches Some(leaf) && leaf is Pane && leaf->pane_id == pane {
        let path = choose|path: Seq<int>| #[trigger]
            node_at(n, path) matches Some(leaf) && leaf is Pane && leaf->pane_id == pane;
        let leaf = node_at(n, path)->0;
        assert(pane_ids(leaf)[0] == pane);
        lemma_holds_from_below(n, path, pane);
    }
}

proof fn lemma_path_to_pane(n: NodeModel, pane: Seq<char>) -> (path: Seq<int>)
    requires
        holds_pane(n, pane),
    ensures
        node_at(n, path) matches Some(leaf) && leaf is Pane && leaf->pane_id == pane,
    decreases n,
{
    match n {
        NodeModel::Pane { id, pane_id } => {
            let path = Seq::<int>::empty();
            assert(node_at(n, path) == Some(n));
            path
        },
        NodeModel::Split { id, direction, children, ratios } => {
            lemma_forest_pane_witness(children, pane);
            let w = choose|w: int| 0 <= w < children.len() && holds_pane(#[trigger] children[w], pane);
            let inner = lemma_path_to_pane(children[w], pane);
            let path = seq![w] + inner;
            assert(path.drop_first() =~= inner);
            path
        },
    }
}

proof fn lemma_pane_has_a_node(n: NodeModel, pane: Seq<char>)
    ensures
        pane_node_id(n, pane) is Some <==> holds_pane(n, pane),
    decreases n, 0nat,
{
    match n {
        NodeModel::Pane { id, pane_id } => {
            assert(seq![pane_id][0] == pane_id);
        },
        NodeModel::Split { id, direction, children, ratios } => {
            lemma_forest_pane_has_a_node(children, pane);
        },
    }
}

proof fn lemma_forest_pane_has_a_node(f: Seq<NodeModel>, pane: Seq<char>)
    ensures
        forest_pane_node_id(f, pane) is Some <==> forest_pane_ids(f).contains(pane),
    decreases f, 0nat,
{
    if f.len() > 0 {
        lemma_forest_pane_has_a_node(f.drop_last(), pane);
        lemma_pane_has_a_node(f.last(), pane);
        lemma_contains_concat(forest_pane_ids(f.drop_last()), pane_ids(f.last()), pane);
    }
}

/// What is asked of a split before anything else: the new pane has an
/// identifier that is not shown yet, and the other one is shown.
pub proof fn law_splits_need_two_panes(
    n: NodeModel,
    pane: Seq<char>,
    new_pane: Seq<char>,
    direction: SplitDirection,
    max_wire: int,
)
    ensures
        ({
            let result = split_result(n, pane, new_pane, direction, max_wire);
            &&& new_pane.len() == 0 ==> result == Err::<NodeModel, LayoutError>(
                LayoutError::EmptyNewPaneId,
            )
            &&& new_pane.len() > 0 && holds_pane(n, new_pane) ==> result == Err::<
                NodeModel,
                LayoutError,
            >(LayoutError::PaneAlreadyExists)
            &&& new_pane.len() > 0 && !holds_pane(n, new_pane) && !holds_pane(n, pane) ==> result
                == Err::<NodeModel, LayoutError>(LayoutError::PaneNotFound)
        }),
{
    lemma_pane_has_a_node(n, pane);
}

/// A pane that is alone in the tree is not removed, nor is one that the tree
/// does not show; and only a finite number can move an edge, that of a pane
/// that is shown.
pub proof fn law_absent_panes_are_refused(
    n: NodeModel,
    pane: Seq<char>,
    along: SplitDirection,
    delta: Ratio,
    max_wire: int,
)
    ensures
        n is Pane && n->pane_id == pane ==> remove_result(n, pane, max_wire) == Err::<
            NodeModel,
            LayoutError,
        >(LayoutError::SoleRootPane),
        !holds_pane(n, pane) ==> remove_result(n, pane, max_wire) == Err::<NodeModel, LayoutError>(
            LayoutError::PaneNotFound,
        ),
        !delta.finite() ==> resize_result(n, pane, along, delta, max_wire) == Err::<
            NodeModel,
            LayoutError,
        >(LayoutError::NonFiniteDelta),
        delta.finite() && !holds_pane(n, pane) ==> resize_result(n, pane, along, delta, max_wire)
            == Err::<NodeModel, LayoutError>(LayoutError::NoMatchingSplit),
{
    if !holds_pane(n, pane) {
        match n {
            NodeModel::Pane { id, pane_id } => {
                assert(seq![pane_id][0] == pane_id);
            },
            NodeModel::Split { id, direction, children, ratios } => {
                lemma_forest_holds_pane(children, pane);
                lemma_first_holding_pane(children, pane, 0);
                lemma_first_leaf_is(children, pane, 0);
                let k = first_leaf(children, pane, 0);
                if k < children.len() {
                    assert(pane_ids(children[k])[0] == pane);
                    assert(holds_pane(children[k], pane));
                    lemma_forest_pane_witness(children, pane);
                }
            },
        }
    }
}

proof fn lemma_edge_is_found(
    n: NodeModel,
    pane: Seq<char>,
    along: SplitDirection,
    path: Seq<int>,
    depth: int,
    wire: int,
    parent: Option<SplitDirection>,
    max_wire: int,
)
    requires
        shaped(n, depth, wire, parent, max_wire),
        pane_ids(n).no_duplicates(),
    ensures
        resize_pair(n, pane, along) is Ok,
        runs_above(node_at(n, path), pane, along) ==> resize_pair(n, pane, along)->Ok_0 is Some,
    decreases n,
{
    if let NodeModel::Split { id, direction, children, ratios } = n {
        let index = first_holding_pane(children, pane, 0);
        lemma_first_holding_pane(children, pane, 0);
        lemma_forest_pane_witness(children, pane);
        if index < children.len() {
            let below = wire_below(wire, parent, direction);
            lemma_forest_shaped_at(children, index, depth + 1, below, direction, max_wire);
            lemma_forest_no_duplicates_at(children, index);
            let inner = if path.len() > 0 {
                path.drop_first()
            } else {
                path
            };
            lemma_edge_is_found(
                children[index],
                pane,
                along,
                inner,
                depth + 1,
                below,
                Some(direction),
                max_wire,
            );
            if runs_above(node_at(n, path), pane, along) && path.len() > 0 {
                lemma_holds_from_below(children[path[0]], inner, pane);
                if path[0] != index {
                    lemma_forest_panes_apart(children, path[0], index, pane);
                }
            }
        } else if runs_above(node_at(n, path), pane, along) {
            lemma_holds_from_below(n, path, pane);
            let w = choose|w: int|
                0 <= w < children.len() && holds_pane(#[trigger] children[w], pane);
            lemma_first_holding_pane_bound(children, pane, 0, w);
        }
    }
}

/// In a sound tree a resize finds an edge wherever some split that holds the pane
/// runs in the direction; the first child of a split is no exception.
pub proof fn law_every_edge_is_found(
    n: NodeModel,
    pane: Seq<char>,
    along: SplitDirection,
    path: Seq<int>,
    max_wire: int,
)
    requires
        sound(n, max_wire),
        node_at(n, path) matches Some(s) && s is Split && holds_pane(s, pane) && s->direction
            == along,
    ensures
        resize_pair(n, pane, along) matches Ok(found) && found is Some,
{
    lemma_edge_is_found(n, pane, along, path, 0, 0, None, max_wire);
}

proof fn lemma_sound_below(
    n: NodeModel,
    path: Seq<int>,
    depth: int,
    wire: int,
    parent: Option<SplitDirection>,
    max_wire: int,
)
    requires
        shaped(n, depth, wire, parent, max_wire),
        node_at(n, path) is Some,
    ensures
        match node_at(n, path)->0 {
            NodeModel::Pane { id, pane_id } => id.len() > 0 && pane_id.len() > 0,
            NodeModel::Split { id, direction, children, ratios } => id.len() > 0 && children.len()
                >= 2 && children.len() == ratios.len() && (forall|i: int|
                0 <= i < ratios.len() ==> (#[trigger] ratios[i]).bits > 0 && ratios[i].bits
                    < 0x7f80_0000) && ratio::total_of(ratios).bits < 0x7f80_0000,
        },
        depth + path.len() <= 128,
    decreases path.len(),
{
    if path.len() > 0 {
        if let NodeModel::Split { id, direction, children, ratios } = n {
            let below = wire_below(wire, parent, direction);
            lemma_forest_shaped_at(children, path[0], depth + 1, below, direction, max_wire);
            lemma_sound_below(
                children[path[0]],
                path.drop_first(),
                depth + 1,
                below,
                Some(direction),
                max_wire,
            );
        }
    }
}

/// In a sound tree every node has an identifier, every pane too, every split has
/// two children or more and a share above zero and below all bounds for each of
/// them and for all together, and no node is deeper than 128 splits.
pub proof fn law_sound_trees_are_so_everywhere(n: NodeModel, path: Seq<int>, max_wire: int)
    requires
        sound(n, max_wire),
        node_at(n, path) is Some,
    ensures
        match node_at(n, path)->0 {
            NodeModel::Pane { id, pane_id } => id.len() > 0 && pane_id.len() > 0,
            NodeModel::Split { id, direction, children, ratios } => id.len() > 0 && children.len()
                >= 2 && children.len() == ratios.len() && (forall|i: int|
                0 <= i < ratios.len() ==> (#[trigger] ratios[i]).bits > 0 && ratios[i].bits
                    < 0x7f80_0000) && ratio::total_of(ratios).bits < 0x7f80_0000,
        },
        path.len() <= 128,
{
    lemma_sound_below(n, path, 0, 0, None, max_wire);
}

/// A pane that a sound tree shows can be split wherever the tree is sound with
/// the split in its place: what refuses a new pane is that tree alone.
pub proof fn law_splits_succeed_where_the_tree_stays_sound(
    n: NodeModel,
    pane: Seq<char>,
    new_pane: Seq<char>,
    direction: SplitDirection,
    max_wire: int,
)
    requires
        sound(n, max_wire),
        holds_pane(n, pane),
        new_pane.len() > 0,
        !holds_pane(n, new_pane),
    ensures
        exists|path: Seq<int>, after: NodeModel|
            #![trigger node_at(n, path), same_outside(n, after, path)]
            node_at(n, path) matches Some(leaf) && leaf is Pane && leaf->pane_id == pane
                && same_outside(n, after, path) && (split_result(
                n,
                pane,
                new_pane,
                direction,
                max_wire,
            ) is Ok <==> sound(after, max_wire)) && (sound(after, max_wire) ==> split_result(
                n,
                pane,
                new_pane,
                direction,
                max_wire,
            ) == Ok::<NodeModel, LayoutError>(after)),
{
    lemma_pane_has_a_node(n, pane);
    lemma_leaf_of_pane(n, pane);
    let id = pane_node_id(n, pane)->0;
    let after = split_at(n, id, new_pane, direction)->0;
    assert(split_at(n, id, new_pane, direction) is Some);
    law_structure_is_soundness(after, max_wire);
    let path = lemma_split_path(n, id, new_pane, direction);
    assert(same_outside(n, after, path));
    assert(node_at(n, path) is Some);
}

} // verus!
