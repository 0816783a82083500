//! The saved form of a split tree: a flat table of nodes, parents before
//! children, in which a split names its children by their position.
use crate::layout;
use crate::layout::{are_shares, copy_ratios, LayoutNode, LayoutTree, SplitDirection};
use crate::layout::MAX_INTERNAL_LAYOUT_DEPTH;
use crate::layout_model;
use crate::layout_model::NodeModel;
use crate::ratio;
use crate::ratio::{total_ratio, Ratio};
use crate::text;
use crate::text::contains_text;
use vstd::prelude::*;

verus! {

/// A saved node.
#[derive(Debug)]
pub enum PersistedLayoutNode {
    Pane { id: String, pane_id: String },
    Split { id: String, direction: SplitDirection, children: Vec<usize>, ratios: Vec<Ratio> },
}

/// A saved tree; the first node is the root.
#[derive(Debug)]
pub struct PersistedLayoutTree {
    pub nodes: Vec<PersistedLayoutNode>,
}

/// How many nodes a saved tree may have.
pub const MAX_PERSISTED_LAYOUT_NODES: usize = 4096;

/// What makes a saved tree unusable.
#[derive(Clone, Copy, Debug, PartialEq, Eq, Structural)]
pub enum PersistedLayoutError {
    NoNodes,
    TooManyNodes,
    EmptyPaneNodeId,
    EmptySplitNodeId,
    DuplicateNodeId,
    EmptyPaneId,
    DuplicatePaneId,
    TooFewChildren,
    MismatchedRatios,
    ChildrenNotIncreasing,
    ChildOutOfBounds,
    InvalidRatio,
    InvalidRatioSum,
    NotASingleTree,
    InternalDepth,
    WireDepth,
    UnreachableNodes,
}

/// The mathematical value of a saved node.
pub enum EntryModel {
    Pane { id: Seq<char>, pane_id: Seq<char> },
    Split { id: Seq<char>, direction: SplitDirection, children: Seq<int>, ratios: Seq<Ratio> },
}

pub open spec fn positions(children: Seq<usize>) -> Seq<int> {
    children.map_values(|c: usize| c as int)
}

impl EntryModel {
    pub open spec fn node_id(self) -> Seq<char> {
        match self {
            EntryModel::Pane { id, pane_id } => id,
            EntryModel::Split { id, direction, children, ratios } => id,
        }
    }

    /// The positions of the children; a pane has none.
    pub open spec fn below(self) -> Seq<int> {
        match self {
            EntryModel::Pane { id, pane_id } => Seq::empty(),
            EntryModel::Split { id, direction, children, ratios } => children,
        }
    }
}

impl PersistedLayoutNode {
    pub open spec fn model(self) -> EntryModel {
        match self {
            PersistedLayoutNode::Pane { id, pane_id } => EntryModel::Pane {
                id: id@,
                pane_id: pane_id@,
            },
            PersistedLayoutNode::Split { id, direction, children, ratios } => EntryModel::Split {
                id: id@,
                direction,
                children: positions(children@),
                ratios: ratios@,
            },
        }
    }
}

/// The mathematical value of a table of saved nodes.
pub open spec fn table(nodes: Seq<PersistedLayoutNode>) -> Seq<EntryModel> {
    nodes.map_values(|n: PersistedLayoutNode| n.model())
}

impl View for PersistedLayoutTree {
    type V = Seq<EntryModel>;

    open spec fn view(&self) -> Seq<EntryModel> {
        table(self.nodes@)
    }
}

/// How many nodes a tree has.
pub open spec fn size(n: NodeModel) -> nat
    decreases n,
{
    match n {
        NodeModel::Pane { id, pane_id } => 1,
        NodeModel::Split { id, direction, children, ratios } => 1 + forest_size(children),
    }
}

pub open spec fn forest_size(f: Seq<NodeModel>) -> nat
    decreases f,
{
    if f.len() == 0 {
        0
    } else {
        forest_size(f.drop_last()) + size(f.last())
    }
}

/// Where each of the trees starts, when they are laid out from `base` on.
pub open spec fn starts(f: Seq<NodeModel>, base: int) -> Seq<int>
    decreases f,
{
    if f.len() == 0 {
        Seq::empty()
    } else {
        starts(f.drop_last(), base).push(base + forest_size(f.drop_last()))
    }
}

/// The table of a tree laid out from `base` on.
pub open spec fn flat(n: NodeModel, base: int) -> Seq<EntryModel>
    decreases n,
{
    match n {
        NodeModel::Pane { id, pane_id } => seq![EntryModel::Pane { id, pane_id }],
        NodeModel::Split { id, direction, children, ratios } => seq![
            EntryModel::Split { id, direction, children: starts(children, base + 1), ratios },
        ] + flat_forest(children, base + 1),
    }
}

pub open spec fn flat_forest(f: Seq<NodeModel>, base: int) -> Seq<EntryModel>
    decreases f,
{
    if f.len() == 0 {
        Seq::empty()
    } else {
        flat_forest(f.drop_last(), base) + flat(f.last(), base + forest_size(f.drop_last()))
    }
}

pub proof fn lemma_flat_len(n: NodeModel, base: int)
    ensures
        flat(n, base).len() == size(n),
        size(n) >= 1,
    decreases n,
{
    if let NodeModel::Split { id, direction, children, ratios } = n {
        lemma_flat_forest_len(children, base + 1);
    }
}

pub proof fn lemma_flat_forest_len(f: Seq<NodeModel>, base: int)
    ensures
        flat_forest(f, base).len() == forest_size(f),
        starts(f, base).len() == f.len(),
    decreases f,
{
    if f.len() > 0 {
        lemma_flat_forest_len(f.drop_last(), base);
        lemma_flat_len(f.last(), base + forest_size(f.drop_last()));
    }
}

/// Appends a node and everything below it to a table.
fn append_persisted(node: &LayoutNode, nodes: &mut Vec<PersistedLayoutNode>) -> (index: usize)
    ensures
        index == old(nodes).len(),
        table(final(nodes)@) == table(old(nodes)@) + flat(node.model(), old(nodes).len() as int),
    decreases node,
{
    let index: usize = nodes.len();
    let ghost start = nodes@;
    proof {
        layout::lemma_split_model(*node);
    }
    match node {
        LayoutNode::Pane { id, pane_id } => {
            nodes.push(PersistedLayoutNode::Pane { id: id.clone(), pane_id: pane_id.clone() });
            proof {
                assert(table(nodes@) =~= table(start) + flat(node.model(), index as int));
            }
        },
        LayoutNode::Split { id, direction, children, ratios } => {
            let ghost forest = layout::models(children@);
            let placeholder = PersistedLayoutNode::Split {
                id: id.clone(),
                direction: *direction,
                children: Vec::new(),
                ratios: copy_ratios(ratios),
            };
            nodes.push(placeholder);
            let ghost head = nodes@;
            let mut slots: Vec<usize> = Vec::new();
            let mut i: usize = 0;
            proof {
                assert(table(nodes@) =~= table(head) + flat_forest(forest.take(0), index + 1));
                assert(positions(slots@) =~= starts(forest.take(0), index + 1));
            }
            while i < children.len()
                invariant
                    i <= children.len(),
                    forest == layout::models(children@),
                    *node matches LayoutNode::Split { children: held, .. } && held == *children,
                    head.len() == index + 1,
                    table(nodes@) == table(head) + flat_forest(
                        forest.take(i as int),
                        index + 1,
                    ),
                    positions(slots@) == starts(forest.take(i as int), index + 1),
                decreases children.len() - i,
            {
                let ghost before = nodes@;
                let slot: usize = append_persisted(&children[i], nodes);
                proof {
                    let grown = forest.take(i + 1);
                    assert(grown.drop_last() =~= forest.take(i as int));
                    assert(grown.last() == children@[i as int].model());
                    lemma_flat_forest_len(forest.take(i as int), index + 1);
                    assert(table(before).len() == before.len());
                    assert(table(nodes@) =~= table(head) + flat_forest(grown, index + 1));
                }
                let ghost old_slots = slots@;
                slots.push(slot);
                proof {
                    assert(positions(slots@) =~= positions(old_slots).push(slot as int));
                }
                i = i + 1;
            }
            proof {
                assert(forest.take(children.len() as int) =~= forest);
                assert(table(nodes@).len() == nodes@.len());
            }
            let ghost filled = nodes@;
            let entry = PersistedLayoutNode::Split {
                id: id.clone(),
                direction: *direction,
                children: slots,
                ratios: copy_ratios(ratios),
            };
            nodes.set(index, entry);
            proof {
                let below = flat_forest(forest, index + 1);
                assert(table(nodes@) =~= table(filled).update(index as int, entry.model()));
                assert(table(head) =~= table(start).push(placeholder.model()));
                assert(table(nodes@) =~= table(start) + (seq![entry.model()] + below));
            }
        },
    }
    index
}

/// Whether an earlier node of the table has this identifier.
pub open spec fn id_before(t: Seq<EntryModel>, i: int, id: Seq<char>) -> bool {
    exists|j: int| 0 <= j < i && (#[trigger] t[j]).node_id() == id
}

/// Whether an earlier node of the table shows this pane.
pub open spec fn pane_before(t: Seq<EntryModel>, i: int, pane: Seq<char>) -> bool {
    exists|j: int| 0 <= j < i && (#[trigger] t[j]) is Pane && t[j]->pane_id == pane
}

/// What is wrong with the first of the child positions that is wrong: each
/// comes after its parent and its predecessor, and inside the table.
pub open spec fn child_error(children: Seq<int>, parent: int, count: int) -> Option<
    PersistedLayoutError,
>
    decreases children.len(),
{
    if children.len() == 0 {
        None
    } else {
        match child_error(children.drop_last(), parent, count) {
            Some(e) => Some(e),
            None => {
                let previous = if children.len() == 1 {
                    parent
                } else {
                    children[children.len() - 2]
                };
                if children.last() <= previous {
                    Some(PersistedLayoutError::ChildrenNotIncreasing)
                } else if children.last() >= count {
                    Some(PersistedLayoutError::ChildOutOfBounds)
                } else {
                    None
                }
            },
        }
    }
}

/// What is wrong with the node at `i`, given the nodes before it.
pub open spec fn entry_error(t: Seq<EntryModel>, i: int) -> Option<PersistedLayoutError> {
    match t[i] {
        EntryModel::Pane { id, pane_id } => {
            if id.len() == 0 {
                Some(PersistedLayoutError::EmptyPaneNodeId)
            } else if id_before(t, i, id) {
                Some(PersistedLayoutError::DuplicateNodeId)
            } else if pane_id.len() == 0 {
                Some(PersistedLayoutError::EmptyPaneId)
            } else if pane_before(t, i, pane_id) {
                Some(PersistedLayoutError::DuplicatePaneId)
            } else {
                None
            }
        },
        EntryModel::Split { id, direction, children, ratios } => {
            if id.len() == 0 {
                Some(PersistedLayoutError::EmptySplitNodeId)
            } else if id_before(t, i, id) {
                Some(PersistedLayoutError::DuplicateNodeId)
            } else if children.len() < 2 {
                Some(PersistedLayoutError::TooFewChildren)
            } else if children.len() != ratios.len() {
                Some(PersistedLayoutError::MismatchedRatios)
            } else {
                match child_error(children, i, t.len() as int) {
                    Some(e) => Some(e),
                    None => if !layout_model::all_shares(ratios) {
                        Some(PersistedLayoutError::InvalidRatio)
                    } else if !ratio::total_of(ratios).share() {
                        Some(PersistedLayoutError::InvalidRatioSum)
                    } else {
                        None
                    },
                }
            }
        },
    }
}

/// What is wrong with the first of the first `k` nodes that is wrong.
pub open spec fn first_entry_error(t: Seq<EntryModel>, k: int) -> Option<PersistedLayoutError>
    decreases k,
{
    if k <= 0 {
        None
    } else {
        match first_entry_error(t, k - 1) {
            Some(e) => Some(e),
            None => entry_error(t, k - 1),
        }
    }
}

/// Whether the node at `p` has the node at `j` as a child.
pub open spec fn refers(t: Seq<EntryModel>, p: int, j: int) -> bool {
    t[p].below().contains(j)
}

/// Whether one of the first `k` nodes has the node at `j` as a child.
pub open spec fn referred_before(t: Seq<EntryModel>, k: int, j: int) -> bool {
    exists|p: int| 0 <= p < k && #[trigger] refers(t, p, j)
}

/// Whether every node but the first is somebody's child, and the first is
/// nobody's.
pub open spec fn single_tree(t: Seq<EntryModel>) -> bool {
    &&& !referred_before(t, t.len() as int, 0)
    &&& forall|j: int| 1 <= j < t.len() ==> #[trigger] referred_before(t, t.len() as int, j)
}

/// Whether some node is the child of two nodes among the first `k`, and so
/// would be met twice on a walk.
pub open spec fn shared_before(t: Seq<EntryModel>, k: int) -> bool {
    exists|p: int, q: int, j: int| 0 <= p < q < k && #[trigger] refers(t, p, j) && #[trigger] refers(t, q, j)
}

/// What a walk down from the node at `i`, last children first, finds nested
/// too deep.
pub open spec fn depth_error(
    t: Seq<EntryModel>,
    i: int,
    depth: int,
    wire: int,
    parent: Option<SplitDirection>,
    max_wire: int,
) -> Option<PersistedLayoutError>
    decreases t.len() - i, t[i].below().len() + 1,
{
    if depth > MAX_INTERNAL_LAYOUT_DEPTH {
        Some(PersistedLayoutError::InternalDepth)
    } else if wire > max_wire {
        Some(PersistedLayoutError::WireDepth)
    } else {
        match t[i] {
            EntryModel::Pane { id, pane_id } => None,
            EntryModel::Split { id, direction, children, ratios } => children_depth_error(
                t,
                i,
                children,
                depth + 1,
                layout_model::wire_below(wire, parent, direction),
                direction,
                max_wire,
            ),
        }
    }
}

pub open spec fn children_depth_error(
    t: Seq<EntryModel>,
    i: int,
    children: Seq<int>,
    depth: int,
    wire: int,
    parent: SplitDirection,
    max_wire: int,
) -> Option<PersistedLayoutError>
    decreases t.len() - i, children.len(),
{
    if children.len() == 0 {
        None
    } else if !(i < children.last() < t.len()) {
        None
    } else {
        match depth_error(t, children.last(), depth, wire, Some(parent), max_wire) {
            Some(e) => Some(e),
            None => children_depth_error(
                t,
                i,
                children.drop_last(),
                depth,
                wire,
                parent,
                max_wire,
            ),
        }
    }
}

/// The tree that the table holds at and below the node at `i`.
pub open spec fn rebuilt(t: Seq<EntryModel>, i: int) -> NodeModel
    decreases t.len() - i,
{
    match t[i] {
        EntryModel::Pane { id, pane_id } => NodeModel::Pane { id, pane_id },
        EntryModel::Split { id, direction, children, ratios } => NodeModel::Split {
            id,
            direction,
            children: Seq::new(
                children.len(),
                |k: int|
                    if i < children[k] < t.len() {
                        rebuilt(t, children[k])
                    } else {
                        layout::empty_model()
                    },
            ),
            ratios,
        },
    }
}

/// What loading a saved tree gives.
pub open spec fn loaded(t: Seq<EntryModel>, max_wire: int) -> Result<
    NodeModel,
    PersistedLayoutError,
> {
    if t.len() == 0 {
        Err(PersistedLayoutError::NoNodes)
    } else if t.len() > MAX_PERSISTED_LAYOUT_NODES {
        Err(PersistedLayoutError::TooManyNodes)
    } else if t.len() == 1 && t[0] is Pane && t[0].node_id().len() == 0 && t[0]->pane_id.len() == 0 {
        Ok(layout::empty_model())
    } else {
        match first_entry_error(t, t.len() as int) {
            Some(e) => Err(e),
            None => if !single_tree(t) {
                Err(PersistedLayoutError::NotASingleTree)
            } else {
                match depth_error(t, 0, 0, 0, None, max_wire) {
                    Some(e) => Err(e),
                    None => if shared_before(t, t.len() as int) {
                        Err(PersistedLayoutError::UnreachableNodes)
                    } else {
                        Ok(rebuilt(t, 0))
                    },
                }
            },
        }
    }
}

/// Child positions that come after their parent, in order, inside the table.
pub open spec fn orderly(children: Seq<int>, parent: int, count: int) -> bool {
    &&& forall|k: int| 0 <= k < children.len() ==> parent < (#[trigger] children[k]) < count
    &&& forall|k: int, l: int|
        0 <= k < l < children.len() ==> (#[trigger] children[k]) < (#[trigger] children[l])
}

/// Child positions are in order exactly when nothing is wrong with them.
pub proof fn lemma_child_error(children: Seq<int>, parent: int, count: int)
    ensures
        child_error(children, parent, count) is None <==> orderly(children, parent, count),
    decreases children.len(),
{
    if children.len() > 0 {
        let init = children.drop_last();
        lemma_child_error(init, parent, count);
        if orderly(children, parent, count) {
            assert forall|k: int| 0 <= k < init.len() implies parent < (#[trigger] init[k]) < count by {
                assert(init[k] == children[k]);
            }
            assert forall|k: int, l: int| 0 <= k < l < init.len() implies (#[trigger] init[k]) < (
            #[trigger] init[l]) by {
                assert(init[k] == children[k] && init[l] == children[l]);
            }
            if children.len() > 1 {
                assert(children[children.len() - 2] < children[children.len() - 1]);
            }
        } else if child_error(children, parent, count) is None {
            assert forall|k: int| 0 <= k < children.len() implies parent < (#[trigger] children[k])
                < count by {
                if k < init.len() {
                    assert(init[k] == children[k]);
                } else if init.len() > 0 {
                    assert(init[init.len() - 1] == children[children.len() - 2]);
                }
            }
            assert forall|k: int, l: int| 0 <= k < l < children.len() implies (
            #[trigger] children[k]) < (#[trigger] children[l]) by {
                if l < init.len() {
                    assert(init[k] == children[k] && init[l] == children[l]);
                } else {
                    assert(init[init.len() - 1] == children[children.len() - 2]);
                    if k < init.len() - 1 {
                        assert(init[k] < init[init.len() - 1]);
                    }
                    assert(init[k] == children[k]);
                }
            }
        }
    }
}

pub proof fn lemma_first_entry_error(t: Seq<EntryModel>, k: int, i: int)
    requires
        0 <= i < k <= t.len(),
    ensures
        first_entry_error(t, k) is None ==> entry_error(t, i) is None,
        first_entry_error(t, i) is None && entry_error(t, i) is Some ==> first_entry_error(t, k)
            == entry_error(t, i),
    decreases k,
{
    if i < k - 1 {
        lemma_first_entry_error(t, k - 1, i);
    }
}

/// Checks the child positions of the node at `index`, and marks the children.
fn check_children(
    children: &Vec<usize>,
    index: usize,
    referenced: &mut Vec<bool>,
    shared: &mut bool,
) -> (result: Option<PersistedLayoutError>)
    requires
        index < old(referenced).len(),
    ensures
        result == child_error(positions(children@), index as int, old(referenced).len() as int),
        final(referenced).len() == old(referenced).len(),
        result is None ==> forall|j: int|
            0 <= j < final(referenced).len() ==> #[trigger] final(referenced)[j] == (old(
                referenced,
            )[j] || positions(children@).contains(j)),
        result is None ==> *final(shared) == (*old(shared) || exists|j: int|
            0 <= j < old(referenced).len() && #[trigger] old(referenced)[j] && positions(
                children@,
            ).contains(j)),
{
    let count: usize = referenced.len();
    let ghost all = positions(children@);
    let ghost marked = referenced@;
    let mut previous: usize = index;
    let mut k: usize = 0;
    proof {
        assert(all.take(0) =~= Seq::<int>::empty());
    }
    while k < children.len()
        invariant
            k <= children.len(),
            all == positions(children@),
            count == referenced.len() == marked.len(),
            marked == old(referenced)@,
            index < count,
            child_error(all.take(k as int), index as int, count as int) is None,
            previous == if k == 0 {
                index as int
            } else {
                all[k - 1]
            },
            forall|j: int|
                0 <= j < count ==> #[trigger] referenced@[j] == (marked[j] || all.take(
                    k as int,
                ).contains(j)),
            *shared == (*old(shared) || exists|j: int|
                0 <= j < count && #[trigger] marked[j] && all.take(k as int).contains(j)),
        decreases children.len() - k,
    {
        let child: usize = children[k];
        let ghost taken = all.take(k as int);
        let ghost next = all.take(k + 1);
        proof {
            assert(next.drop_last() =~= taken);
            assert(next.last() == child);
            assert(all[k as int] == child);
            if k > 0 {
                assert(next[next.len() - 2] == all[k - 1]);
            }
        }
        if child <= previous {
            proof {
                lemma_child_error_prefix(all, k + 1, index as int, count as int);
            }
            return Some(PersistedLayoutError::ChildrenNotIncreasing);
        }
        if child >= count {
            proof {
                lemma_child_error_prefix(all, k + 1, index as int, count as int);
            }
            return Some(PersistedLayoutError::ChildOutOfBounds);
        }
        proof {
            lemma_child_error(taken, index as int, count as int);
            lemma_child_error(next, index as int, count as int);
            assert(!taken.contains(child as int)) by {
                if taken.contains(child as int) {
                    let w = choose|w: int| 0 <= w < taken.len() && taken[w] == child;
                    assert(next[w] < next[k as int]);
                }
            }
            assert(next.contains(child as int)) by {
                assert(next[k as int] == child);
            }
            assert forall|j: int| next.contains(j) <==> taken.contains(j) || j == child by {
                if next.contains(j) {
                    let w = choose|w: int| 0 <= w < next.len() && next[w] == j;
                    if w < k {
                        assert(taken[w] == j);
                    }
                }
                if taken.contains(j) {
                    let w = choose|w: int| 0 <= w < taken.len() && taken[w] == j;
                    assert(next[w] == j);
                }
            }
        }
        let ghost shared_so_far = *shared;
        if referenced[child] {
            *shared = true;
            assert(marked[child as int] && next.contains(child as int));
        }
        referenced.set(child, true);
        proof {
            if exists|j: int| 0 <= j < count && #[trigger] marked[j] && next.contains(j) {
                let j = choose|j: int| 0 <= j < count && #[trigger] marked[j] && next.contains(j);
                assert(j == child || taken.contains(j));
            }
            if exists|j: int| 0 <= j < count && #[trigger] marked[j] && taken.contains(j) {
                let j = choose|j: int| 0 <= j < count && #[trigger] marked[j] && taken.contains(j);
                assert(next.contains(j));
            }
        }
        previous = child;
        k = k + 1;
    }
    proof {
        assert(all.take(children.len() as int) =~= all);
    }
    None
}

proof fn lemma_child_error_prefix(children: Seq<int>, k: int, parent: int, count: int)
    requires
        0 <= k <= children.len(),
        child_error(children.take(k), parent, count) is Some,
    ensures
        child_error(children, parent, count) == child_error(children.take(k), parent, count),
    decreases children.len(),
{
    if k == children.len() {
        assert(children.take(k) =~= children);
    } else {
        assert(children.drop_last().take(k) =~= children.take(k));
        lemma_child_error_prefix(children.drop_last(), k, parent, count);
    }
}

/// Whether all positions name later nodes of the table, in order.
pub open spec fn table_orderly(t: Seq<EntryModel>) -> bool {
    forall|p: int|
        0 <= p < t.len() ==> orderly((#[trigger] t[p]).below(), p, t.len() as int)
}

/// Checks every node of a table on its own and against those before it, and
/// finds which nodes are children.
fn check_entries(
    nodes: &Vec<PersistedLayoutNode>,
    referenced: &mut Vec<bool>,
    shared: &mut bool,
) -> (result: Option<PersistedLayoutError>)
    requires
        old(referenced).len() == nodes.len(),
        forall|j: int| 0 <= j < nodes.len() ==> !(#[trigger] old(referenced)[j]),
        !*old(shared),
    ensures
        result == first_entry_error(table(nodes@), nodes.len() as int),
        final(referenced).len() == nodes.len(),
        result is None ==> table_orderly(table(nodes@)),
        result is None ==> forall|j: int|
            0 <= j < nodes.len() ==> #[trigger] final(referenced)[j] == referred_before(
                table(nodes@),
                nodes.len() as int,
                j,
            ),
        result is None ==> *final(shared) == shared_before(table(nodes@), nodes.len() as int),
{
    let ghost t = table(nodes@);
    let mut seen_nodes: Vec<String> = Vec::new();
    let mut seen_panes: Vec<String> = Vec::new();
    let mut i: usize = 0;
    while i < nodes.len()
        invariant
            i <= nodes.len(),
            t == table(nodes@),
            referenced.len() == nodes.len(),
            first_entry_error(t, i as int) is None,
            forall|id: Seq<char>|
                #[trigger] text::texts(seen_nodes@).contains(id) <==> id_before(t, i as int, id),
            forall|pane: Seq<char>|
                #[trigger] text::texts(seen_panes@).contains(pane) <==> pane_before(
                    t,
                    i as int,
                    pane,
                ),
            forall|p: int|
                0 <= p < i ==> orderly((#[trigger] t[p]).below(), p, t.len() as int),
            forall|j: int|
                0 <= j < nodes.len() ==> #[trigger] referenced@[j] == referred_before(
                    t,
                    i as int,
                    j,
                ),
            *shared == shared_before(t, i as int),
        decreases nodes.len() - i,
    {
        let ghost nodes_before = seen_nodes@;
        let ghost panes_before = seen_panes@;
        let ghost marks = referenced@;
        proof {
            assert(t[i as int] == nodes@[i as int].model());
        }
        match &nodes[i] {
            PersistedLayoutNode::Pane { id, pane_id } => {
                let error: Option<PersistedLayoutError> = if id.as_str().is_empty() {
                    Some(PersistedLayoutError::EmptyPaneNodeId)
                } else if contains_text(&seen_nodes, id.as_str()) {
                    Some(PersistedLayoutError::DuplicateNodeId)
                } else if pane_id.as_str().is_empty() {
                    Some(PersistedLayoutError::EmptyPaneId)
                } else if contains_text(&seen_panes, pane_id.as_str()) {
                    Some(PersistedLayoutError::DuplicatePaneId)
                } else {
                    None
                };
                assert(error == entry_error(t, i as int));
                if error.is_some() {
                    proof {
                        lemma_first_entry_error(t, nodes.len() as int, i as int);
                    }
                    return error;
                }
                seen_nodes.push(id.clone());
                seen_panes.push(pane_id.clone());
                proof {
                    lemma_seen_grows(nodes_before, *id, t, i as int);
                    lemma_seen_panes_grow(panes_before, *pane_id, t, i as int);
                    lemma_marks_kept(t, i as int);
                }
            },
            PersistedLayoutNode::Split { id, direction, children, ratios } => {
                let error: Option<PersistedLayoutError> = if id.as_str().is_empty() {
                    Some(PersistedLayoutError::EmptySplitNodeId)
                } else if contains_text(&seen_nodes, id.as_str()) {
                    Some(PersistedLayoutError::DuplicateNodeId)
                } else if children.len() < 2 {
                    Some(PersistedLayoutError::TooFewChildren)
                } else if children.len() != ratios.len() {
                    Some(PersistedLayoutError::MismatchedRatios)
                } else {
                    None
                };
                if error.is_some() {
                    proof {
                        assert(error == entry_error(t, i as int));
                        lemma_first_entry_error(t, nodes.len() as int, i as int);
                    }
                    return error;
                }
                let ghost shared_so_far = *shared;
                let error: Option<PersistedLayoutError> = check_children(
                    children,
                    i,
                    referenced,
                    shared,
                );
                if error.is_some() {
                    proof {
                        assert(error == entry_error(t, i as int));
                        lemma_first_entry_error(t, nodes.len() as int, i as int);
                    }
                    return error;
                }
                let error: Option<PersistedLayoutError> = if !are_shares(ratios) {
                    Some(PersistedLayoutError::InvalidRatio)
                } else if !total_ratio(ratios).is_share() {
                    Some(PersistedLayoutError::InvalidRatioSum)
                } else {
                    None
                };
                assert(error == entry_error(t, i as int));
                if error.is_some() {
                    proof {
                        lemma_first_entry_error(t, nodes.len() as int, i as int);
                    }
                    return error;
                }
                seen_nodes.push(id.clone());
                proof {
                    lemma_seen_grows(nodes_before, *id, t, i as int);
                    lemma_pane_before_kept(t, i as int);
                    lemma_child_error(t[i as int].below(), i as int, t.len() as int);
                    lemma_marks_grow(t, i as int, marks, referenced@, shared_so_far, *shared);
                }
            },
        }
        i = i + 1;
    }
    None
}

proof fn lemma_seen_grows(seen: Seq<String>, id: String, t: Seq<EntryModel>, i: int)
    requires
        0 <= i < t.len(),
        t[i].node_id() == id@,
        forall|x: Seq<char>| #[trigger] text::texts(seen).contains(x) <==> id_before(t, i, x),
    ensures
        forall|x: Seq<char>| #[trigger]
            text::texts(seen.push(id)).contains(x) <==> id_before(t, i + 1, x),
{
    text::lemma_texts_push(seen, id);
    let all = text::texts(seen);
    assert forall|x: Seq<char>| #[trigger] text::texts(seen.push(id)).contains(x) <==> id_before(
        t,
        i + 1,
        x,
    ) by {
        lemma_contains_push(all, id@, x);
        if id_before(t, i, x) {
            let j = choose|j: int| 0 <= j < i && (#[trigger] t[j]).node_id() == x;
            assert(t[j].node_id() == x);
        }
        if id_before(t, i + 1, x) {
            let j = choose|j: int| 0 <= j < i + 1 && (#[trigger] t[j]).node_id() == x;
            if j < i {
                assert(id_before(t, i, x));
            }
        }
        assert(all.contains(x) <==> id_before(t, i, x));
    }
}

proof fn lemma_contains_push(list: Seq<Seq<char>>, text: Seq<char>, x: Seq<char>)
    ensures
        list.push(text).contains(x) <==> list.contains(x) || x == text,
{
    assert(list.push(text) =~= list + seq![text]);
    layout_model::lemma_contains_concat(list, seq![text], x);
    assert(seq![text][0] == text);
}

proof fn lemma_seen_panes_grow(seen: Seq<String>, pane: String, t: Seq<EntryModel>, i: int)
    requires
        0 <= i < t.len(),
        t[i] is Pane,
        t[i]->pane_id == pane@,
        forall|x: Seq<char>| #[trigger] text::texts(seen).contains(x) <==> pane_before(t, i, x),
    ensures
        forall|x: Seq<char>| #[trigger]
            text::texts(seen.push(pane)).contains(x) <==> pane_before(t, i + 1, x),
{
    text::lemma_texts_push(seen, pane);
    let all = text::texts(seen);
    assert forall|x: Seq<char>| #[trigger]
        text::texts(seen.push(pane)).contains(x) <==> pane_before(t, i + 1, x) by {
        lemma_contains_push(all, pane@, x);
        if pane_before(t, i, x) {
            let j = choose|j: int| 0 <= j < i && (#[trigger] t[j]) is Pane && t[j]->pane_id == x;
            assert(t[j] is Pane && t[j]->pane_id == x);
        }
        if pane_before(t, i + 1, x) {
            let j = choose|j: int| 0 <= j < i + 1 && (#[trigger] t[j]) is Pane && t[j]->pane_id == x;
            if j < i {
                assert(pane_before(t, i, x));
            }
        }
        assert(all.contains(x) <==> pane_before(t, i, x));
    }
}

proof fn lemma_pane_before_kept(t: Seq<EntryModel>, i: int)
    requires
        0 <= i < t.len(),
        t[i] is Split,
    ensures
        forall|x: Seq<char>| #[trigger] pane_before(t, i + 1, x) == pane_before(t, i, x),
{
    assert forall|x: Seq<char>| #[trigger] pane_before(t, i + 1, x) == pane_before(t, i, x) by {
        if pane_before(t, i + 1, x) {
            let j = choose|j: int| 0 <= j < i + 1 && (#[trigger] t[j]) is Pane && t[j]->pane_id == x;
            assert(j < i);
        }
        if pane_before(t, i, x) {
            let j = choose|j: int| 0 <= j < i && (#[trigger] t[j]) is Pane && t[j]->pane_id == x;
            assert(t[j] is Pane);
        }
    }
}

/// A pane has no children, so it marks nothing.
proof fn lemma_marks_kept(t: Seq<EntryModel>, i: int)
    requires
        0 <= i < t.len(),
        t[i] is Pane,
    ensures
        forall|j: int| #[trigger] referred_before(t, i + 1, j) == referred_before(t, i, j),
        shared_before(t, i + 1) == shared_before(t, i),
        orderly(t[i].below(), i, t.len() as int),
{
    assert(t[i].below() =~= Seq::<int>::empty());
    assert forall|j: int| #[trigger] referred_before(t, i + 1, j) == referred_before(t, i, j) by {
        if referred_before(t, i + 1, j) {
            let p = choose|p: int| 0 <= p < i + 1 && #[trigger] refers(t, p, j);
            assert(p < i);
        }
        if referred_before(t, i, j) {
            let p = choose|p: int| 0 <= p < i && #[trigger] refers(t, p, j);
            assert(refers(t, p, j));
        }
    }
    if shared_before(t, i + 1) {
        let (p, q, j) = choose|p: int, q: int, j: int|
            0 <= p < q < i + 1 && #[trigger] refers(t, p, j) && #[trigger] refers(t, q, j);
        assert(q < i);
    }
    if shared_before(t, i) {
        let (p, q, j) = choose|p: int, q: int, j: int|
            0 <= p < q < i && #[trigger] refers(t, p, j) && #[trigger] refers(t, q, j);
        assert(refers(t, p, j) && refers(t, q, j));
    }
}

proof fn lemma_marks_grow(
    t: Seq<EntryModel>,
    i: int,
    before: Seq<bool>,
    after: Seq<bool>,
    shared_so_far: bool,
    shared: bool,
)
    requires
        0 <= i < t.len(),
        before.len() == t.len(),
        after.len() == t.len(),
        orderly(t[i].below(), i, t.len() as int),
        forall|j: int| 0 <= j < t.len() ==> #[trigger] before[j] == referred_before(t, i, j),
        forall|j: int|
            0 <= j < t.len() ==> #[trigger] after[j] == (before[j] || t[i].below().contains(j)),
        shared_so_far == shared_before(t, i),
        shared == (shared_so_far || exists|j: int|
            0 <= j < t.len() && #[trigger] before[j] && t[i].below().contains(j)),
    ensures
        forall|j: int| 0 <= j < t.len() ==> #[trigger] after[j] == referred_before(t, i + 1, j),
        shared == shared_before(t, i + 1),
{
    assert forall|j: int| 0 <= j < t.len() implies #[trigger] after[j] == referred_before(
        t,
        i + 1,
        j,
    ) by {
        assert(before[j] == referred_before(t, i, j));
        if referred_before(t, i, j) {
            let p = choose|p: int| 0 <= p < i && #[trigger] refers(t, p, j);
            assert(refers(t, p, j));
        }
        if t[i].below().contains(j) {
            assert(refers(t, i, j));
        }
        if referred_before(t, i + 1, j) {
            let p = choose|p: int| 0 <= p < i + 1 && #[trigger] refers(t, p, j);
            if p < i {
                assert(referred_before(t, i, j));
            }
        }
    }
    if shared_before(t, i) {
        let (p, q, j) = choose|p: int, q: int, j: int|
            0 <= p < q < i && #[trigger] refers(t, p, j) && #[trigger] refers(t, q, j);
        assert(refers(t, p, j) && refers(t, q, j));
    }
    if exists|j: int| 0 <= j < t.len() && #[trigger] before[j] && t[i].below().contains(j) {
        let j = choose|j: int| 0 <= j < t.len() && #[trigger] before[j] && t[i].below().contains(j);
        assert(before[j] == referred_before(t, i, j));
        let p = choose|p: int| 0 <= p < i && #[trigger] refers(t, p, j);
        assert(refers(t, p, j) && refers(t, i, j));
    }
    if shared_before(t, i + 1) {
        let (p, q, j) = choose|p: int, q: int, j: int|
            0 <= p < q < i + 1 && #[trigger] refers(t, p, j) && #[trigger] refers(t, q, j);
        if q < i {
            assert(shared_before(t, i));
        } else {
            assert(t[i].below().contains(j));
            let w = choose|w: int| 0 <= w < t[i].below().len() && t[i].below()[w] == j;
            assert(0 <= j < t.len());
            assert(referred_before(t, i, j));
            assert(before[j]);
        }
    }
}

/// Walks down from a node, last children first, and finds what is nested too
/// deep.
fn check_depth(
    nodes: &Vec<PersistedLayoutNode>,
    index: usize,
    depth: usize,
    wire: usize,
    parent: Option<SplitDirection>,
    max_wire: usize,
) -> (result: Option<PersistedLayoutError>)
    requires
        index < nodes.len(),
        table_orderly(table(nodes@)),
        wire <= depth <= MAX_INTERNAL_LAYOUT_DEPTH + 1,
    ensures
        result == depth_error(
            table(nodes@),
            index as int,
            depth as int,
            wire as int,
            parent,
            max_wire as int,
        ),
    decreases nodes.len() - index,
{
    let ghost t = table(nodes@);
    if depth > MAX_INTERNAL_LAYOUT_DEPTH {
        return Some(PersistedLayoutError::InternalDepth);
    }
    if wire > max_wire {
        return Some(PersistedLayoutError::WireDepth);
    }
    match &nodes[index] {
        PersistedLayoutNode::Pane { id, pane_id } => None,
        PersistedLayoutNode::Split { id, direction, children, ratios } => {
            let same: bool = match parent {
                Some(above) => above == *direction,
                None => false,
            };
            let below: usize = if same {
                wire
            } else {
                wire + 1
            };
            let ghost all = positions(children@);
            proof {
                assert(t[index as int] == nodes@[index as int].model());
                assert(t[index as int].below() == all);
                assert(orderly(all, index as int, t.len() as int));
            }
            let mut k: usize = children.len();
            proof {
                assert(all.take(k as int) =~= all);
            }
            while k > 0
                invariant
                    k <= children.len(),
                    t == table(nodes@),
                    all == positions(children@),
                    index < nodes.len(),
                    table_orderly(t),
                    orderly(all, index as int, t.len() as int),
                    below <= depth + 1 <= MAX_INTERNAL_LAYOUT_DEPTH + 1,
                    depth_error(
                        t,
                        index as int,
                        depth as int,
                        wire as int,
                        parent,
                        max_wire as int,
                    ) == children_depth_error(
                        t,
                        index as int,
                        all.take(k as int),
                        depth + 1,
                        below as int,
                        *direction,
                        max_wire as int,
                    ),
                decreases k,
            {
                let child: usize = children[k - 1];
                proof {
                    assert(all[k - 1] == child);
                    assert(all.take(k as int).last() == child);
                    assert(all.take(k as int).drop_last() =~= all.take(k - 1));
                }
                let error = check_depth(
                    nodes,
                    child,
                    depth + 1,
                    below,
                    Some(*direction),
                    max_wire,
                );
                if error.is_some() {
                    return error;
                }
                k = k - 1;
            }
            None
        },
    }
}

/// The trees of all nodes of a table, last first.
fn rebuild(nodes: &Vec<PersistedLayoutNode>) -> (built: Vec<LayoutNode>)
    requires
        table_orderly(table(nodes@)),
    ensures
        built.len() == nodes.len(),
        forall|j: int|
            0 <= j < nodes.len() ==> (#[trigger] built@[nodes.len() - 1 - j]).model() == rebuilt(
                table(nodes@),
                j,
            ),
{
    let ghost t = table(nodes@);
    let mut built: Vec<LayoutNode> = Vec::new();
    let mut left: usize = nodes.len();
    while left > 0
        invariant
            left <= nodes.len(),
            t == table(nodes@),
            table_orderly(t),
            built.len() == nodes.len() - left,
            forall|j: int|
                left <= j < nodes.len() ==> (#[trigger] built@[nodes.len() - 1 - j]).model()
                    == rebuilt(t, j),
        decreases left,
    {
        let index: usize = left - 1;
        let ghost earlier = built@;
        let node: LayoutNode = match &nodes[index] {
            PersistedLayoutNode::Pane { id, pane_id } => LayoutNode::Pane {
                id: id.clone(),
                pane_id: pane_id.clone(),
            },
            PersistedLayoutNode::Split { id, direction, children, ratios } => {
                let ghost all = positions(children@);
                proof {
                    assert(t[index as int] == nodes@[index as int].model());
                    assert(t[index as int].below() == all);
                    assert(orderly(all, index as int, t.len() as int));
                }
                let mut below: Vec<LayoutNode> = Vec::new();
                let mut k: usize = 0;
                while k < children.len()
                    invariant
                        k <= children.len(),
                        index < nodes.len(),
                        t == table(nodes@),
                        all == positions(children@),
                        orderly(all, index as int, t.len() as int),
                        built.len() == nodes.len() - 1 - index,
                        forall|j: int|
                            index < j < nodes.len() ==> (#[trigger] built@[nodes.len() - 1
                                - j]).model() == rebuilt(t, j),
                        below.len() == k,
                        forall|l: int|
                            0 <= l < k ==> (#[trigger] below@[l]).model() == rebuilt(t, all[l]),
                    decreases children.len() - k,
                {
                    let child: usize = children[k];
                    proof {
                        assert(all[k as int] == child);
                        assert(built@[nodes.len() - 1 - child].model() == rebuilt(t, child as int));
                    }
                    below.push(built[nodes.len() - 1 - child].clone());
                    k = k + 1;
                }
                let node = LayoutNode::Split {
                    id: id.clone(),
                    direction: *direction,
                    children: below,
                    ratios: copy_ratios(ratios),
                };
                proof {
                    layout::lemma_split_model(node);
                    assert(node.model()->children =~= rebuilt(t, index as int)->children);
                }
                node
            },
        };
        built.push(node);
        proof {
            assert forall|j: int| index <= j < nodes.len() implies (#[trigger] built@[nodes.len() - 1
                - j]).model() == rebuilt(t, j) by {
                if j > index {
                    assert(built@[nodes.len() - 1 - j] == earlier[nodes.len() - 1 - j]);
                } else {
                    assert(built@[nodes.len() - 1 - j] == node);
                }
            }
        }
        left = index;
    }
    built
}

impl LayoutTree {
    /// The saved form of the tree.
    pub fn to_persisted(&self) -> (saved: PersistedLayoutTree)
        ensures
            saved@ == flat(self@, 0),
    {
        let mut nodes: Vec<PersistedLayoutNode> = Vec::new();
        let _ = append_persisted(&self.root, &mut nodes);
        proof {
            assert(table(Seq::<PersistedLayoutNode>::empty()) + flat(self@, 0) =~= flat(self@, 0));
        }
        PersistedLayoutTree { nodes }
    }

    /// The tree of a saved form, once every part of it has been checked.
    pub fn from_persisted(persisted: &PersistedLayoutTree, max_wire: usize) -> (result: Result<
        LayoutTree,
        PersistedLayoutError,
    >)
        ensures
            match result {
                Ok(tree) => loaded(persisted@, max_wire as int) == Ok::<
                    NodeModel,
                    PersistedLayoutError,
                >(tree@),
                Err(e) => loaded(persisted@, max_wire as int) == Err::<
                    NodeModel,
                    PersistedLayoutError,
                >(e),
            },
    {
        let nodes = &persisted.nodes;
        let ghost t = table(nodes@);
        if nodes.len() == 0 {
            return Err(PersistedLayoutError::NoNodes);
        }
        if nodes.len() > MAX_PERSISTED_LAYOUT_NODES {
            return Err(PersistedLayoutError::TooManyNodes);
        }
        proof {
            assert(t[0] == nodes@[0].model());
        }
        if nodes.len() == 1 {
            if let PersistedLayoutNode::Pane { id, pane_id } = &nodes[0] {
                if id.as_str().is_empty() && pane_id.as_str().is_empty() {
                    return Ok(LayoutTree::empty());
                }
            }
        }
        let mut referenced: Vec<bool> = Vec::new();
        while referenced.len() < nodes.len()
            invariant
                referenced.len() <= nodes.len(),
                forall|j: int| 0 <= j < referenced.len() ==> !(#[trigger] referenced@[j]),
            decreases nodes.len() - referenced.len(),
        {
            referenced.push(false);
        }
        let mut shared: bool = false;
        match check_entries(nodes, &mut referenced, &mut shared) {
            Some(e) => {
                return Err(e);
            },
            None => {},
        }
        if !marks_single_tree(&referenced) {
            proof {
                if referenced@[0] {
                    assert(referred_before(t, t.len() as int, 0));
                } else {
                    let j = choose|j: int| 1 <= j < referenced.len() && !(#[trigger] referenced@[j]);
                    assert(!referred_before(t, t.len() as int, j));
                }
            }
            return Err(PersistedLayoutError::NotASingleTree);
        }
        proof {
            assert(referenced@[0] == referred_before(t, t.len() as int, 0));
            assert forall|j: int| 1 <= j < t.len() implies #[trigger] referred_before(
                t,
                t.len() as int,
                j,
            ) by {
                assert(referenced@[j]);
            }
        }
        match check_depth(nodes, 0, 0, 0, None, max_wire) {
            Some(e) => {
                return Err(e);
            },
            None => {},
        }
        if shared {
            return Err(PersistedLayoutError::UnreachableNodes);
        }
        let mut built = rebuild(nodes);
        proof {
            assert(built@[nodes.len() - 1 - 0].model() == rebuilt(t, 0));
        }
        match built.pop() {
            Some(root) => Ok(LayoutTree { root }),
            None => Err(PersistedLayoutError::NoNodes),
        }
    }
}

/// Whether every node but the first is marked, and the first is not.
fn marks_single_tree(referenced: &Vec<bool>) -> (yes: bool)
    requires
        referenced.len() > 0,
    ensures
        yes == (!referenced@[0] && forall|j: int|
            1 <= j < referenced.len() ==> #[trigger] referenced@[j]),
{
    if referenced[0] {
        return false;
    }
    let mut j: usize = 1;
    while j < referenced.len()
        invariant
            1 <= j <= referenced.len(),
            forall|l: int| 1 <= l < j ==> #[trigger] referenced@[l],
        decreases referenced.len() - j,
    {
        if !referenced[j] {
            return false;
        }
        j = j + 1;
    }
    true
}

/// Of a tree that loads, every saved node but the first is the child of one that
/// is saved before it, and of no other; the first is nobody's.
pub proof fn law_loaded_nodes_have_one_parent(t: Seq<EntryModel>, max_wire: int, j: int)
    requires
        loaded(t, max_wire) is Ok,
        t.len() > 1,
        0 <= j < t.len(),
    ensures
        j == 0 ==> forall|p: int| 0 <= p < t.len() ==> !#[trigger] refers(t, p, j),
        j > 0 ==> exists|p: int| 0 <= p < t.len() && #[trigger] refers(t, p, j),
        forall|p: int, q: int|
            0 <= p < t.len() && 0 <= q < t.len() && #[trigger] refers(t, p, j) && #[trigger] refers(
                t,
                q,
                j,
            ) ==> p == q,
{
    if j > 0 {
        assert(referred_before(t, t.len() as int, j));
    }
    assert forall|p: int, q: int|
        0 <= p < t.len() && 0 <= q < t.len() && #[trigger] refers(t, p, j) && #[trigger] refers(
            t,
            q,
            j,
        ) implies p == q by {
        assert(!shared_before(t, t.len() as int));
    }
}

} // verus!
