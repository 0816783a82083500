//! What is said of a saved split tree that cannot be loaded.
use crate::layout::MAX_INTERNAL_LAYOUT_DEPTH;
use crate::layout_persist;
use crate::layout_persist::{
    EntryModel, PersistedLayoutError, PersistedLayoutNode, PersistedLayoutTree,
    MAX_PERSISTED_LAYOUT_NODES,
};
use crate::numbers;
use crate::numbers::decimal_text;
use crate::text::{joined, same_text};
use vstd::prelude::*;
use vstd::string::*;

verus! {

/// The identifier of the first node from `i` on that an earlier node has.
pub open spec fn repeated_id(t: Seq<EntryModel>, i: int) -> Seq<char>
    decreases t.len() - i,
{
    if i >= t.len() {
        Seq::empty()
    } else if layout_persist::id_before(t, i, t[i].node_id()) {
        t[i].node_id()
    } else {
        repeated_id(t, i + 1)
    }
}

/// The pane of the first node from `i` on that an earlier node shows.
pub open spec fn repeated_pane(t: Seq<EntryModel>, i: int) -> Seq<char>
    decreases t.len() - i,
{
    if i >= t.len() {
        Seq::empty()
    } else if t[i] is Pane && layout_persist::pane_before(t, i, t[i]->pane_id) {
        t[i]->pane_id
    } else {
        repeated_pane(t, i + 1)
    }
}

/// The first of the child positions from `k` on that lies outside the table.
pub open spec fn child_outside(children: Seq<int>, k: int, count: int) -> Option<int>
    decreases children.len() - k,
{
    if k >= children.len() {
        None
    } else if children[k] >= count {
        Some(children[k])
    } else {
        child_outside(children, k + 1, count)
    }
}

/// The first child position of the nodes from `i` on that lies outside the table.
pub open spec fn position_outside(t: Seq<EntryModel>, i: int) -> int
    decreases t.len() - i,
{
    if i >= t.len() {
        0
    } else {
        match child_outside(t[i].below(), 0, t.len() as int) {
            Some(child) => child,
            None => position_outside(t, i + 1),
        }
    }
}

/// What is said of a saved tree that cannot be loaded.
pub open spec fn error_text(
    error: PersistedLayoutError,
    t: Seq<EntryModel>,
    max_wire: nat,
) -> Seq<char> {
    match error {
        PersistedLayoutError::NoNodes => "persisted layout has no nodes"@,
        PersistedLayoutError::TooManyNodes => "persisted layout exceeds the maximum of "@
            + numbers::digits_of(MAX_PERSISTED_LAYOUT_NODES as nat) + " nodes"@,
        PersistedLayoutError::EmptyPaneNodeId => "persisted pane node id must not be empty"@,
        PersistedLayoutError::EmptySplitNodeId => "persisted split node id must not be empty"@,
        PersistedLayoutError::DuplicateNodeId => "duplicate persisted node id: "@ + repeated_id(
            t,
            0,
        ),
        PersistedLayoutError::EmptyPaneId => "persisted pane id must not be empty"@,
        PersistedLayoutError::DuplicatePaneId => "duplicate persisted pane id: "@ + repeated_pane(
            t,
            0,
        ),
        PersistedLayoutError::TooFewChildren => "persisted split needs at least two children"@,
        PersistedLayoutError::MismatchedRatios =>
            "persisted split has mismatched children and ratios"@,
        PersistedLayoutError::ChildrenNotIncreasing =>
            "persisted split children must be strictly increasing pre-order indices"@,
        PersistedLayoutError::ChildOutOfBounds => "persisted split child index out of bounds: "@
            + numbers::digits_of(position_outside(t, 0) as nat),
        PersistedLayoutError::InvalidRatio =>
            "persisted layout ratios must be finite and positive"@,
        PersistedLayoutError::InvalidRatioSum =>
            "persisted layout ratio sum must be finite and positive"@,
        PersistedLayoutError::NotASingleTree =>
            "persisted layout nodes must form a single tree rooted at node 0"@,
        PersistedLayoutError::InternalDepth => "layout depth exceeds internal maximum of "@
            + numbers::digits_of(MAX_INTERNAL_LAYOUT_DEPTH as nat),
        PersistedLayoutError::WireDepth => "layout wire depth exceeds maximum of "@
            + numbers::digits_of(max_wire),
        PersistedLayoutError::UnreachableNodes => "persisted layout contains unreachable nodes"@,
    }
}

fn node_id(node: &PersistedLayoutNode) -> (id: &str)
    ensures
        id@ == node.model().node_id(),
{
    match node {
        PersistedLayoutNode::Pane { id, .. } => id.as_str(),
        PersistedLayoutNode::Split { id, .. } => id.as_str(),
    }
}

fn find_repeated_id(nodes: &Vec<PersistedLayoutNode>) -> (id: String)
    ensures
        id@ == repeated_id(layout_persist::table(nodes@), 0),
{
    let ghost t = layout_persist::table(nodes@);
    let mut i: usize = 0;
    while i < nodes.len()
        invariant
            i <= nodes.len(),
            t == layout_persist::table(nodes@),
            repeated_id(t, 0) == repeated_id(t, i as int),
        decreases nodes.len() - i,
    {
        let id: &str = node_id(&nodes[i]);
        assert(t[i as int] == nodes@[i as int].model());
        let mut j: usize = 0;
        while j < i
            invariant
                j <= i < nodes.len(),
                t == layout_persist::table(nodes@),
                id@ == t[i as int].node_id(),
                repeated_id(t, 0) == repeated_id(t, i as int),
                forall|p: int| 0 <= p < j ==> (#[trigger] t[p]).node_id() != id@,
            decreases i - j,
        {
            assert(t[j as int] == nodes@[j as int].model());
            if same_text(node_id(&nodes[j]), id) {
                assert(layout_persist::id_before(t, i as int, id@));
                return id.to_owned();
            }
            j = j + 1;
        }
        i = i + 1;
    }
    let none: String = String::new();
    assert(none@ =~= Seq::<char>::empty());
    none
}

fn find_repeated_pane(nodes: &Vec<PersistedLayoutNode>) -> (pane: String)
    ensures
        pane@ == repeated_pane(layout_persist::table(nodes@), 0),
{
    let ghost t = layout_persist::table(nodes@);
    let mut i: usize = 0;
    while i < nodes.len()
        invariant
            i <= nodes.len(),
            t == layout_persist::table(nodes@),
            repeated_pane(t, 0) == repeated_pane(t, i as int),
        decreases nodes.len() - i,
    {
        assert(t[i as int] == nodes@[i as int].model());
        match &nodes[i] {
            PersistedLayoutNode::Pane { pane_id, .. } => {
                let mut j: usize = 0;
                while j < i
                    invariant
                        j <= i < nodes.len(),
                        t == layout_persist::table(nodes@),
                        t[i as int] is Pane,
                        pane_id@ == t[i as int]->pane_id,
                        repeated_pane(t, 0) == repeated_pane(t, i as int),
                        forall|p: int|
                            0 <= p < j ==> !((#[trigger] t[p]) is Pane && t[p]->pane_id
                                == pane_id@),
                    decreases i - j,
                {
                    assert(t[j as int] == nodes@[j as int].model());
                    match &nodes[j] {
                        PersistedLayoutNode::Pane { pane_id: earlier, .. } => {
                            if same_text(earlier.as_str(), pane_id.as_str()) {
                                assert(layout_persist::pane_before(t, i as int, pane_id@));
                                return pane_id.clone();
                            }
                        },
                        PersistedLayoutNode::Split { .. } => {},
                    }
                    j = j + 1;
                }
            },
            PersistedLayoutNode::Split { .. } => {},
        }
        i = i + 1;
    }
    let none: String = String::new();
    assert(none@ =~= Seq::<char>::empty());
    none
}

fn find_position_outside(nodes: &Vec<PersistedLayoutNode>) -> (position: usize)
    ensures
        position == position_outside(layout_persist::table(nodes@), 0),
{
    let ghost t = layout_persist::table(nodes@);
    let mut i: usize = 0;
    while i < nodes.len()
        invariant
            i <= nodes.len(),
            t == layout_persist::table(nodes@),
            position_outside(t, 0) == position_outside(t, i as int),
        decreases nodes.len() - i,
    {
        assert(t[i as int] == nodes@[i as int].model());
        match &nodes[i] {
            PersistedLayoutNode::Pane { .. } => {},
            PersistedLayoutNode::Split { children, .. } => {
                let mut k: usize = 0;
                while k < children.len()
                    invariant
                        k <= children.len(),
                        i < nodes.len(),
                        t == layout_persist::table(nodes@),
                        t[i as int].below() == layout_persist::positions(children@),
                        position_outside(t, 0) == position_outside(t, i as int),
                        child_outside(t[i as int].below(), 0, t.len() as int) == child_outside(
                            t[i as int].below(),
                            k as int,
                            t.len() as int,
                        ),
                    decreases children.len() - k,
                {
                    assert(t[i as int].below()[k as int] == children@[k as int] as int);
                    if children[k] >= nodes.len() {
                        return children[k];
                    }
                    k = k + 1;
                }
            },
        }
        i = i + 1;
    }
    0
}

/// Says why a saved tree cannot be loaded.
pub fn error_message(
    error: PersistedLayoutError,
    persisted: &PersistedLayoutTree,
    max_wire: usize,
) -> (message: String)
    ensures
        message@ == error_text(error, persisted@, max_wire as nat),
{
    let fixed: &str = match error {
        PersistedLayoutError::TooManyNodes => {
            let head: String = joined(
                "persisted layout exceeds the maximum of ",
                decimal_text(MAX_PERSISTED_LAYOUT_NODES as u64).as_str(),
            );
            return joined(head.as_str(), " nodes");
        },
        PersistedLayoutError::DuplicateNodeId => {
            return joined(
                "duplicate persisted node id: ",
                find_repeated_id(&persisted.nodes).as_str(),
            );
        },
        PersistedLayoutError::DuplicatePaneId => {
            return joined(
                "duplicate persisted pane id: ",
                find_repeated_pane(&persisted.nodes).as_str(),
            );
        },
        PersistedLayoutError::ChildOutOfBounds => {
            return joined(
                "persisted split child index out of bounds: ",
                decimal_text(find_position_outside(&persisted.nodes) as u64).as_str(),
            );
        },
        PersistedLayoutError::InternalDepth => {
            return joined(
                "layout depth exceeds internal maximum of ",
                decimal_text(MAX_INTERNAL_LAYOUT_DEPTH as u64).as_str(),
            );
        },
        PersistedLayoutError::WireDepth => {
            return joined(
                "layout wire depth exceeds maximum of ",
                decimal_text(max_wire as u64).as_str(),
            );
        },
        PersistedLayoutError::NoNodes => "persisted layout has no nodes",
        PersistedLayoutError::EmptyPaneNodeId => "persisted pane node id must not be empty",
        PersistedLayoutError::EmptySplitNodeId => "persisted split node id must not be empty",
        PersistedLayoutError::EmptyPaneId => "persisted pane id must not be empty",
        PersistedLayoutError::TooFewChildren => "persisted split needs at least two children",
        PersistedLayoutError::MismatchedRatios =>
            "persisted split has mismatched children and ratios",
        PersistedLayoutError::ChildrenNotIncreasing =>
            "persisted split children must be strictly increasing pre-order indices",
        PersistedLayoutError::InvalidRatio => "persisted layout ratios must be finite and positive",
        PersistedLayoutError::InvalidRatioSum =>
            "persisted layout ratio sum must be finite and positive",
        PersistedLayoutError::NotASingleTree =>
            "persisted layout nodes must form a single tree rooted at node 0",
        PersistedLayoutError::UnreachableNodes => "persisted layout contains unreachable nodes",
    };
    fixed.to_owned()
}

/// What is named as repeated is the identifier of the first node that has that
/// of an earlier one.
pub proof fn law_first_repeated_node_is_named(t: Seq<EntryModel>, i: int, k: int)
    requires
        0 <= i <= k < t.len(),
        exists|j: int| 0 <= j < k && (#[trigger] t[j]).node_id() == t[k].node_id(),
        forall|a: int, b: int|
            0 <= a < b < k ==> (#[trigger] t[a]).node_id() != (#[trigger] t[b]).node_id(),
    ensures
        repeated_id(t, i) == t[k].node_id(),
    decreases k - i,
{
    if i < k {
        law_first_repeated_node_is_named(t, i + 1, k);
    }
}

/// What is named as repeated is the pane of the first node that shows one that
/// an earlier node shows.
pub proof fn law_first_repeated_pane_is_named(t: Seq<EntryModel>, i: int, k: int)
    requires
        0 <= i <= k < t.len(),
        t[k] is Pane,
        exists|j: int| 0 <= j < k && (#[trigger] t[j]) is Pane && t[j]->pane_id == t[k]->pane_id,
        forall|a: int, b: int|
            0 <= a < b < k && (#[trigger] t[a]) is Pane && (#[trigger] t[b]) is Pane
                ==> t[a]->pane_id != t[b]->pane_id,
    ensures
        repeated_pane(t, i) == t[k]->pane_id,
    decreases k - i,
{
    if i < k {
        law_first_repeated_pane_is_named(t, i + 1, k);
    }
}

proof fn lemma_child_outside(children: Seq<int>, i: int, k: int, count: int)
    requires
        0 <= i <= k <= children.len(),
        forall|j: int| 0 <= j < k ==> #[trigger] children[j] < count,
        k < children.len() ==> children[k] >= count,
    ensures
        k < children.len() ==> child_outside(children, i, count) == Some(children[k]),
        k == children.len() ==> child_outside(children, i, count) is None,
    decreases k - i,
{
    if i < k {
        lemma_child_outside(children, i + 1, k, count);
    }
}

/// What is named as outside is the first position of the first node with one
/// that is not in the table.
pub proof fn law_first_position_outside_is_named(t: Seq<EntryModel>, i: int, k: int, c: int)
    requires
        0 <= i <= k < t.len(),
        0 <= c < t[k].below().len(),
        t[k].below()[c] >= t.len(),
        forall|b: int| 0 <= b < c ==> #[trigger] t[k].below()[b] < t.len(),
        forall|a: int, b: int|
            0 <= a < k && 0 <= b < t[a].below().len() ==> #[trigger] t[a].below()[b] < t.len(),
    ensures
        position_outside(t, i) == t[k].below()[c],
    decreases k - i,
{
    if i < k {
        assert forall|b: int| 0 <= b < t[i].below().len() implies #[trigger] t[i].below()[b]
            < t.len() by {}
        lemma_child_outside(t[i].below(), 0, t[i].below().len() as int, t.len() as int);
        law_first_position_outside_is_named(t, i + 1, k, c);
    } else {
        lemma_child_outside(t[k].below(), 0, c, t.len() as int);
    }
}

/// What is said of a limit names the limit.
pub proof fn law_messages_name_the_limits(t: Seq<EntryModel>, max_wire: nat)
    ensures
        error_text(PersistedLayoutError::TooManyNodes, t, max_wire)
            == "persisted layout exceeds the maximum of "@ + numbers::digits_of(4096) + " nodes"@,
        error_text(PersistedLayoutError::InternalDepth, t, max_wire)
            == "layout depth exceeds internal maximum of "@ + numbers::digits_of(128),
        error_text(PersistedLayoutError::WireDepth, t, max_wire)
            == "layout wire depth exceeds maximum of "@ + numbers::digits_of(max_wire),
{
}

} // verus!
