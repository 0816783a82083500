//! The split tree of a session: which panes share the window, in which
//! direction each split runs, and how its space is shared out.
use crate::layout_model;
use crate::layout_model::{NodeModel, Seen};
use crate::ratio::{resize_shares, total_ratio, Ratio, HALF_BITS};
use crate::text;
use crate::text::{contains_text, joined, same_text};
use vstd::prelude::*;

verus! {

/// The direction of a split.
#[derive(Clone, Copy, Debug, PartialEq, Eq, Structural)]
pub enum SplitDirection {
    /// Children stand side by side.
    LeftRight,
    /// Children stand above one another.
    TopBottom,
}

/// A node of the tree.
#[derive(Debug)]
pub enum LayoutNode {
    Pane { id: String, pane_id: String },
    Split { id: String, direction: SplitDirection, children: Vec<LayoutNode>, ratios: Vec<Ratio> },
}

/// The split tree of a session.
#[derive(Debug)]
pub struct LayoutTree {
    pub root: LayoutNode,
}

/// How deep a tree may nest.
pub const MAX_INTERNAL_LAYOUT_DEPTH: usize = 128;

/// What a layout operation refuses.
#[derive(Clone, Copy, Debug, PartialEq, Eq, Structural)]
pub enum LayoutError {
    EmptyNewPaneId,
    PaneAlreadyExists,
    PaneNotFound,
    NodeNotFound,
    SoleRootPane,
    NonFiniteDelta,
    NoMatchingSplit,
    NoResizeNeighbor,
    InvalidResizePair,
    InternalDepth,
    WireDepth,
    EmptyNodeId,
    EmptyPaneId,
    DuplicateNodeId,
    DuplicatePaneId,
    TooFewChildren,
    MismatchedRatios,
    InvalidRatio,
    InvalidRatioSum,
}

impl LayoutNode {
    pub open spec fn model(self) -> NodeModel
        decreases self,
    {
        match self {
            LayoutNode::Pane { id, pane_id } => NodeModel::Pane { id: id@, pane_id: pane_id@ },
            LayoutNode::Split { id, direction, children, ratios } => NodeModel::Split {
                id: id@,
                direction,
                children: Seq::new(
                    children@.len(),
                    |i: int|
                        if 0 <= i < children@.len() {
                            children@[i].model()
                        } else {
                            NodeModel::Pane { id: Seq::empty(), pane_id: Seq::empty() }
                        },
                ),
                ratios: ratios@,
            },
        }
    }
}

/// The mathematical values of a list of nodes.
pub open spec fn models(nodes: Seq<LayoutNode>) -> Seq<NodeModel> {
    nodes.map_values(|n: LayoutNode| n.model())
}

pub proof fn lemma_split_model(node: LayoutNode)
    ensures
        node matches LayoutNode::Split { id, direction, children, ratios } ==> node.model()
            == (NodeModel::Split {
            id: id@,
            direction,
            children: models(children@),
            ratios: ratios@,
        }),
{
    if let LayoutNode::Split { id, direction, children, ratios } = node {
        assert(node.model()->children =~= models(children@));
    }
}

impl Clone for LayoutNode {
    fn clone(&self) -> (copy: Self)
        ensures
            copy.model() == self.model(),
        decreases self,
    {
        match self {
            LayoutNode::Pane { id, pane_id } => LayoutNode::Pane {
                id: id.clone(),
                pane_id: pane_id.clone(),
            },
            LayoutNode::Split { id, direction, children, ratios } => {
                let mut copies: Vec<LayoutNode> = Vec::new();
                let mut i: usize = 0;
                while i < children.len()
                    invariant
                        i <= children.len(),
                        models(copies@) == models(children@).take(i as int),
                        self matches LayoutNode::Split { children: held, .. } && held == *children,
                    decreases children.len() - i,
                {
                    let ghost before = copies@;
                    let copy = children[i].clone();
                    copies.push(copy);
                    proof {
                        assert(copy.model() == children@[i as int].model());
                        assert(models(copies@) =~= models(before).push(copy.model()));
                        assert(models(children@).take(i + 1) =~= models(children@).take(
                            i as int,
                        ).push(children@[i as int].model()));
                    }
                    i = i + 1;
                }
                let copy = LayoutNode::Split {
                    id: id.clone(),
                    direction: *direction,
                    children: copies,
                    ratios: copy_ratios(ratios),
                };
                proof {
                    lemma_split_model(*self);
                    lemma_split_model(copy);
                    assert(models(children@).take(children.len() as int) =~= models(children@));
                }
                copy
            },
        }
    }
}

/// Walks a node, parents first, and adds the identifiers that it meets.
fn visit_node(
    node: &LayoutNode,
    depth: usize,
    wire: usize,
    parent: Option<SplitDirection>,
    nodes: &mut Vec<String>,
    panes: &mut Vec<String>,
    max_wire: usize,
) -> (result: Result<(), LayoutError>)
    requires
        wire <= depth <= MAX_INTERNAL_LAYOUT_DEPTH + 1,
    ensures
        match result {
            Ok(_) => layout_model::visit(
                node.model(),
                depth as int,
                wire as int,
                parent,
                (Seen { nodes: text::texts(old(nodes)@), panes: text::texts(old(panes)@) }),
                max_wire as int,
            ) == Ok::<Seen, LayoutError>(
                (Seen { nodes: text::texts(final(nodes)@), panes: text::texts(final(panes)@) }),
            ),
            Err(e) => layout_model::visit(
                node.model(),
                depth as int,
                wire as int,
                parent,
                (Seen { nodes: text::texts(old(nodes)@), panes: text::texts(old(panes)@) }),
                max_wire as int,
            ) == Err::<Seen, LayoutError>(e),
        },
    decreases node,
{
    if depth > MAX_INTERNAL_LAYOUT_DEPTH {
        return Err(LayoutError::InternalDepth);
    }
    match node {
        LayoutNode::Pane { id, pane_id } => {
            if id.as_str().is_empty() {
                return Err(LayoutError::EmptyNodeId);
            }
            if pane_id.as_str().is_empty() {
                return Err(LayoutError::EmptyPaneId);
            }
            if contains_text(nodes, id.as_str()) {
                return Err(LayoutError::DuplicateNodeId);
            }
            if contains_text(panes, pane_id.as_str()) {
                return Err(LayoutError::DuplicatePaneId);
            }
            nodes.push(id.clone());
            panes.push(pane_id.clone());
            proof {
                text::lemma_texts_push(old(nodes)@, *id);
                text::lemma_texts_push(old(panes)@, *pane_id);
            }
            Ok(())
        },
        LayoutNode::Split { id, direction, children, ratios } => {
            proof {
                lemma_split_model(*node);
            }
            let same: bool = match parent {
                Some(above) => above == *direction,
                None => false,
            };
            let below: usize = if same {
                wire
            } else {
                wire + 1
            };
            if below > max_wire {
                return Err(LayoutError::WireDepth);
            }
            if id.as_str().is_empty() {
                return Err(LayoutError::EmptyNodeId);
            }
            if contains_text(nodes, id.as_str()) {
                return Err(LayoutError::DuplicateNodeId);
            }
            if children.len() < 2 {
                return Err(LayoutError::TooFewChildren);
            }
            if children.len() != ratios.len() {
                return Err(LayoutError::MismatchedRatios);
            }
            if !are_shares(ratios) {
                return Err(LayoutError::InvalidRatio);
            }
            if !total_ratio(ratios).is_share() {
                return Err(LayoutError::InvalidRatioSum);
            }
            nodes.push(id.clone());
            proof {
                text::lemma_texts_push(old(nodes)@, *id);
            }
            let ghost start = Seen { nodes: text::texts(nodes@), panes: text::texts(panes@) };
            let ghost forest = models(children@);
            let mut i: usize = 0;
            while i < children.len()
                invariant
                    i <= children.len(),
                    forest == models(children@),
                    below <= depth + 1 <= MAX_INTERNAL_LAYOUT_DEPTH + 1,
                    *node matches LayoutNode::Split { children: held, .. } && held == *children,
                    layout_model::visit_forest(
                        forest.take(i as int),
                        depth + 1,
                        below as int,
                        *direction,
                        start,
                        max_wire as int,
                    ) == Ok::<Seen, LayoutError>(
                        (Seen { nodes: text::texts(nodes@), panes: text::texts(panes@) }),
                    ),
                    layout_model::visit(
                        node.model(),
                        depth as int,
                        wire as int,
                        parent,
                        (Seen { nodes: text::texts(old(nodes)@), panes: text::texts(old(panes)@) }),
                        max_wire as int,
                    ) == layout_model::visit_forest(
                        forest,
                        depth + 1,
                        below as int,
                        *direction,
                        start,
                        max_wire as int,
                    ),
                decreases children.len() - i,
            {
                let outcome = visit_node(
                    &children[i],
                    depth + 1,
                    below,
                    Some(*direction),
                    nodes,
                    panes,
                    max_wire,
                );
                proof {
                    assert(forest.take(i + 1).drop_last() =~= forest.take(i as int));
                    assert(forest.take(i + 1).last() == children@[i as int].model());
                }
                match outcome {
                    Ok(_) => {},
                    Err(e) => {
                        proof {
                            layout_model::lemma_visit_prefix_error(
                                forest,
                                i + 1,
                                depth + 1,
                                below as int,
                                *direction,
                                start,
                                max_wire as int,
                            );
                        }
                        return Err(e);
                    },
                }
                i = i + 1;
            }
            proof {
                assert(forest.take(children.len() as int) =~= forest);
            }
            Ok(())
        },
    }
}

/// Whether every ratio is finite and above zero.
pub fn are_shares(ratios: &Vec<Ratio>) -> (yes: bool)
    ensures
        yes == layout_model::all_shares(ratios@),
{
    let mut i: usize = 0;
    while i < ratios.len()
        invariant
            i <= ratios.len(),
            forall|j: int| 0 <= j < i ==> (#[trigger] ratios@[j]).share(),
        decreases ratios.len() - i,
    {
        if !ratios[i].is_share() {
            return false;
        }
        i = i + 1;
    }
    true
}

/// Checks the structure of a whole tree.
pub fn validate_structure(root: &LayoutNode, max_wire: usize) -> (result: Result<(), LayoutError>)
    ensures
        result == layout_model::structure(root.model(), max_wire as int),
{
    let mut nodes: Vec<String> = Vec::new();
    let mut panes: Vec<String> = Vec::new();
    proof {
        assert(text::texts(nodes@) =~= Seq::<Seq<char>>::empty());
        assert(text::texts(panes@) =~= Seq::<Seq<char>>::empty());
    }
    match visit_node(root, 0, 0, None, &mut nodes, &mut panes, max_wire) {
        Ok(_) => Ok(()),
        Err(e) => Err(e),
    }
}

/// A copy of a list of ratios.
pub fn copy_ratios(ratios: &Vec<Ratio>) -> (copy: Vec<Ratio>)
    ensures
        copy@ == ratios@,
{
    let mut copy: Vec<Ratio> = Vec::new();
    let mut i: usize = 0;
    while i < ratios.len()
        invariant
            i <= ratios.len(),
            copy@ == ratios@.take(i as int),
        decreases ratios.len() - i,
    {
        copy.push(ratios[i]);
        i = i + 1;
        assert(copy@ =~= ratios@.take(i as int));
    }
    assert(ratios@.take(ratios.len() as int) =~= ratios@);
    copy
}

/// Whether a pane is below a node.
fn contains_pane(node: &LayoutNode, pane_id: &str) -> (found: bool)
    ensures
        found == layout_model::holds_pane(node.model(), pane_id@),
    decreases node,
{
    match node {
        LayoutNode::Pane { id, pane_id: own } => {
            let found = same_text(own.as_str(), pane_id);
            proof {
                assert(seq![own@][0] == own@);
                assert(seq![own@].contains(own@));
            }
            found
        },
        LayoutNode::Split { id, direction, children, ratios } => {
            proof {
                lemma_split_model(*node);
                layout_model::lemma_forest_holds_pane(models(children@), pane_id@);
                layout_model::lemma_first_holding_pane(models(children@), pane_id@, 0);
            }
            position_of_pane(children, pane_id) < children.len()
        },
    }
}

/// The first of the nodes that a pane is below; their number where it is
/// below none.
fn position_of_pane(children: &Vec<LayoutNode>, pane_id: &str) -> (index: usize)
    ensures
        index == layout_model::first_holding_pane(models(children@), pane_id@, 0),
    decreases children,
{
    let mut i: usize = 0;
    while i < children.len()
        invariant
            i <= children.len(),
            layout_model::first_holding_pane(models(children@), pane_id@, 0)
                == layout_model::first_holding_pane(models(children@), pane_id@, i as int),
        decreases children.len() - i,
    {
        if contains_pane(&children[i], pane_id) {
            return i;
        }
        i = i + 1;
    }
    i
}

/// Whether a node identifier is used at or below a node.
fn contains_node_id(node: &LayoutNode, node_id: &str) -> (found: bool)
    ensures
        found == layout_model::holds_node(node.model(), node_id@),
    decreases node,
{
    match node {
        LayoutNode::Pane { id, pane_id } => {
            let found = same_text(id.as_str(), node_id);
            proof {
                assert(seq![id@][0] == id@);
            }
            found
        },
        LayoutNode::Split { id, direction, children, ratios } => {
            proof {
                lemma_split_model(*node);
                layout_model::lemma_forest_holds_node(models(children@), node_id@);
                layout_model::lemma_first_holding_node(models(children@), node_id@, 0);
                layout_model::lemma_contains_concat(
                    seq![id@],
                    layout_model::forest_node_ids(models(children@)),
                    node_id@,
                );
                assert(seq![id@][0] == id@);
            }
            same_text(id.as_str(), node_id) || position_of_node(children, node_id) < children.len()
        },
    }
}

/// The first of the nodes that uses a node identifier; their number where
/// none does.
fn position_of_node(children: &Vec<LayoutNode>, node_id: &str) -> (index: usize)
    ensures
        index == layout_model::first_holding_node(models(children@), node_id@, 0),
    decreases children,
{
    let mut i: usize = 0;
    while i < children.len()
        invariant
            i <= children.len(),
            layout_model::first_holding_node(models(children@), node_id@, 0)
                == layout_model::first_holding_node(models(children@), node_id@, i as int),
        decreases children.len() - i,
    {
        if contains_node_id(&children[i], node_id) {
            return i;
        }
        i = i + 1;
    }
    i
}

/// The first of the nodes that is the leaf of a pane; their number where
/// none is.
fn position_of_leaf(children: &Vec<LayoutNode>, pane_id: &str) -> (index: usize)
    ensures
        index == layout_model::first_leaf(models(children@), pane_id@, 0),
{
    let mut i: usize = 0;
    while i < children.len()
        invariant
            i <= children.len(),
            layout_model::first_leaf(models(children@), pane_id@, 0) == layout_model::first_leaf(
                models(children@),
                pane_id@,
                i as int,
            ),
        decreases children.len() - i,
    {
        if let LayoutNode::Pane { id, pane_id: own } = &children[i] {
            if same_text(own.as_str(), pane_id) {
                return i;
            }
        }
        i = i + 1;
    }
    i
}

/// The identifier of the first node that shows a pane.
pub(crate) fn find_pane_node_id(node: &LayoutNode, pane_id: &str) -> (found: Option<String>)
    ensures
        match found {
            Some(id) => layout_model::pane_node_id(node.model(), pane_id@) == Some(id@),
            None => layout_model::pane_node_id(node.model(), pane_id@) is None,
        },
    decreases node,
{
    match node {
        LayoutNode::Pane { id, pane_id: own } => {
            if same_text(own.as_str(), pane_id) {
                Some(id.clone())
            } else {
                None
            }
        },
        LayoutNode::Split { id, direction, children, ratios } => {
            let ghost forest = models(children@);
            proof {
                lemma_split_model(*node);
            }
            let mut i: usize = 0;
            while i < children.len()
                invariant
                    i <= children.len(),
                    forest == models(children@),
                    *node matches LayoutNode::Split { children: held, .. } && held == *children,
                    layout_model::forest_pane_node_id(forest.take(i as int), pane_id@) is None,
                    layout_model::pane_node_id(node.model(), pane_id@)
                        == layout_model::forest_pane_node_id(forest, pane_id@),
                decreases children.len() - i,
            {
                let found = find_pane_node_id(&children[i], pane_id);
                proof {
                    assert(forest.take(i + 1).drop_last() =~= forest.take(i as int));
                    assert(forest.take(i + 1).last() == children@[i as int].model());
                }
                if found.is_some() {
                    proof {
                        layout_model::lemma_pane_node_prefix(forest, i + 1, pane_id@);
                    }
                    return found;
                }
                i = i + 1;
            }
            proof {
                assert(forest.take(children.len() as int) =~= forest);
            }
            None
        },
    }
}

proof fn lemma_models_insert(before: Seq<LayoutNode>, k: int, node: LayoutNode)
    requires
        0 <= k < before.len(),
    ensures
        models(before.remove(k).insert(k, node)) == models(before).update(k, node.model()),
{
    assert(models(before.remove(k).insert(k, node)) =~= models(before).update(k, node.model()));
}

proof fn lemma_models_remove(before: Seq<LayoutNode>, k: int)
    requires
        0 <= k < before.len(),
    ensures
        models(before.remove(k)) == models(before).remove(k),
{
    assert(models(before.remove(k)) =~= models(before).remove(k));
}

/// The tree with the leaf `node_id` split in two.
pub(crate) fn split_node(
    node: LayoutNode,
    node_id: &str,
    new_pane_id: String,
    direction: SplitDirection,
) -> (result: Result<LayoutNode, LayoutError>)
    ensures
        match result {
            Ok(after) => layout_model::split_at(node.model(), node_id@, new_pane_id@, direction)
                == Some(after.model()),
            Err(e) => e == LayoutError::NodeNotFound && layout_model::split_at(
                node.model(),
                node_id@,
                new_pane_id@,
                direction,
            ) is None,
        },
    decreases node,
{
    proof {
        lemma_split_model(node);
    }
    match node {
        LayoutNode::Pane { id, pane_id } => {
            if !same_text(id.as_str(), node_id) {
                return Err(LayoutError::NodeNotFound);
            }
            let mut children: Vec<LayoutNode> = Vec::new();
            let left = LayoutNode::Pane { id: joined(id.as_str(), "-left"), pane_id };
            let right = LayoutNode::Pane {
                id: joined(id.as_str(), "-right"),
                pane_id: new_pane_id,
            };
            children.push(left);
            children.push(right);
            let mut ratios: Vec<Ratio> = Vec::new();
            ratios.push(Ratio { bits: HALF_BITS });
            ratios.push(Ratio { bits: HALF_BITS });
            let after = LayoutNode::Split { id, direction, children, ratios };
            proof {
                lemma_split_model(after);
                assert(models(children@) =~= seq![left.model(), right.model()]);
                assert(ratios@ =~= seq![Ratio { bits: HALF_BITS }, Ratio { bits: HALF_BITS }]);
            }
            Ok(after)
        },
        LayoutNode::Split { id, direction: along, mut children, ratios } => {
            let ghost before = children@;
            let k: usize = position_of_node(&children, node_id);
            proof {
                layout_model::lemma_first_holding_node(models(children@), node_id@, 0);
            }
            if k >= children.len() {
                return Err(LayoutError::NodeNotFound);
            }
            let child = children.remove(k);
            match split_node(child, node_id, new_pane_id, direction) {
                Err(e) => Err(e),
                Ok(changed) => {
                    children.insert(k, changed);
                    let after = LayoutNode::Split { id, direction: along, children, ratios };
                    proof {
                        lemma_models_insert(before, k as int, changed);
                        lemma_split_model(after);
                    }
                    Ok(after)
                },
            }
        },
    }
}

/// A split after a child was taken out or changed.
fn settle(
    id: String,
    direction: SplitDirection,
    children: Vec<LayoutNode>,
    ratios: Vec<Ratio>,
) -> (node: LayoutNode)
    ensures
        node.model() == layout_model::settled(id@, direction, models(children@), ratios@),
{
    let mut children = children;
    if children.len() == 1 {
        let survivor = children.remove(0);
        proof {
            lemma_split_model(survivor);
        }
        match survivor {
            LayoutNode::Pane { id: old_id, pane_id } => LayoutNode::Pane { id, pane_id },
            LayoutNode::Split { id: old_id, direction: along, children: below, ratios: shares } => {
                let node = LayoutNode::Split {
                    id,
                    direction: along,
                    children: below,
                    ratios: shares,
                };
                proof {
                    lemma_split_model(node);
                }
                node
            },
        }
    } else {
        let node = LayoutNode::Split { id, direction, children, ratios };
        proof {
            lemma_split_model(node);
        }
        node
    }
}

/// What taking a pane out of a tree gives.
pub(crate) enum Removal {
    /// The pane was below no split; here is the node unchanged.
    Absent,
    Removed(LayoutNode),
}

/// The tree without a pane.
pub(crate) fn remove_from_node(node: LayoutNode, pane_id: &str) -> (result: Result<Removal, LayoutError>)
    ensures
        match result {
            Ok(Removal::Removed(after)) => layout_model::without_pane(node.model(), pane_id@)
                == Ok::<Option<NodeModel>, LayoutError>(Some(after.model())),
            Ok(Removal::Absent) => layout_model::without_pane(node.model(), pane_id@) == Ok::<
                Option<NodeModel>,
                LayoutError,
            >(None),
            Err(e) => layout_model::without_pane(node.model(), pane_id@) == Err::<
                Option<NodeModel>,
                LayoutError,
            >(e),
        },
    decreases node,
{
    proof {
        lemma_split_model(node);
    }
    match node {
        LayoutNode::Pane { id, pane_id: own } => Ok(Removal::Absent),
        LayoutNode::Split { id, direction, mut children, mut ratios } => {
            let ghost before = children@;
            let ghost shares = ratios@;
            let leaf: usize = position_of_leaf(&children, pane_id);
            proof {
                layout_model::lemma_first_leaf(models(before), pane_id@, 0);
                layout_model::lemma_first_holding_pane(models(before), pane_id@, 0);
            }
            if leaf < children.len() {
                if children.len() != ratios.len() {
                    return Err(LayoutError::MismatchedRatios);
                }
                let removed: Ratio = ratios[leaf];
                let _ = children.remove(leaf);
                let _ = ratios.remove(leaf);
                if children.len() > 1 {
                    let recipient: usize = if leaf > 0 {
                        leaf - 1
                    } else {
                        0
                    };
                    let grown: Ratio = ratios[recipient].add_ratio(removed);
                    ratios.set(recipient, grown);
                }
                proof {
                    lemma_models_remove(before, leaf as int);
                    assert(ratios@ =~= layout_model::ratios_without(shares, leaf as int));
                }
                return Ok(Removal::Removed(settle(id, direction, children, ratios)));
            }
            let k: usize = position_of_pane(&children, pane_id);
            if k >= children.len() {
                return Ok(Removal::Absent);
            }
            let child = children.remove(k);
            match remove_from_node(child, pane_id) {
                Err(e) => Err(e),
                Ok(Removal::Absent) => Ok(Removal::Absent),
                Ok(Removal::Removed(changed)) => {
                    children.insert(k, changed);
                    proof {
                        lemma_models_insert(before, k as int, changed);
                    }
                    Ok(Removal::Removed(settle(id, direction, children, ratios)))
                },
            }
        },
    }
}

/// The two ratios that a resize acts on.
fn pair_in_node(node: &LayoutNode, pane_id: &str, along: SplitDirection) -> (result: Result<
    Option<(Ratio, Ratio)>,
    LayoutError,
>)
    ensures
        result == layout_model::resize_pair(node.model(), pane_id@, along),
    decreases node,
{
    proof {
        lemma_split_model(*node);
    }
    match node {
        LayoutNode::Pane { id, pane_id: own } => Ok(None),
        LayoutNode::Split { id, direction, children, ratios } => {
            let index: usize = position_of_pane(children, pane_id);
            proof {
                layout_model::lemma_first_holding_pane(models(children@), pane_id@, 0);
            }
            if index >= children.len() {
                return Ok(None);
            }
            match pair_in_node(&children[index], pane_id, along) {
                Ok(None) => {},
                other => {
                    return other;
                },
            }
            if *direction != along {
                return Ok(None);
            }
            if children.len() != ratios.len() {
                return Err(LayoutError::MismatchedRatios);
            }
            let neighbor: usize = if index > 0 {
                index - 1
            } else if ratios.len() > 1 {
                index + 1
            } else {
                return Err(LayoutError::NoResizeNeighbor);
            };
            Ok(Some((ratios[index], ratios[neighbor])))
        },
    }
}

/// The tree with the two ratios that a resize acts on replaced.
fn replace_pair(
    node: LayoutNode,
    pane_id: &str,
    along: SplitDirection,
    pair: (Ratio, Ratio),
) -> (after: LayoutNode)
    requires
        layout_model::resize_pair(node.model(), pane_id@, along) matches Ok(Some(_)),
    ensures
        after.model() == layout_model::with_pair(node.model(), pane_id@, along, pair),
    decreases node,
{
    proof {
        lemma_split_model(node);
    }
    match node {
        LayoutNode::Pane { id, pane_id: own } => LayoutNode::Pane { id, pane_id: own },
        LayoutNode::Split { id, direction, mut children, mut ratios } => {
            let ghost before = children@;
            let index: usize = position_of_pane(&children, pane_id);
            proof {
                layout_model::lemma_first_holding_pane(models(before), pane_id@, 0);
            }
            let inner: bool = match pair_in_node(&children[index], pane_id, along) {
                Ok(None) => false,
                _ => true,
            };
            if inner {
                let child = children.remove(index);
                let changed = replace_pair(child, pane_id, along, pair);
                children.insert(index, changed);
                let after = LayoutNode::Split { id, direction, children, ratios };
                proof {
                    lemma_models_insert(before, index as int, changed);
                    lemma_split_model(after);
                }
                after
            } else {
                let neighbor: usize = if index > 0 {
                    index - 1
                } else {
                    index + 1
                };
                ratios.set(index, pair.0);
                ratios.set(neighbor, pair.1);
                let after = LayoutNode::Split { id, direction, children, ratios };
                proof {
                    lemma_split_model(after);
                }
                after
            }
        },
    }
}

impl LayoutNode {
    /// The pane as the tree names it, where the tree shows it.
    pub fn find_pane(&self, pane_id: &str) -> (found: Option<&str>)
        ensures
            match found {
                Some(text) => layout_model::holds_pane(self.model(), pane_id@) && text@ == pane_id@,
                None => !layout_model::holds_pane(self.model(), pane_id@),
            },
        decreases self,
    {
        match self {
            LayoutNode::Pane { id, pane_id: own } => {
                proof {
                    assert(seq![own@][0] == own@);
                }
                if same_text(own.as_str(), pane_id) {
                    Some(own.as_str())
                } else {
                    None
                }
            },
            LayoutNode::Split { id, direction, children, ratios } => {
                proof {
                    lemma_split_model(*self);
                    layout_model::lemma_forest_holds_pane(models(children@), pane_id@);
                    layout_model::lemma_first_holding_pane(models(children@), pane_id@, 0);
                }
                let k: usize = position_of_pane(children, pane_id);
                if k < children.len() {
                    children[k].find_pane(pane_id)
                } else {
                    None
                }
            },
        }
    }

    fn collect_pane_ids(&self, ids: &mut Vec<String>)
        ensures
            text::texts(final(ids)@) == text::texts(old(ids)@) + layout_model::pane_ids(self.model()),
        decreases self,
    {
        match self {
            LayoutNode::Pane { id, pane_id } => {
                ids.push(pane_id.clone());
                proof {
                    text::lemma_texts_push(old(ids)@, *pane_id);
                    assert(text::texts(ids@) =~= text::texts(old(ids)@) + seq![pane_id@]);
                }
            },
            LayoutNode::Split { id, direction, children, ratios } => {
                let ghost forest = models(children@);
                proof {
                    lemma_split_model(*self);
                    assert(text::texts(ids@) =~= text::texts(old(ids)@)
                        + layout_model::forest_pane_ids(forest.take(0)));
                }
                let mut i: usize = 0;
                while i < children.len()
                    invariant
                        i <= children.len(),
                        forest == models(children@),
                        *self matches LayoutNode::Split { children: held, .. } && held == *children,
                        text::texts(ids@) == text::texts(old(ids)@) + layout_model::forest_pane_ids(
                            forest.take(i as int),
                        ),
                    decreases children.len() - i,
                {
                    children[i].collect_pane_ids(ids);
                    proof {
                        assert(forest.take(i + 1).drop_last() =~= forest.take(i as int));
                        assert(forest.take(i + 1).last() == children@[i as int].model());
                        assert(text::texts(ids@) =~= text::texts(old(ids)@)
                            + layout_model::forest_pane_ids(forest.take(i + 1)));
                    }
                    i = i + 1;
                }
                proof {
                    assert(forest.take(children.len() as int) =~= forest);
                }
            },
        }
    }

    fn collect_node_ids(&self, ids: &mut Vec<String>)
        ensures
            text::texts(final(ids)@) == text::texts(old(ids)@) + layout_model::node_ids(self.model()),
        decreases self,
    {
        match self {
            LayoutNode::Pane { id, pane_id } => {
                ids.push(id.clone());
                proof {
                    text::lemma_texts_push(old(ids)@, *id);
                    assert(text::texts(ids@) =~= text::texts(old(ids)@) + seq![id@]);
                }
            },
            LayoutNode::Split { id, direction, children, ratios } => {
                let ghost forest = models(children@);
                ids.push(id.clone());
                let ghost start = text::texts(ids@);
                proof {
                    lemma_split_model(*self);
                    text::lemma_texts_push(old(ids)@, *id);
                    assert(start =~= text::texts(old(ids)@) + seq![id@]);
                    assert(start =~= start + layout_model::forest_node_ids(forest.take(0)));
                }
                let mut i: usize = 0;
                while i < children.len()
                    invariant
                        i <= children.len(),
                        forest == models(children@),
                        *self matches LayoutNode::Split { children: held, .. } && held == *children,
                        text::texts(ids@) == start + layout_model::forest_node_ids(
                            forest.take(i as int),
                        ),
                    decreases children.len() - i,
                {
                    children[i].collect_node_ids(ids);
                    proof {
                        assert(forest.take(i + 1).drop_last() =~= forest.take(i as int));
                        assert(forest.take(i + 1).last() == children@[i as int].model());
                        assert(text::texts(ids@) =~= start + layout_model::forest_node_ids(
                            forest.take(i + 1),
                        ));
                    }
                    i = i + 1;
                }
                proof {
                    assert(forest.take(children.len() as int) =~= forest);
                    assert(start + layout_model::forest_node_ids(forest) =~= text::texts(old(ids)@)
                        + layout_model::node_ids(self.model()));
                }
            },
        }
    }
}

/// The placeholder of a session that shows no pane yet.
pub open spec fn empty_model() -> NodeModel {
    NodeModel::Pane { id: Seq::empty(), pane_id: Seq::empty() }
}

impl Clone for LayoutTree {
    fn clone(&self) -> (copy: Self)
        ensures
            copy@ == self@,
    {
        LayoutTree { root: self.root.clone() }
    }
}

impl View for LayoutTree {
    type V = NodeModel;

    open spec fn view(&self) -> NodeModel {
        self.root.model()
    }
}

impl LayoutTree {
    /// The tree of a session that shows no pane yet.
    pub fn empty() -> (tree: LayoutTree)
        ensures
            tree@ == empty_model(),
    {
        LayoutTree { root: LayoutNode::Pane { id: String::new(), pane_id: String::new() } }
    }

    /// The tree of a single pane.
    pub fn with_pane(id: String, pane_id: String) -> (tree: LayoutTree)
        ensures
            tree@ == (NodeModel::Pane { id: id@, pane_id: pane_id@ }),
    {
        LayoutTree { root: LayoutNode::Pane { id, pane_id } }
    }

    /// Whether the session shows no pane yet.
    pub fn is_empty_root(&self) -> (yes: bool)
        ensures
            yes == (self@ == empty_model()),
    {
        match &self.root {
            LayoutNode::Pane { id, pane_id } => {
                let yes: bool = id.as_str().is_empty() && pane_id.as_str().is_empty();
                proof {
                    if yes {
                        assert(id@ =~= Seq::<char>::empty());
                        assert(pane_id@ =~= Seq::<char>::empty());
                    }
                }
                yes
            },
            LayoutNode::Split { id, direction, children, ratios } => false,
        }
    }

    /// The panes that the tree shows, in order.
    pub fn pane_ids(&self) -> (ids: Vec<String>)
        ensures
            text::texts(ids@) == layout_model::pane_ids(self@),
    {
        let mut ids: Vec<String> = Vec::new();
        self.root.collect_pane_ids(&mut ids);
        proof {
            assert(text::texts(Seq::<String>::empty()) + layout_model::pane_ids(self@)
                =~= layout_model::pane_ids(self@));
        }
        ids
    }

    /// The identifiers of all nodes of the tree, parents before children.
    pub fn node_ids(&self) -> (ids: Vec<String>)
        ensures
            text::texts(ids@) == layout_model::node_ids(self@),
    {
        let mut ids: Vec<String> = Vec::new();
        self.root.collect_node_ids(&mut ids);
        proof {
            assert(text::texts(Seq::<String>::empty()) + layout_model::node_ids(self@)
                =~= layout_model::node_ids(self@));
        }
        ids
    }

    /// Splits a pane: it keeps the first half, the new pane gets the second.
    /// The tree is left as it was where that fails.
    pub fn split(
        &mut self,
        pane_id: &str,
        new_pane_id: String,
        direction: SplitDirection,
        max_wire: usize,
    ) -> (result: Result<(), LayoutError>)
        ensures
            match result {
                Ok(_) => layout_model::split_result(
                    old(self)@,
                    pane_id@,
                    new_pane_id@,
                    direction,
                    max_wire as int,
                ) == Ok::<NodeModel, LayoutError>(final(self)@),
                Err(e) => layout_model::split_result(
                    old(self)@,
                    pane_id@,
                    new_pane_id@,
                    direction,
                    max_wire as int,
                ) == Err::<NodeModel, LayoutError>(e) && final(self)@ == old(self)@,
            },
    {
        if new_pane_id.as_str().is_empty() {
            return Err(LayoutError::EmptyNewPaneId);
        }
        if contains_pane(&self.root, new_pane_id.as_str()) {
            return Err(LayoutError::PaneAlreadyExists);
        }
        let node_id: String = match find_pane_node_id(&self.root, pane_id) {
            Some(id) => id,
            None => {
                return Err(LayoutError::PaneNotFound);
            },
        };
        let candidate = self.root.clone();
        match split_node(candidate, node_id.as_str(), new_pane_id, direction) {
            Err(e) => Err(e),
            Ok(after) => match validate_structure(&after, max_wire) {
                Err(e) => Err(e),
                Ok(_) => {
                    self.root = after;
                    Ok(())
                },
            },
        }
    }

    /// Removes a pane; its space goes to its neighbour, and a split with one
    /// child left gives way to that child. The only pane cannot be removed.
    /// The tree is left as it was where that fails.
    pub fn remove_pane(&mut self, pane_id: &str, max_wire: usize) -> (result: Result<
        (),
        LayoutError,
    >)
        ensures
            match result {
                Ok(_) => layout_model::remove_result(old(self)@, pane_id@, max_wire as int) == Ok::<
                    NodeModel,
                    LayoutError,
                >(final(self)@),
                Err(e) => layout_model::remove_result(old(self)@, pane_id@, max_wire as int)
                    == Err::<NodeModel, LayoutError>(e) && final(self)@ == old(self)@,
            },
    {
        if let LayoutNode::Pane { id, pane_id: own } = &self.root {
            if same_text(own.as_str(), pane_id) {
                return Err(LayoutError::SoleRootPane);
            }
        }
        let candidate = self.root.clone();
        match remove_from_node(candidate, pane_id) {
            Err(e) => Err(e),
            Ok(Removal::Absent) => Err(LayoutError::PaneNotFound),
            Ok(Removal::Removed(after)) => match validate_structure(&after, max_wire) {
                Err(e) => Err(e),
                Ok(_) => {
                    self.root = after;
                    Ok(())
                },
            },
        }
    }

    /// The two ratios that a resize of a pane would act on: its own and that
    /// of the neighbour.
    pub fn resize_pair(&self, pane_id: &str, direction: SplitDirection) -> (result: Result<
        Option<(Ratio, Ratio)>,
        LayoutError,
    >)
        ensures
            result == layout_model::resize_pair(self@, pane_id@, direction),
    {
        pair_in_node(&self.root, pane_id, direction)
    }

    /// Moves the edge between a pane and its neighbour along a direction. The
    /// tree is left as it was where that fails.
    pub fn resize_pane(
        &mut self,
        pane_id: &str,
        direction: SplitDirection,
        delta: Ratio,
        max_wire: usize,
    ) -> (result: Result<(), LayoutError>)
        requires
            delta.finite() ==> layout_model::resizable(old(self)@, pane_id@, direction),
        ensures
            match result {
                Ok(_) => layout_model::resize_result(
                    old(self)@,
                    pane_id@,
                    direction,
                    delta,
                    max_wire as int,
                ) == Ok::<NodeModel, LayoutError>(final(self)@),
                Err(e) => layout_model::resize_result(
                    old(self)@,
                    pane_id@,
                    direction,
                    delta,
                    max_wire as int,
                ) == Err::<NodeModel, LayoutError>(e) && final(self)@ == old(self)@,
            },
    {
        if !delta.is_finite() {
            return Err(LayoutError::NonFiniteDelta);
        }
        let pair: (Ratio, Ratio) = match pair_in_node(&self.root, pane_id, direction) {
            Err(e) => {
                return Err(e);
            },
            Ok(None) => {
                return Err(LayoutError::NoMatchingSplit);
            },
            Ok(Some(pair)) => pair,
        };
        if !pair.0.add_ratio(pair.1).is_share() {
            return Err(LayoutError::InvalidResizePair);
        }
        let shares: (Ratio, Ratio) = resize_shares(pair.0, pair.1, delta);
        let candidate = self.root.clone();
        let after = replace_pair(candidate, pane_id, direction, shares);
        match validate_structure(&after, max_wire) {
            Err(e) => Err(e),
            Ok(_) => {
                self.root = after;
                Ok(())
            },
        }
    }
}

} // verus!
