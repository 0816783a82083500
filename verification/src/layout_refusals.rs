//! What is said of a change that a split tree does not take.
use crate::layout::{
    find_pane_node_id, remove_from_node, split_node, LayoutError, LayoutTree, Removal,
    SplitDirection, MAX_INTERNAL_LAYOUT_DEPTH,
};
use crate::layout_model;
use crate::layout_model::{NodeModel, Seen};
use crate::numbers;
use crate::numbers::decimal_text;
use crate::ratio::Ratio;
use crate::text;
use crate::text::{joined, same_text};
use vstd::prelude::*;
use vstd::string::*;

verus! {

/// The first text from a place on that stands in a list before.
pub open spec fn repeated(list: Seq<Seq<char>>, i: int) -> Seq<char>
    decreases list.len() - i,
{
    if i < 0 || i >= list.len() {
        Seq::empty()
    } else if list.take(i).contains(list[i]) {
        list[i]
    } else {
        repeated(list, i + 1)
    }
}

/// Whether the text at a place is the first that stands in a list before.
pub open spec fn repeats_at(list: Seq<Seq<char>>, i: int) -> bool {
    0 <= i < list.len() && list.take(i).no_duplicates() && list.take(i).contains(list[i])
}

/// The first text that stands in a list before.
fn find_repeated(list: &Vec<String>) -> (found: String)
    ensures
        found@ == repeated(text::texts(list@), 0),
{
    let ghost all = text::texts(list@);
    let mut i: usize = 0;
    while i < list.len()
        invariant
            i <= list.len(),
            all == text::texts(list@),
            repeated(all, 0) == repeated(all, i as int),
        decreases list.len() - i,
    {
        let mut j: usize = 0;
        assert(all[i as int] == list@[i as int]@);
        while j < i
            invariant
                j <= i < list.len(),
                all == text::texts(list@),
                all[i as int] == list@[i as int]@,
                repeated(all, 0) == repeated(all, i as int),
                forall|k: int| 0 <= k < j ==> #[trigger] all[k] != all[i as int],
            decreases i - j,
        {
            assert(all[j as int] == list@[j as int]@);
            if same_text(list[j].as_str(), list[i].as_str()) {
                assert(all.take(i as int)[j as int] == all[i as int]);
                return list[i].clone();
            }
            j = j + 1;
        }
        assert(!all.take(i as int).contains(all[i as int]));
        i = i + 1;
    }
    String::new()
}

/// What a refusal of a change names: the node of the pane, and what the changed
/// tree would name twice.
#[derive(Debug)]
pub struct LayoutNames {
    pub node_id: String,
    pub repeated_node_id: String,
    pub repeated_pane_id: String,
}

/// What a refusal of a change names.
pub struct LayoutNamesModel {
    pub node_id: Seq<char>,
    pub repeated_node_id: Seq<char>,
    pub repeated_pane_id: Seq<char>,
}

impl View for LayoutNames {
    type V = LayoutNamesModel;

    open spec fn view(&self) -> LayoutNamesModel {
        LayoutNamesModel {
            node_id: self.node_id@,
            repeated_node_id: self.repeated_node_id@,
            repeated_pane_id: self.repeated_pane_id@,
        }
    }
}

impl LayoutNames {
    /// Nothing is named.
    pub fn none() -> (names: LayoutNames)
        ensures
            names@ == no_names(),
    {
        LayoutNames {
            node_id: String::new(),
            repeated_node_id: String::new(),
            repeated_pane_id: String::new(),
        }
    }
}

/// Nothing is named.
pub open spec fn no_names() -> LayoutNamesModel {
    LayoutNamesModel {
        node_id: Seq::empty(),
        repeated_node_id: Seq::empty(),
        repeated_pane_id: Seq::empty(),
    }
}

/// The tree that splitting a pane makes, whether or not it is taken over.
pub open spec fn split_attempt(
    n: NodeModel,
    pane: Seq<char>,
    new_pane: Seq<char>,
    direction: SplitDirection,
) -> NodeModel {
    match layout_model::pane_node_id(n, pane) {
        Some(id) => match layout_model::split_at(n, id, new_pane, direction) {
            Some(after) => after,
            None => n,
        },
        None => n,
    }
}

/// The tree that removing a pane makes, whether or not it is taken over.
pub open spec fn removal_attempt(n: NodeModel, pane: Seq<char>) -> NodeModel {
    match layout_model::without_pane(n, pane) {
        Ok(Some(after)) => after,
        _ => n,
    }
}

/// What a refusal names, where a change for a pane would make this tree of
/// another.
pub open spec fn names_of(n: NodeModel, pane: Seq<char>, attempt: NodeModel) -> LayoutNamesModel {
    LayoutNamesModel {
        node_id: match layout_model::pane_node_id(n, pane) {
            Some(id) => id,
            None => Seq::empty(),
        },
        repeated_node_id: repeated(layout_model::node_ids(attempt), 0),
        repeated_pane_id: repeated(layout_model::pane_ids(attempt), 0),
    }
}

fn names_in(tree: &LayoutTree, pane_id: &str, attempt: &LayoutTree) -> (names: LayoutNames)
    ensures
        names@ == names_of(tree@, pane_id@, attempt@),
{
    let node_id: String = match find_pane_node_id(&tree.root, pane_id) {
        Some(id) => id,
        None => String::new(),
    };
    LayoutNames {
        node_id,
        repeated_node_id: find_repeated(&attempt.node_ids()),
        repeated_pane_id: find_repeated(&attempt.pane_ids()),
    }
}

/// What a refusal to split a pane names.
pub fn split_names(
    tree: &LayoutTree,
    pane_id: &str,
    new_pane_id: &str,
    direction: SplitDirection,
) -> (names: LayoutNames)
    ensures
        names@ == names_of(
            tree@,
            pane_id@,
            split_attempt(tree@, pane_id@, new_pane_id@, direction),
        ),
{
    match find_pane_node_id(&tree.root, pane_id) {
        Some(id) => match split_node(
            tree.root.clone(),
            id.as_str(),
            new_pane_id.to_owned(),
            direction,
        ) {
            Ok(root) => names_in(tree, pane_id, &LayoutTree { root }),
            Err(_) => names_in(tree, pane_id, tree),
        },
        None => names_in(tree, pane_id, tree),
    }
}

/// What a refusal to remove a pane names.
pub fn removal_names(tree: &LayoutTree, pane_id: &str) -> (names: LayoutNames)
    ensures
        names@ == names_of(tree@, pane_id@, removal_attempt(tree@, pane_id@)),
{
    match remove_from_node(tree.root.clone(), pane_id) {
        Ok(Removal::Removed(root)) => names_in(tree, pane_id, &LayoutTree { root }),
        _ => names_in(tree, pane_id, tree),
    }
}

/// What a refusal to resize a pane names: a resize changes no identifier.
pub fn resize_names(tree: &LayoutTree, pane_id: &str) -> (names: LayoutNames)
    ensures
        names@ == names_of(tree@, pane_id@, tree@),
{
    names_in(tree, pane_id, tree)
}

/// What is said of a change that a split tree does not take. `removing` says
/// that a pane was to leave it.
pub open spec fn layout_error_text(
    error: LayoutError,
    removing: bool,
    pane: Seq<char>,
    new_pane: Seq<char>,
    names: LayoutNamesModel,
    max_wire: nat,
) -> Seq<char> {
    match error {
        LayoutError::EmptyNewPaneId => "new pane id must not be empty"@,
        LayoutError::PaneAlreadyExists => "pane already exists in layout: "@ + new_pane,
        LayoutError::PaneNotFound => if removing {
            "pane not found in layout: "@ + pane
        } else {
            "pane not found: "@ + pane
        },
        LayoutError::NodeNotFound => "node not found: "@ + names.node_id,
        LayoutError::SoleRootPane => "cannot remove sole root pane: layout would be empty"@,
        LayoutError::NonFiniteDelta => "layout resize delta must be finite"@,
        LayoutError::NoMatchingSplit => "pane has no matching layout split: "@ + pane,
        LayoutError::NoResizeNeighbor => "layout split has no resize neighbor"@,
        LayoutError::InvalidResizePair => "layout resize pair has invalid ratios"@,
        LayoutError::InternalDepth => "layout depth exceeds internal maximum of "@
            + numbers::digits_of(MAX_INTERNAL_LAYOUT_DEPTH as nat),
        LayoutError::WireDepth => "layout wire depth exceeds maximum of "@ + numbers::digits_of(
            max_wire,
        ),
        LayoutError::EmptyNodeId => "layout node id must not be empty"@,
        LayoutError::EmptyPaneId => "layout pane id must not be empty"@,
        LayoutError::DuplicateNodeId => "duplicate layout node id: "@ + names.repeated_node_id,
        LayoutError::DuplicatePaneId => "duplicate pane id in layout: "@ + names.repeated_pane_id,
        LayoutError::TooFewChildren => "layout split needs at least two children"@,
        LayoutError::MismatchedRatios => "layout split has mismatched children and ratios"@,
        LayoutError::InvalidRatio => "layout ratios must be finite and positive"@,
        LayoutError::InvalidRatioSum => "layout split ratio sum must be finite and positive"@,
    }
}

/// Says why a split tree does not take a change.
pub fn layout_error_message(
    error: LayoutError,
    removing: bool,
    pane_id: &str,
    new_pane_id: &str,
    names: &LayoutNames,
    max_wire: usize,
) -> (message: String)
    ensures
        message@ == layout_error_text(
            error,
            removing,
            pane_id@,
            new_pane_id@,
            names@,
            max_wire as nat,
        ),
{
    let plain: &str = match error {
        LayoutError::PaneAlreadyExists => {
            return joined("pane already exists in layout: ", new_pane_id);
        },
        LayoutError::PaneNotFound => {
            if removing {
                return joined("pane not found in layout: ", pane_id);
            }
            return joined("pane not found: ", pane_id);
        },
        LayoutError::NodeNotFound => {
            return joined("node not found: ", names.node_id.as_str());
        },
        LayoutError::NoMatchingSplit => {
            return joined("pane has no matching layout split: ", pane_id);
        },
        LayoutError::InternalDepth => {
            return joined(
                "layout depth exceeds internal maximum of ",
                decimal_text(MAX_INTERNAL_LAYOUT_DEPTH as u64).as_str(),
            );
        },
        LayoutError::WireDepth => {
            return joined(
                "layout wire depth exceeds maximum of ",
                decimal_text(max_wire as u64).as_str(),
            );
        },
        LayoutError::DuplicateNodeId => {
            return joined("duplicate layout node id: ", names.repeated_node_id.as_str());
        },
        LayoutError::DuplicatePaneId => {
            return joined("duplicate pane id in layout: ", names.repeated_pane_id.as_str());
        },
        LayoutError::EmptyNewPaneId => "new pane id must not be empty",
        LayoutError::SoleRootPane => "cannot remove sole root pane: layout would be empty",
        LayoutError::NonFiniteDelta => "layout resize delta must be finite",
        LayoutError::NoResizeNeighbor => "layout split has no resize neighbor",
        LayoutError::InvalidResizePair => "layout resize pair has invalid ratios",
        LayoutError::EmptyNodeId => "layout node id must not be empty",
        LayoutError::EmptyPaneId => "layout pane id must not be empty",
        LayoutError::TooFewChildren => "layout split needs at least two children",
        LayoutError::MismatchedRatios => "layout split has mismatched children and ratios",
        LayoutError::InvalidRatio => "layout ratios must be finite and positive",
        LayoutError::InvalidRatioSum => "layout split ratio sum must be finite and positive",
    };
    plain.to_owned()
}

proof fn lemma_repeated(list: Seq<Seq<char>>, i: int, j: int)
    requires
        0 <= i <= j,
        repeats_at(list, j),
    ensures
        repeated(list, i) == list[j],
    decreases j - i,
{
    if i < j {
        let before = list.take(j);
        if list.take(i).contains(list[i]) {
            let k = choose|k: int| 0 <= k < i && list.take(i)[k] == list[i];
            assert(before[k] == before[i]);
        }
        lemma_repeated(list, i + 1, j);
    }
}

proof fn lemma_repeats_longer(list: Seq<Seq<char>>, more: Seq<Seq<char>>, j: int)
    requires
        repeats_at(list, j),
    ensures
        repeats_at(list + more, j),
{
    assert((list + more).take(j) =~= list.take(j));
}

proof fn lemma_seen_repeats(seen: Seq<Seq<char>>, id: Seq<char>, more: Seq<Seq<char>>)
    requires
        seen.no_duplicates(),
        seen.contains(id),
    ensures
        repeats_at(seen + (seq![id] + more), seen.len() as int),
{
    let all = seen + (seq![id] + more);
    assert(all.take(seen.len() as int) =~= seen);
}

proof fn lemma_walk_stops(
    n: NodeModel,
    depth: int,
    wire: int,
    parent: Option<SplitDirection>,
    seen: Seen,
    max_wire: int,
)
    requires
        seen.nodes.no_duplicates(),
        seen.panes.no_duplicates(),
    ensures
        layout_model::visit(n, depth, wire, parent, seen, max_wire) == Err::<Seen, LayoutError>(
            LayoutError::DuplicateNodeId,
        ) ==> exists|j: int| repeats_at(seen.nodes + layout_model::node_ids(n), j),
        layout_model::visit(n, depth, wire, parent, seen, max_wire) == Err::<Seen, LayoutError>(
            LayoutError::DuplicatePaneId,
        ) ==> exists|j: int| repeats_at(seen.panes + layout_model::pane_ids(n), j),
    decreases n,
{
    match n {
        NodeModel::Pane { id, pane_id } => {
            assert(seq![id] + Seq::<Seq<char>>::empty() =~= seq![id]);
            assert(seq![pane_id] + Seq::<Seq<char>>::empty() =~= seq![pane_id]);
            if seen.nodes.contains(id) {
                lemma_seen_repeats(seen.nodes, id, Seq::empty());
                assert(repeats_at(
                    seen.nodes + layout_model::node_ids(n),
                    seen.nodes.len() as int,
                ));
            }
            if seen.panes.contains(pane_id) {
                lemma_seen_repeats(seen.panes, pane_id, Seq::empty());
                assert(repeats_at(
                    seen.panes + layout_model::pane_ids(n),
                    seen.panes.len() as int,
                ));
            }
        },
        NodeModel::Split { id, direction, children, ratios } => {
            if seen.nodes.contains(id) {
                lemma_seen_repeats(seen.nodes, id, layout_model::forest_node_ids(children));
                assert(repeats_at(
                    seen.nodes + layout_model::node_ids(n),
                    seen.nodes.len() as int,
                ));
            } else {
                let below = layout_model::wire_below(wire, parent, direction);
                let next = Seen { nodes: seen.nodes.push(id), panes: seen.panes };
                layout_model::lemma_fresh_push(seen.nodes, id);
                lemma_forest_walk_stops(children, depth + 1, below, direction, next, max_wire);
                assert(next.nodes + layout_model::forest_node_ids(children) =~= seen.nodes
                    + layout_model::node_ids(n));
                assert(layout_model::pane_ids(n) == layout_model::forest_pane_ids(children));
                let below_nodes = next.nodes + layout_model::forest_node_ids(children);
                if exists|j: int| repeats_at(below_nodes, j) {
                    let j = choose|j: int| repeats_at(below_nodes, j);
                    assert(repeats_at(seen.nodes + layout_model::node_ids(n), j));
                }
            }
        },
    }
}

proof fn lemma_forest_walk_stops(
    f: Seq<NodeModel>,
    depth: int,
    wire: int,
    parent: SplitDirection,
    seen: Seen,
    max_wire: int,
)
    requires
        seen.nodes.no_duplicates(),
        seen.panes.no_duplicates(),
    ensures
        layout_model::visit_forest(f, depth, wire, parent, seen, max_wire) == Err::<
            Seen,
            LayoutError,
        >(LayoutError::DuplicateNodeId) ==> exists|j: int|
            repeats_at(seen.nodes + layout_model::forest_node_ids(f), j),
        layout_model::visit_forest(f, depth, wire, parent, seen, max_wire) == Err::<
            Seen,
            LayoutError,
        >(LayoutError::DuplicatePaneId) ==> exists|j: int|
            repeats_at(seen.panes + layout_model::forest_pane_ids(f), j),
    decreases f,
{
    if f.len() > 0 {
        let init = f.drop_last();
        let walked = layout_model::visit_forest(init, depth, wire, parent, seen, max_wire);
        let nodes = seen.nodes + layout_model::forest_node_ids(init);
        let panes = seen.panes + layout_model::forest_pane_ids(init);
        let more_nodes = layout_model::node_ids(f.last());
        let more_panes = layout_model::pane_ids(f.last());
        assert(seen.nodes + layout_model::forest_node_ids(f) =~= nodes + more_nodes);
        assert(seen.panes + layout_model::forest_pane_ids(f) =~= panes + more_panes);
        lemma_forest_walk_stops(init, depth, wire, parent, seen, max_wire);
        layout_model::lemma_visit_forest(init, depth, wire, parent, seen, max_wire);
        if walked is Ok {
            lemma_walk_stops(f.last(), depth, wire, Some(parent), walked->Ok_0, max_wire);
        } else if walked->Err_0 == LayoutError::DuplicateNodeId {
            let j = choose|j: int| repeats_at(nodes, j);
            lemma_repeats_longer(nodes, more_nodes, j);
        } else if walked->Err_0 == LayoutError::DuplicatePaneId {
            let j = choose|j: int| repeats_at(panes, j);
            lemma_repeats_longer(panes, more_panes, j);
        }
    }
}

/// A tree that is refused for an identifier has the one that is named: it stands
/// in the tree a second time there, and nothing else does before.
pub proof fn law_refusals_name_what_is_repeated(n: NodeModel, max_wire: int)
    ensures
        layout_model::structure(n, max_wire) == Err::<(), LayoutError>(
            LayoutError::DuplicateNodeId,
        ) ==> exists|j: int|
            #[trigger] repeats_at(layout_model::node_ids(n), j) && layout_model::node_ids(n)[j]
                == repeated(layout_model::node_ids(n), 0),
        layout_model::structure(n, max_wire) == Err::<(), LayoutError>(
            LayoutError::DuplicatePaneId,
        ) ==> exists|j: int|
            #[trigger] repeats_at(layout_model::pane_ids(n), j) && layout_model::pane_ids(n)[j]
                == repeated(layout_model::pane_ids(n), 0),
{
    let none = Seen { nodes: Seq::empty(), panes: Seq::empty() };
    let nodes = layout_model::node_ids(n);
    let panes = layout_model::pane_ids(n);
    lemma_walk_stops(n, 0, 0, None, none, max_wire);
    assert(none.nodes + nodes =~= nodes);
    assert(none.panes + panes =~= panes);
    if exists|j: int| repeats_at(nodes, j) {
        lemma_repeated(nodes, 0, choose|j: int| repeats_at(nodes, j));
    }
    if exists|j: int| repeats_at(panes, j) {
        lemma_repeated(panes, 0, choose|j: int| repeats_at(panes, j));
    }
}

proof fn lemma_forest_names_kept(f: Seq<NodeModel>, k: int, child: NodeModel)
    requires
        0 <= k < f.len(),
        layout_model::node_ids(child) == layout_model::node_ids(f[k]),
        layout_model::pane_ids(child) == layout_model::pane_ids(f[k]),
    ensures
        layout_model::forest_node_ids(f.update(k, child)) == layout_model::forest_node_ids(f),
        layout_model::forest_pane_ids(f.update(k, child)) == layout_model::forest_pane_ids(f),
    decreases f.len(),
{
    let changed = f.update(k, child);
    if k == f.len() - 1 {
        assert(changed.drop_last() =~= f.drop_last());
    } else {
        assert(changed.drop_last() =~= f.drop_last().update(k, child));
        lemma_forest_names_kept(f.drop_last(), k, child);
    }
}

/// A resize changes no identifier.
pub proof fn law_resizing_keeps_names(
    n: NodeModel,
    pane: Seq<char>,
    along: SplitDirection,
    pair: (Ratio, Ratio),
)
    ensures
        layout_model::node_ids(layout_model::with_pair(n, pane, along, pair))
            == layout_model::node_ids(n),
        layout_model::pane_ids(layout_model::with_pair(n, pane, along, pair))
            == layout_model::pane_ids(n),
    decreases n,
{
    if let NodeModel::Split { id, direction, children, ratios } = n {
        let k = layout_model::first_holding_pane(children, pane, 0);
        if 0 <= k < children.len() {
            law_resizing_keeps_names(children[k], pane, along, pair);
            lemma_forest_names_kept(
                children,
                k,
                layout_model::with_pair(children[k], pane, along, pair),
            );
        }
    }
}

/// What is said against a change of a layout names the pane that it is about: the
/// new one where that is in the way, and the one that was asked for else.
pub proof fn law_layout_refusals_name_the_pane(
    removing: bool,
    pane: Seq<char>,
    new_pane: Seq<char>,
    names: LayoutNamesModel,
    max_wire: nat,
)
    ensures
        layout_error_text(LayoutError::PaneAlreadyExists, removing, pane, new_pane, names, max_wire)
            == "pane already exists in layout: "@ + new_pane,
        layout_error_text(LayoutError::PaneNotFound, true, pane, new_pane, names, max_wire)
            == "pane not found in layout: "@ + pane,
        layout_error_text(LayoutError::PaneNotFound, false, pane, new_pane, names, max_wire)
            == "pane not found: "@ + pane,
        layout_error_text(LayoutError::NoMatchingSplit, removing, pane, new_pane, names, max_wire)
            == "pane has no matching layout split: "@ + pane,
        layout_error_text(LayoutError::NodeNotFound, removing, pane, new_pane, names, max_wire)
            == "node not found: "@ + names.node_id,
        layout_error_text(LayoutError::DuplicateNodeId, removing, pane, new_pane, names, max_wire)
            == "duplicate layout node id: "@ + names.repeated_node_id,
        layout_error_text(LayoutError::DuplicatePaneId, removing, pane, new_pane, names, max_wire)
            == "duplicate pane id in layout: "@ + names.repeated_pane_id,
        layout_error_text(LayoutError::InternalDepth, removing, pane, new_pane, names, max_wire)
            == "layout depth exceeds internal maximum of "@ + numbers::digits_of(128),
        layout_error_text(LayoutError::WireDepth, removing, pane, new_pane, names, max_wire)
            == "layout wire depth exceeds maximum of "@ + numbers::digits_of(max_wire),
{
}

} // verus!
