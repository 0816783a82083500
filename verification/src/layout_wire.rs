//! The form of a split tree that clients get: splits that run as their parent
//! does are merged into it, so nesting on the wire counts changes of direction.
use crate::layout;
use crate::layout::{LayoutNode, LayoutTree, SplitDirection};
use crate::layout_model;
use crate::layout_model::NodeModel;
use crate::ratio;
use crate::ratio::{is_ranked_above_zero, total_ratio, Ratio};
use vstd::prelude::*;

verus! {

/// One factor of the share of space that a child gets.
#[derive(Clone, Copy, Debug, PartialEq, Eq, Structural)]
pub enum Weight {
    /// `part` divided by `whole`.
    Share { part: Ratio, whole: Ratio },
    /// One divided by `count`.
    Equal { count: usize },
}

/// A node on the wire.
#[derive(Debug)]
pub enum WireNode {
    Pane { id: String, pane_id: String },
    Split { id: String, direction: i32, children: Vec<WireChild> },
}

/// A child of a split on the wire; its weight is the product of the factors,
/// from the first to the last.
#[derive(Debug)]
pub struct WireChild {
    pub node: WireNode,
    pub factors: Vec<Weight>,
}

/// The mathematical value of a node on the wire.
pub enum WireModel {
    Pane { id: Seq<char>, pane_id: Seq<char> },
    Split { id: Seq<char>, direction: i32, children: Seq<(WireModel, Seq<Weight>)> },
}

impl WireNode {
    pub open spec fn model(self) -> WireModel
        decreases self,
    {
        match self {
            WireNode::Pane { id, pane_id } => WireModel::Pane { id: id@, pane_id: pane_id@ },
            WireNode::Split { id, direction, children } => WireModel::Split {
                id: id@,
                direction,
                children: Seq::new(
                    children@.len(),
                    |i: int|
                        if 0 <= i < children@.len() {
                            (children@[i].node.model(), children@[i].factors@)
                        } else {
                            (
                                WireModel::Pane { id: Seq::empty(), pane_id: Seq::empty() },
                                Seq::empty(),
                            )
                        },
                ),
            },
        }
    }
}

pub open spec fn child_models(children: Seq<WireChild>) -> Seq<(WireModel, Seq<Weight>)> {
    children.map_values(|c: WireChild| (c.node.model(), c.factors@))
}

/// The number of a direction on the wire.
pub open spec fn direction_number(direction: SplitDirection) -> i32 {
    match direction {
        SplitDirection::LeftRight => 1,
        SplitDirection::TopBottom => 2,
    }
}

/// Whether the ratios of a split say how to share its space out.
pub open spec fn meaningful(ratios: Seq<Ratio>, count: int) -> bool {
    &&& ratios.len() == count
    &&& count > 0
    &&& ratio::total_of(ratios).finite()
    &&& ratio::rank(ratio::total_of(ratios)) > 0
    &&& forall|i: int|
        0 <= i < ratios.len() ==> (#[trigger] ratios[i]).finite() && ratio::rank(ratios[i]) >= 0
}

/// The factor of each child of a split: its part of the total, or an equal
/// share where the ratios mean nothing.
pub open spec fn weights(ratios: Seq<Ratio>, count: nat) -> Seq<Weight> {
    Seq::new(
        count,
        |i: int|
            if meaningful(ratios, count as int) {
                Weight::Share { part: ratios[i], whole: ratio::total_of(ratios) }
            } else {
                Weight::Equal { count: count as usize }
            },
    )
}

/// The node on the wire; the placeholder of a session without panes is none.
pub open spec fn wire(n: NodeModel) -> Option<WireModel>
    decreases n, 0nat,
{
    match n {
        NodeModel::Pane { id, pane_id } => if id.len() == 0 && pane_id.len() == 0 {
            None
        } else {
            Some(WireModel::Pane { id, pane_id })
        },
        NodeModel::Split { id, direction, children, ratios } => Some(
            WireModel::Split {
                id,
                direction: direction_number(direction),
                children: axis_children(
                    children,
                    weights(ratios, children.len()),
                    direction,
                    Seq::empty(),
                ),
            },
        ),
    }
}

/// The children that a node contributes to a split that runs along `along`.
pub open spec fn axis(n: NodeModel, along: SplitDirection, factors: Seq<Weight>) -> Seq<
    (WireModel, Seq<Weight>),
>
    decreases n, 1nat,
{
    if n is Split && n->direction == along {
        axis_children(n->children, weights(n->ratios, n->children.len()), along, factors)
    } else {
        match wire(n) {
            Some(node) => seq![(node, factors)],
            None => Seq::empty(),
        }
    }
}

pub open spec fn axis_children(
    f: Seq<NodeModel>,
    each: Seq<Weight>,
    along: SplitDirection,
    factors: Seq<Weight>,
) -> Seq<(WireModel, Seq<Weight>)>
    decreases f, 0nat,
{
    if f.len() == 0 {
        Seq::empty()
    } else {
        axis_children(f.drop_last(), each, along, factors) + axis(
            f.last(),
            along,
            factors.push(each[f.len() - 1]),
        )
    }
}

fn weights_of(ratios: &Vec<Ratio>, count: usize) -> (each: Vec<Weight>)
    ensures
        each@ == weights(ratios@, count as nat),
{
    let whole: Ratio = total_ratio(ratios);
    let mut fits: bool = ratios.len() == count && count > 0 && whole.is_finite()
        && is_ranked_above_zero(whole);
    let mut i: usize = 0;
    while i < ratios.len()
        invariant
            i <= ratios.len(),
            whole == ratio::total_of(ratios@),
            fits == (ratios.len() == count && count > 0 && whole.finite() && ratio::rank(whole) > 0
                && forall|j: int|
                0 <= j < i ==> (#[trigger] ratios@[j]).finite() && ratio::rank(ratios@[j]) >= 0),
        decreases ratios.len() - i,
    {
        if !ratios[i].is_finite() || is_ranked_above_zero(ratios[i].negate()) {
            proof {
                ratio::lemma_rank_negated(ratios@[i as int]);
            }
            fits = false;
        } else {
            proof {
                ratio::lemma_rank_negated(ratios@[i as int]);
            }
        }
        i = i + 1;
    }
    let mut each: Vec<Weight> = Vec::new();
    let mut k: usize = 0;
    while k < count
        invariant
            k <= count,
            fits == meaningful(ratios@, count as int),
            whole == ratio::total_of(ratios@),
            each.len() == k,
            forall|j: int|
                0 <= j < k ==> #[trigger] each@[j] == weights(ratios@, count as nat)[j],
        decreases count - k,
    {
        if fits {
            each.push(Weight::Share { part: ratios[k], whole });
        } else {
            each.push(Weight::Equal { count });
        }
        k = k + 1;
    }
    proof {
        assert(each@ =~= weights(ratios@, count as nat));
    }
    each
}

fn with_factor(factors: &Vec<Weight>, last: Weight) -> (longer: Vec<Weight>)
    ensures
        longer@ == factors@.push(last),
{
    let mut longer: Vec<Weight> = Vec::new();
    let mut i: usize = 0;
    while i < factors.len()
        invariant
            i <= factors.len(),
            longer@ == factors@.take(i as int),
        decreases factors.len() - i,
    {
        longer.push(factors[i]);
        i = i + 1;
        assert(longer@ =~= factors@.take(i as int));
    }
    assert(factors@.take(factors.len() as int) =~= factors@);
    longer.push(last);
    longer
}

/// Copies factors.
pub fn copy_factors(factors: &Vec<Weight>) -> (copy: Vec<Weight>)
    ensures
        copy@ == factors@,
{
    let mut copy: Vec<Weight> = Vec::new();
    let mut i: usize = 0;
    while i < factors.len()
        invariant
            i <= factors.len(),
            copy@ == factors@.take(i as int),
        decreases factors.len() - i,
    {
        copy.push(factors[i]);
        i = i + 1;
        assert(copy@ =~= factors@.take(i as int));
    }
    assert(factors@.take(factors.len() as int) =~= factors@);
    copy
}

/// Adds the children of a split to a list.
fn append_children(
    children: &Vec<LayoutNode>,
    ratios: &Vec<Ratio>,
    along: SplitDirection,
    factors: &Vec<Weight>,
    list: &mut Vec<WireChild>,
)
    ensures
        child_models(final(list)@) == child_models(old(list)@) + axis_children(
            layout::models(children@),
            weights(ratios@, children.len() as nat),
            along,
            factors@,
        ),
    decreases children, 0nat,
{
    let each: Vec<Weight> = weights_of(ratios, children.len());
    let ghost f = layout::models(children@);
    let mut i: usize = 0;
    proof {
        assert(f.take(0) =~= Seq::<NodeModel>::empty());
        assert(child_models(list@) =~= child_models(old(list)@) + axis_children(
            f.take(0),
            each@,
            along,
            factors@,
        ));
    }
    while i < children.len()
        invariant
            i <= children.len(),
            f == layout::models(children@),
            each@ == weights(ratios@, children.len() as nat),
            child_models(list@) == child_models(old(list)@) + axis_children(
                f.take(i as int),
                each@,
                along,
                factors@,
            ),
        decreases children.len() - i,
    {
        let longer: Vec<Weight> = with_factor(factors, each[i]);
        append_axis(&children[i], along, &longer, list);
        proof {
            assert(f.take(i + 1).drop_last() =~= f.take(i as int));
            assert(f.take(i + 1).last() == children@[i as int].model());
            assert(child_models(list@) =~= child_models(old(list)@) + axis_children(
                f.take(i + 1),
                each@,
                along,
                factors@,
            ));
        }
        i = i + 1;
    }
    proof {
        assert(f.take(children.len() as int) =~= f);
    }
}

/// Adds what a node contributes to a split that runs along `along`.
fn append_axis(
    node: &LayoutNode,
    along: SplitDirection,
    factors: &Vec<Weight>,
    list: &mut Vec<WireChild>,
)
    ensures
        child_models(final(list)@) == child_models(old(list)@) + axis(
            node.model(),
            along,
            factors@,
        ),
    decreases node, 1nat,
{
    proof {
        layout::lemma_split_model(*node);
    }
    if let LayoutNode::Split { id, direction, children, ratios } = node {
        if *direction == along {
            append_children(children, ratios, along, factors, list);
            return;
        }
    }
    let ghost before = list@;
    match to_wire(node) {
        Some(wired) => {
            let child = WireChild { node: wired, factors: copy_factors(factors) };
            list.push(child);
            proof {
                assert(child_models(list@) =~= child_models(before) + seq![
                    (wired.model(), factors@),
                ]);
            }
        },
        None => {
            proof {
                assert(child_models(list@) =~= child_models(before) + Seq::empty());
            }
        },
    }
}

/// The node on the wire.
fn to_wire(node: &LayoutNode) -> (wired: Option<WireNode>)
    ensures
        match wired {
            Some(sent) => wire(node.model()) == Some(sent.model()),
            None => wire(node.model()) is None,
        },
    decreases node, 0nat,
{
    proof {
        layout::lemma_split_model(*node);
    }
    match node {
        LayoutNode::Pane { id, pane_id } => {
            if id.as_str().is_empty() && pane_id.as_str().is_empty() {
                None
            } else {
                Some(WireNode::Pane { id: id.clone(), pane_id: pane_id.clone() })
            }
        },
        LayoutNode::Split { id, direction, children, ratios } => {
            let mut list: Vec<WireChild> = Vec::new();
            let none: Vec<Weight> = Vec::new();
            append_children(children, ratios, *direction, &none, &mut list);
            let number: i32 = match direction {
                SplitDirection::LeftRight => 1,
                SplitDirection::TopBottom => 2,
            };
            let sent = WireNode::Split { id: id.clone(), direction: number, children: list };
            proof {
                assert(none@ =~= Seq::<Weight>::empty());
                assert(child_models(list@) =~= axis_children(
                    layout::models(children@),
                    weights(ratios@, children.len() as nat),
                    *direction,
                    Seq::empty(),
                ));
                assert(sent.model()->children =~= child_models(list@));
            }
            Some(sent)
        },
    }
}

/// The form of a tree that clients get; none while it shows no pane.
pub fn layout_tree_to_wire(tree: &LayoutTree) -> (wired: Option<WireNode>)
    ensures
        match wired {
            Some(sent) => wire(tree@) == Some(sent.model()),
            None => wire(tree@) is None,
        },
{
    to_wire(&tree.root)
}

/// Whether the splits on the wire nest no deeper than `k`.
pub open spec fn nests_within(x: WireModel, k: int) -> bool
    decreases x,
{
    match x {
        WireModel::Pane { id, pane_id } => k >= 0,
        WireModel::Split { id, direction, children } => k >= 1 && forall|i: int|
            0 <= i < children.len() ==> nests_within((#[trigger] children[i]).0, k - 1),
    }
}

spec fn all_within(list: Seq<(WireModel, Seq<Weight>)>, k: int) -> bool {
    forall|i: int| 0 <= i < list.len() ==> nests_within((#[trigger] list[i]).0, k)
}

proof fn lemma_wire_within(
    n: NodeModel,
    depth: int,
    level: int,
    parent: Option<SplitDirection>,
    max_wire: int,
)
    requires
        layout_model::shaped(n, depth, level, parent, max_wire),
        level <= max_wire,
        n is Split ==> parent != Some(n->direction),
    ensures
        wire(n) matches Some(x) ==> nests_within(x, max_wire - level),
    decreases n, 0nat,
{
    if let NodeModel::Split { id, direction, children, ratios } = n {
        lemma_axis_children_within(
            children,
            weights(ratios, children.len()),
            direction,
            Seq::empty(),
            depth + 1,
            level + 1,
            max_wire,
        );
    }
}

proof fn lemma_axis_within(
    n: NodeModel,
    along: SplitDirection,
    factors: Seq<Weight>,
    depth: int,
    level: int,
    max_wire: int,
)
    requires
        layout_model::shaped(n, depth, level, Some(along), max_wire),
        level <= max_wire,
    ensures
        all_within(axis(n, along, factors), max_wire - level),
    decreases n, 1nat,
{
    if n is Split && n->direction == along {
        lemma_axis_children_within(
            n->children,
            weights(n->ratios, n->children.len()),
            along,
            factors,
            depth + 1,
            level,
            max_wire,
        );
    } else {
        lemma_wire_within(n, depth, level, Some(along), max_wire);
    }
}

proof fn lemma_axis_children_within(
    f: Seq<NodeModel>,
    each: Seq<Weight>,
    along: SplitDirection,
    factors: Seq<Weight>,
    depth: int,
    level: int,
    max_wire: int,
)
    requires
        layout_model::forest_shaped(f, depth, level, along, max_wire),
        level <= max_wire,
    ensures
        all_within(axis_children(f, each, along, factors), max_wire - level),
    decreases f, 0nat,
{
    if f.len() > 0 {
        lemma_axis_children_within(f.drop_last(), each, along, factors, depth, level, max_wire);
        lemma_axis_within(
            f.last(),
            along,
            factors.push(each[f.len() - 1]),
            depth,
            level,
            max_wire,
        );
        let a = axis_children(f.drop_last(), each, along, factors);
        let b = axis(f.last(), along, factors.push(each[f.len() - 1]));
        assert forall|i: int| 0 <= i < (a + b).len() implies nests_within(
            (#[trigger] (a + b)[i]).0,
            max_wire - level,
        ) by {
            if i < a.len() {
                assert(nests_within(a[i].0, max_wire - level));
            } else {
                assert(nests_within(b[i - a.len()].0, max_wire - level));
            }
        }
    }
}

/// A sound tree nests on the wire no deeper than it may.
pub proof fn law_sound_tree_fits_the_wire(n: NodeModel, max_wire: int)
    requires
        0 <= max_wire,
        layout_model::sound(n, max_wire),
    ensures
        wire(n) is Some,
        nests_within(wire(n)->0, max_wire),
{
    lemma_wire_within(n, 0, 0, None, max_wire);
}

/// The panes of a node on the wire, in order.
pub open spec fn wire_panes(x: WireModel) -> Seq<Seq<char>>
    decreases x,
{
    match x {
        WireModel::Pane { id, pane_id } => seq![pane_id],
        WireModel::Split { id, direction, children } => list_panes(children),
    }
}

pub open spec fn list_panes(list: Seq<(WireModel, Seq<Weight>)>) -> Seq<Seq<char>>
    decreases list,
{
    if list.len() == 0 {
        Seq::empty()
    } else {
        list_panes(list.drop_last()) + wire_panes(list.last().0)
    }
}

proof fn lemma_list_panes_concat(
    a: Seq<(WireModel, Seq<Weight>)>,
    b: Seq<(WireModel, Seq<Weight>)>,
)
    ensures
        list_panes(a + b) == list_panes(a) + list_panes(b),
    decreases b.len(),
{
    if b.len() == 0 {
        assert(a + b =~= a);
        assert(list_panes(a) + list_panes(b) =~= list_panes(a));
    } else {
        lemma_list_panes_concat(a, b.drop_last());
        assert((a + b).drop_last() =~= a + b.drop_last());
        assert((a + b).last() == b.last());
        assert(list_panes(a + b) =~= list_panes(a) + list_panes(b));
    }
}

proof fn lemma_wire_panes(
    n: NodeModel,
    depth: int,
    level: int,
    parent: Option<SplitDirection>,
    max_wire: int,
)
    requires
        layout_model::shaped(n, depth, level, parent, max_wire),
    ensures
        wire(n) is Some,
        wire_panes(wire(n)->0) == layout_model::pane_ids(n),
    decreases n, 0nat,
{
    if let NodeModel::Split { id, direction, children, ratios } = n {
        lemma_axis_children_panes(
            children,
            weights(ratios, children.len()),
            direction,
            Seq::empty(),
            depth + 1,
            layout_model::wire_below(level, parent, direction),
            direction,
            max_wire,
        );
    }
}

proof fn lemma_axis_children_panes(
    f: Seq<NodeModel>,
    each: Seq<Weight>,
    along: SplitDirection,
    factors: Seq<Weight>,
    depth: int,
    level: int,
    parent: SplitDirection,
    max_wire: int,
)
    requires
        layout_model::forest_shaped(f, depth, level, parent, max_wire),
    ensures
        list_panes(axis_children(f, each, along, factors)) == layout_model::forest_pane_ids(f),
    decreases f, 0nat,
{
    if f.len() > 0 {
        let init = f.drop_last();
        let last = f.last();
        let longer = factors.push(each[f.len() - 1]);
        lemma_axis_children_panes(init, each, along, factors, depth, level, parent, max_wire);
        lemma_axis_panes(last, along, longer, depth, level, parent, max_wire);
        lemma_list_panes_concat(
            axis_children(init, each, along, factors),
            axis(last, along, longer),
        );
    }
}

proof fn lemma_axis_panes(
    n: NodeModel,
    along: SplitDirection,
    factors: Seq<Weight>,
    depth: int,
    level: int,
    parent: SplitDirection,
    max_wire: int,
)
    requires
        layout_model::shaped(n, depth, level, Some(parent), max_wire),
    ensures
        list_panes(axis(n, along, factors)) == layout_model::pane_ids(n),
    decreases n, 1nat,
{
    if n is Split && n->direction == along {
        lemma_axis_children_panes(
            n->children,
            weights(n->ratios, n->children.len()),
            along,
            factors,
            depth + 1,
            layout_model::wire_below(level, Some(parent), n->direction),
            n->direction,
            max_wire,
        );
    } else {
        lemma_wire_panes(n, depth, level, Some(parent), max_wire);
        let one = axis(n, along, factors);
        assert(one.drop_last() =~= Seq::<(WireModel, Seq<Weight>)>::empty());
        assert(list_panes(one.drop_last()) =~= Seq::<Seq<char>>::empty());
        assert(list_panes(one) =~= layout_model::pane_ids(n));
    }
}

/// Clients see the panes of a sound tree in the tree's own order.
pub proof fn law_wire_keeps_panes(n: NodeModel, max_wire: int)
    requires
        layout_model::sound(n, max_wire),
    ensures
        wire(n) is Some,
        wire_panes(wire(n)->0) == layout_model::pane_ids(n),
{
    lemma_wire_panes(n, 0, 0, None, max_wire);
}

/// Whether no split on the wire is a child of one that runs as it does.
pub open spec fn alternates(w: WireModel) -> bool
    decreases w,
{
    match w {
        WireModel::Pane { id, pane_id } => true,
        WireModel::Split { id, direction, children } => forall|i: int|
            0 <= i < children.len() ==> crosses((#[trigger] children[i]).0, direction)
                && alternates(children[i].0),
    }
}

/// Whether a node on the wire is no split that runs in a direction.
pub open spec fn crosses(w: WireModel, direction: i32) -> bool {
    w is Split ==> w->direction != direction
}

proof fn lemma_wire_alternates(n: NodeModel)
    ensures
        wire(n) matches Some(w) ==> alternates(w),
    decreases n, 0nat,
{
    if let NodeModel::Split { id, direction, children, ratios } = n {
        lemma_axis_children_alternate(
            children,
            weights(ratios, children.len()),
            direction,
            Seq::empty(),
        );
        let w = wire(n)->0;
        assert(w->children == axis_children(
            children,
            weights(ratios, children.len()),
            direction,
            Seq::empty(),
        ));
    }
}

proof fn lemma_axis_alternates(n: NodeModel, along: SplitDirection, factors: Seq<Weight>)
    ensures
        forall|i: int|
            0 <= i < axis(n, along, factors).len() ==> crosses(
                (#[trigger] axis(n, along, factors)[i]).0,
                direction_number(along),
            ) && alternates(axis(n, along, factors)[i].0),
    decreases n, 1nat,
{
    if n is Split && n->direction == along {
        lemma_axis_children_alternate(
            n->children,
            weights(n->ratios, n->children.len()),
            along,
            factors,
        );
        assert(axis(n, along, factors) == axis_children(
            n->children,
            weights(n->ratios, n->children.len()),
            along,
            factors,
        ));
    } else {
        lemma_wire_alternates(n);
        let own = axis(n, along, factors);
        match wire(n) {
            Some(node) => {
                assert(own =~= seq![(node, factors)]);
                if n is Split {
                    assert(node->direction == direction_number(n->direction));
                }
                assert(crosses(node, direction_number(along)));
            },
            None => {
                assert(own =~= Seq::empty());
            },
        }
    }
}

proof fn lemma_axis_children_alternate(
    f: Seq<NodeModel>,
    each: Seq<Weight>,
    along: SplitDirection,
    factors: Seq<Weight>,
)
    ensures
        forall|i: int|
            0 <= i < axis_children(f, each, along, factors).len() ==> crosses(
                (#[trigger] axis_children(f, each, along, factors)[i]).0,
                direction_number(along),
            ) && alternates(axis_children(f, each, along, factors)[i].0),
    decreases f, 0nat,
{
    if f.len() > 0 {
        let longer = factors.push(each[f.len() - 1]);
        lemma_axis_children_alternate(f.drop_last(), each, along, factors);
        lemma_axis_alternates(f.last(), along, longer);
        let before = axis_children(f.drop_last(), each, along, factors);
        let own = axis(f.last(), along, longer);
        let all = axis_children(f, each, along, factors);
        assert(all == before + own);
        assert forall|i: int| 0 <= i < all.len() implies crosses(
            (#[trigger] all[i]).0,
            direction_number(along),
        ) && alternates(all[i].0) by {
            if i < before.len() {
                assert(all[i] == before[i]);
            } else {
                assert(all[i] == own[i - before.len()]);
            }
        }
    }
}

/// On the wire no split is a child of one that runs as it does: such splits are
/// merged.
pub proof fn law_wire_merges_splits(n: NodeModel)
    ensures
        wire(n) matches Some(w) ==> alternates(w),
{
    lemma_wire_alternates(n);
}

proof fn lemma_crossing_children(
    f: Seq<NodeModel>,
    each: Seq<Weight>,
    along: SplitDirection,
    factors: Seq<Weight>,
)
    requires
        forall|j: int|
            0 <= j < f.len() ==> wire(#[trigger] f[j]) is Some && !(f[j] is Split && f[j]->direction
                == along),
    ensures
        axis_children(f, each, along, factors).len() == f.len(),
        forall|j: int|
            0 <= j < f.len() ==> #[trigger] axis_children(f, each, along, factors)[j] == (
                wire(f[j])->0,
                factors.push(each[j]),
            ),
    decreases f.len(),
{
    if f.len() > 0 {
        let init = f.drop_last();
        assert forall|j: int| 0 <= j < init.len() implies wire(#[trigger] init[j]) is Some && !(
        init[j] is Split && init[j]->direction == along) by {
            assert(init[j] == f[j]);
        }
        lemma_crossing_children(init, each, along, factors);
        let last = f[f.len() - 1];
        assert(wire(last) is Some);
        let own = axis(last, along, factors.push(each[f.len() - 1]));
        assert(own =~= seq![(wire(last)->0, factors.push(each[f.len() - 1]))]);
        let before = axis_children(init, each, along, factors);
        let all = axis_children(f, each, along, factors);
        assert(all == before + own);
        assert forall|j: int| 0 <= j < f.len() implies #[trigger] all[j] == (
            wire(f[j])->0,
            factors.push(each[j]),
        ) by {
            if j < init.len() {
                assert(all[j] == before[j]);
                assert(init[j] == f[j]);
            } else {
                assert(all[j] == own[0]);
            }
        }
    }
}

/// Whether the ratios of a split can be taken as parts of a whole: there is one
/// for each child, none is below zero, and their sum is above it.
pub open spec fn are_parts(ratios: Seq<Ratio>, count: int) -> bool {
    &&& ratios.len() == count
    &&& ratio::total_of(ratios).finite()
    &&& ratio::total_of(ratios).value() > 0
    &&& forall|j: int|
        0 <= j < ratios.len() ==> (#[trigger] ratios[j]).finite() && ratios[j].value() >= 0
}

/// Whether a factor is the one that a split gives to its child at a place: the
/// ratio of that same child over the sum of the ratios, or one over the number
/// of children where the ratios are no parts of a whole.
pub open spec fn is_own_factor(factor: Weight, split: NodeModel, i: int) -> bool {
    if are_parts(split->ratios, split->children.len() as int) {
        factor matches Weight::Share { part, whole } && part == split->ratios[i] && whole
            == ratio::total_of(split->ratios)
    } else {
        factor matches Weight::Equal { count } && count == split->children.len()
    }
}

proof fn lemma_own_factor(n: NodeModel, i: int)
    requires
        n is Split,
        n->children.len() <= usize::MAX,
        0 <= i < n->children.len(),
    ensures
        is_own_factor(weights(n->ratios, n->children.len())[i], n, i),
{
    let ratios = n->ratios;
    let zero = Ratio { bits: 0 };
    let total = ratio::total_of(ratios);
    ratio::lemma_zero();
    if total.finite() {
        ratio::law_order_is_that_of_the_values(total, zero);
    }
    assert forall|j: int| 0 <= j < ratios.len() && (#[trigger] ratios[j]).finite() implies (
    ratio::rank(ratios[j]) >= 0 <==> ratios[j].value() >= 0) by {
        ratio::law_order_is_that_of_the_values(zero, ratios[j]);
    }
    assert(are_parts(ratios, n->children.len() as int) <==> meaningful(
        ratios,
        n->children.len() as int,
    ));
}

/// On the wire a split has its own identifier and direction. Where none of its
/// children runs as it does, its children are those of the tree, in their
/// order, and each has one factor: its own ratio over the sum of the ratios.
pub proof fn law_children_get_their_own_share(n: NodeModel, i: int)
    requires
        n is Split,
        n->children.len() <= usize::MAX,
        0 <= i < n->children.len(),
        forall|j: int|
            0 <= j < n->children.len() ==> wire(#[trigger] n->children[j]) is Some && !(
            n->children[j] is Split && n->children[j]->direction == n->direction),
    ensures
        wire(n) matches Some(w) && {
            &&& w is Split
            &&& w->Split_id == n->Split_id
            &&& w->direction == 1 <==> n->direction is LeftRight
            &&& w->direction == 2 <==> n->direction is TopBottom
            &&& w->children.len() == n->children.len()
            &&& wire(n->children[i]) == Some(w->children[i].0)
            &&& w->children[i].1.len() == 1
            &&& is_own_factor(w->children[i].1[0], n, i)
        },
{
    let each = weights(n->ratios, n->children.len());
    lemma_crossing_children(n->children, each, n->direction, Seq::empty());
    lemma_own_factor(n, i);
    let w = wire(n)->0;
    assert(w->children == axis_children(n->children, each, n->direction, Seq::empty()));
    assert(w->children[i] == (wire(n->children[i])->0, Seq::<Weight>::empty().push(each[i])));
}

/// What a child adds to a split that runs along `along` and gives it a factor:
/// itself under that factor, or, where it runs as the split does, what it would
/// have as its own children, each under that factor and then its own.
pub open spec fn contribution(child: NodeModel, along: SplitDirection, factor: Weight) -> Seq<
    (WireModel, Seq<Weight>),
> {
    match wire(child) {
        None => Seq::empty(),
        Some(w) => if child is Split && child->direction == along {
            w->children.map_values(
                |c: (WireModel, Seq<Weight>)| (c.0, seq![factor] + c.1),
            )
        } else {
            seq![(w, seq![factor])]
        },
    }
}

spec fn below_factors(list: Seq<(WireModel, Seq<Weight>)>, factors: Seq<Weight>) -> Seq<
    (WireModel, Seq<Weight>),
> {
    list.map_values(|c: (WireModel, Seq<Weight>)| (c.0, factors + c.1))
}

proof fn lemma_axis_below(n: NodeModel, along: SplitDirection, factors: Seq<Weight>, more: Seq<Weight>)
    ensures
        axis(n, along, factors + more) == below_factors(axis(n, along, more), factors),
    decreases n, 1nat,
{
    if n is Split && n->direction == along {
        lemma_axis_children_below(
            n->children,
            weights(n->ratios, n->children.len()),
            along,
            factors,
            more,
        );
    } else {
        assert(axis(n, along, factors + more) =~= below_factors(axis(n, along, more), factors));
    }
}

proof fn lemma_axis_children_below(
    f: Seq<NodeModel>,
    each: Seq<Weight>,
    along: SplitDirection,
    factors: Seq<Weight>,
    more: Seq<Weight>,
)
    ensures
        axis_children(f, each, along, factors + more) == below_factors(
            axis_children(f, each, along, more),
            factors,
        ),
    decreases f, 0nat,
{
    if f.len() > 0 {
        let next = each[f.len() - 1];
        lemma_axis_children_below(f.drop_last(), each, along, factors, more);
        lemma_axis_below(f.last(), along, factors, more.push(next));
        assert((factors + more).push(next) =~= factors + more.push(next));
    }
    assert(axis_children(f, each, along, factors + more) =~= below_factors(
        axis_children(f, each, along, more),
        factors,
    ));
}

proof fn lemma_contribution(n: NodeModel, along: SplitDirection, factor: Weight)
    ensures
        axis(n, along, seq![factor]) == contribution(n, along, factor),
{
    if n is Split && n->direction == along {
        lemma_axis_below(n, along, seq![factor], Seq::empty());
        assert(seq![factor] + Seq::<Weight>::empty() =~= seq![factor]);
        assert(axis(n, along, seq![factor]) =~= contribution(n, along, factor));
    }
}

/// Whether a list is made of what each of these nodes adds, one after the
/// other, up to these places.
pub open spec fn made_of(
    list: Seq<(WireModel, Seq<Weight>)>,
    starts: Seq<int>,
    f: Seq<NodeModel>,
    along: SplitDirection,
    each: Seq<Weight>,
) -> bool {
    &&& starts.len() == f.len() + 1
    &&& starts[0] == 0
    &&& starts[f.len() as int] == list.len()
    &&& forall|i: int|
        0 <= i < f.len() ==> 0 <= #[trigger] starts[i] <= starts[i + 1] <= list.len()
            && list.subrange(starts[i], starts[i + 1]) == contribution(f[i], along, each[i])
}

proof fn lemma_made_of(f: Seq<NodeModel>, each: Seq<Weight>, along: SplitDirection) -> (starts: Seq<
    int,
>)
    ensures
        made_of(axis_children(f, each, along, Seq::empty()), starts, f, along, each),
    decreases f.len(),
{
    let list = axis_children(f, each, along, Seq::empty());
    if f.len() == 0 {
        seq![0]
    } else {
        let init = f.drop_last();
        let before = axis_children(init, each, along, Seq::empty());
        let earlier = lemma_made_of(init, each, along);
        let starts = earlier.push(list.len() as int);
        lemma_contribution(f.last(), along, each[f.len() - 1]);
        assert(Seq::<Weight>::empty().push(each[f.len() - 1]) =~= seq![each[f.len() - 1]]);
        let own = contribution(f.last(), along, each[f.len() - 1]);
        assert(list == before + own);
        assert forall|i: int| 0 <= i < f.len() implies 0 <= #[trigger] starts[i] <= starts[i + 1]
            <= list.len() && list.subrange(starts[i], starts[i + 1]) == contribution(
            f[i],
            along,
            each[i],
        ) by {
            if i < init.len() {
                assert(earlier[i] == starts[i] && earlier[i + 1] == starts[i + 1]);
                assert(init[i] == f[i]);
                assert(list.subrange(starts[i], starts[i + 1]) =~= before.subrange(
                    earlier[i],
                    earlier[i + 1],
                ));
            } else {
                assert(starts[i] == before.len());
                assert(list.subrange(starts[i], starts[i + 1]) =~= own);
            }
        }
        starts
    }
}

/// The children of a split on the wire are what its children in the tree add,
/// one after the other: a child that runs as the split does adds what would be
/// its own children, with its own factor before theirs, and any other child
/// adds itself.
pub proof fn law_merged_children_keep_their_shares(n: NodeModel)
    requires
        n is Split,
        n->children.len() <= usize::MAX,
    ensures
        wire(n) matches Some(w) && w is Split && exists|starts: Seq<int>, each: Seq<Weight>| #[trigger]
            made_of(w->children, starts, n->children, n->direction, each) && each.len()
                == n->children.len() && forall|i: int|
                0 <= i < each.len() ==> is_own_factor(#[trigger] each[i], n, i),
{
    let each = weights(n->ratios, n->children.len());
    let starts = lemma_made_of(n->children, each, n->direction);
    assert forall|i: int| 0 <= i < each.len() implies is_own_factor(#[trigger] each[i], n, i) by {
        lemma_own_factor(n, i);
    }
    assert(made_of(wire(n)->0->children, starts, n->children, n->direction, each));
}

/// A pane is on the wire as it is; only the placeholder of a session without
/// panes is not there.
pub proof fn law_panes_go_as_they_are(id: Seq<char>, pane_id: Seq<char>)
    ensures
        id.len() > 0 || pane_id.len() > 0 ==> wire(NodeModel::Pane { id, pane_id }) == Some(
            (WireModel::Pane { id, pane_id }),
        ),
        id.len() == 0 && pane_id.len() == 0 ==> wire(NodeModel::Pane { id, pane_id }) is None,
{
}

} // verus!
