use mux_server::layout::{validate_structure, LayoutError, LayoutNode, LayoutTree, SplitDirection};
use mux_server::layout_wire::{layout_tree_to_wire, Weight, WireNode};
use mux_server::ratio::{resize_shares, total_ratio, Ratio};

const MAX_WIRE: usize = 30;

fn ratio(value: f32) -> Ratio {
    Ratio {
        bits: value.to_bits(),
    }
}

fn number(ratio: Ratio) -> f32 {
    f32::from_bits(ratio.bits)
}

fn samples() -> Vec<f32> {
    let mut samples = vec![
        0.0,
        -0.0,
        1.0,
        -1.0,
        0.5,
        0.05,
        0.1,
        1.0 / 3.0,
        f32::MIN_POSITIVE,
        f32::from_bits(1),
        f32::from_bits(0x007f_ffff),
        f32::MAX,
        -f32::MAX,
        f32::INFINITY,
        f32::NEG_INFINITY,
        1.0e-30,
        16_777_215.0,
        16_777_216.0,
    ];
    let mut state: u32 = 0x1234_5678;
    for _ in 0..600 {
        state = state.wrapping_mul(1_664_525).wrapping_add(1_013_904_223);
        let value = f32::from_bits(state);
        if !value.is_nan() {
            samples.push(value);
        }
        // Values of similar size.
        samples.push(f32::from_bits(0x3f00_0000 | (state >> 9)));
    }
    samples
}

#[test]
fn adding_ratios_is_adding_floats() {
    let samples = samples();
    for (i, a) in samples.iter().enumerate() {
        for b in samples.iter().skip(i % 7).step_by(7) {
            let sum = number(ratio(*a).add_ratio(ratio(*b)));
            let expected = a + b;
            if expected.is_nan() {
                assert!(sum.is_nan(), "{a:e} + {b:e}");
            } else {
                assert_eq!(sum.to_bits(), expected.to_bits(), "{a:e} + {b:e}");
            }
        }
        assert_eq!(ratio(*a).negate().bits, (-a).to_bits());
        assert_eq!(ratio(*a).is_finite(), a.is_finite());
        assert_eq!(ratio(*a).is_share(), a.is_finite() && *a > 0.0);
    }
}

#[test]
fn the_total_of_ratios_is_the_sum_of_floats() {
    let samples = samples();
    for chunk in samples.chunks(5) {
        let sum: f32 = chunk.iter().sum();
        let total = number(total_ratio(&chunk.iter().map(|x| ratio(*x)).collect()));
        if sum.is_nan() {
            assert!(total.is_nan());
        } else {
            assert_eq!(total.to_bits(), sum.to_bits());
        }
    }
}

#[test]
fn resizing_shares_is_clamping_floats() {
    for own in [0.5f32, 0.25, 0.9, 0.01, 1.0e-3, 0.333, 3.0] {
        for neighbor in [0.5f32, 0.75, 0.1, 0.01, 2.0, 0.667] {
            for delta in [0.0f32, 0.1, -0.1, 0.2, -0.45, 5.0, -5.0, 1.0e-9, f32::MAX] {
                let pair_total = own + neighbor;
                let minimum = (pair_total / 2.0).min(0.05);
                let resized = (own + delta).clamp(minimum, pair_total - minimum);
                let (a, b) = resize_shares(ratio(own), ratio(neighbor), ratio(delta));
                assert_eq!(number(a), resized, "{own} {neighbor} {delta}");
                assert_eq!(number(b), pair_total - resized, "{own} {neighbor} {delta}");
            }
        }
    }
}

fn tree() -> LayoutTree {
    LayoutTree::with_pane("node-1".to_string(), "one".to_string())
}

fn split(tree: &mut LayoutTree, pane: &str, new: &str, direction: SplitDirection) {
    tree.split(pane, new.to_string(), direction, MAX_WIRE)
        .expect("split");
}

#[test]
fn splitting_and_removing_gives_the_panes_back() {
    let mut layout = tree();
    split(&mut layout, "one", "two", SplitDirection::LeftRight);
    split(&mut layout, "two", "three", SplitDirection::TopBottom);
    assert_eq!(layout.pane_ids(), vec!["one", "two", "three"]);
    assert!(validate_structure(&layout.root, MAX_WIRE).is_ok());
    layout.remove_pane("three", MAX_WIRE).expect("removed");
    assert_eq!(layout.pane_ids(), vec!["one", "two"]);
    layout.remove_pane("one", MAX_WIRE).expect("removed");
    assert_eq!(layout.pane_ids(), vec!["two"]);
    assert_eq!(
        layout.remove_pane("two", MAX_WIRE).err(),
        Some(LayoutError::SoleRootPane)
    );
    assert_eq!(layout.pane_ids(), vec!["two"]);
    assert_eq!(
        layout.remove_pane("gone", MAX_WIRE).err(),
        Some(LayoutError::PaneNotFound)
    );
}

#[test]
fn what_a_layout_does_not_take_leaves_it_alone() {
    let mut layout = tree();
    split(&mut layout, "one", "two", SplitDirection::LeftRight);
    let before = format!("{layout:?}");
    let refusals = [
        (
            layout
                .split("one", String::new(), SplitDirection::LeftRight, MAX_WIRE)
                .err(),
            LayoutError::EmptyNewPaneId,
        ),
        (
            layout
                .split("one", "two".to_string(), SplitDirection::LeftRight, MAX_WIRE)
                .err(),
            LayoutError::PaneAlreadyExists,
        ),
        (
            layout
                .split("gone", "new".to_string(), SplitDirection::LeftRight, MAX_WIRE)
                .err(),
            LayoutError::PaneNotFound,
        ),
        (
            layout
                .split("one", "new".to_string(), SplitDirection::TopBottom, 1)
                .err(),
            LayoutError::WireDepth,
        ),
        (
            layout
                .resize_pane("one", SplitDirection::TopBottom, ratio(0.1), MAX_WIRE)
                .err(),
            LayoutError::NoMatchingSplit,
        ),
        (
            layout
                .resize_pane("one", SplitDirection::LeftRight, ratio(f32::INFINITY), MAX_WIRE)
                .err(),
            LayoutError::NonFiniteDelta,
        ),
    ];
    for (error, expected) in refusals {
        assert_eq!(error, Some(expected));
    }
    assert_eq!(format!("{layout:?}"), before);
}

#[test]
fn a_broken_tree_is_told() {
    let pane = |id: &str, pane_id: &str| LayoutNode::Pane {
        id: id.to_string(),
        pane_id: pane_id.to_string(),
    };
    let split = |id: &str, children: Vec<LayoutNode>, ratios: Vec<Ratio>| LayoutNode::Split {
        id: id.to_string(),
        direction: SplitDirection::LeftRight,
        children,
        ratios,
    };
    let half = || vec![ratio(0.5), ratio(0.5)];
    let cases = vec![
        (pane("", "p"), LayoutError::EmptyNodeId),
        (pane("n", ""), LayoutError::EmptyPaneId),
        (
            split("s", vec![pane("a", "p"), pane("a", "q")], half()),
            LayoutError::DuplicateNodeId,
        ),
        (
            split("s", vec![pane("a", "p"), pane("b", "p")], half()),
            LayoutError::DuplicatePaneId,
        ),
        (
            split("s", vec![pane("a", "p")], vec![ratio(1.0)]),
            LayoutError::TooFewChildren,
        ),
        (
            split("s", vec![pane("a", "p"), pane("b", "q")], vec![ratio(1.0)]),
            LayoutError::MismatchedRatios,
        ),
        (
            split(
                "s",
                vec![pane("a", "p"), pane("b", "q")],
                vec![ratio(0.5), ratio(0.0)],
            ),
            LayoutError::InvalidRatio,
        ),
        (
            split(
                "s",
                vec![pane("a", "p"), pane("b", "q")],
                vec![ratio(f32::MAX), ratio(f32::MAX)],
            ),
            LayoutError::InvalidRatioSum,
        ),
    ];
    for (root, expected) in cases {
        assert_eq!(validate_structure(&root, MAX_WIRE).err(), Some(expected));
    }
}

#[test]
fn a_saved_tree_is_loaded_back() {
    let mut layout = tree();
    split(&mut layout, "one", "two", SplitDirection::LeftRight);
    split(&mut layout, "one", "three", SplitDirection::TopBottom);
    layout
        .resize_pane("one", SplitDirection::TopBottom, ratio(0.125), MAX_WIRE)
        .expect("resized");
    let loaded = LayoutTree::from_persisted(&layout.to_persisted(), MAX_WIRE).expect("loaded");
    assert_eq!(format!("{loaded:?}"), format!("{layout:?}"));
}

#[test]
fn a_nested_split_of_the_same_direction_is_flat_on_the_wire() {
    let mut layout = tree();
    split(&mut layout, "one", "two", SplitDirection::LeftRight);
    split(&mut layout, "two", "three", SplitDirection::LeftRight);
    match layout_tree_to_wire(&layout).expect("root") {
        WireNode::Split {
            direction, children, ..
        } => {
            assert_eq!(direction, 1);
            assert_eq!(children.len(), 3);
            let shares: Vec<f32> = children
                .iter()
                .map(|child| {
                    child
                        .factors
                        .iter()
                        .map(|factor| match factor {
                            Weight::Share { part, whole } => number(*part) / number(*whole),
                            Weight::Equal { count } => 1.0 / *count as f32,
                        })
                        .product()
                })
                .collect();
            assert_eq!(shares, vec![0.5, 0.25, 0.25]);
        }
        other => panic!("{other:?}"),
    }
    assert!(layout_tree_to_wire(&LayoutTree::empty()).is_none());
}

#[test]
fn panes_keep_their_order() {
    let mut layout = tree();
    split(&mut layout, "one", "four", SplitDirection::LeftRight);
    split(&mut layout, "one", "two", SplitDirection::TopBottom);
    split(&mut layout, "two", "three", SplitDirection::LeftRight);
    // A new pane stands behind the one that was split.
    assert_eq!(layout.pane_ids(), vec!["one", "two", "three", "four"]);
    let before = format!("{:?}", layout.root);

    // Taking it away again undoes the split.
    split(&mut layout, "three", "five", SplitDirection::TopBottom);
    assert_eq!(layout.pane_ids(), vec!["one", "two", "three", "five", "four"]);
    layout.remove_pane("five", MAX_WIRE).expect("removed");
    assert_eq!(format!("{:?}", layout.root), before);

    // The others stay where they are.
    layout.remove_pane("two", MAX_WIRE).expect("removed");
    assert_eq!(layout.pane_ids(), vec!["one", "three", "four"]);
    layout.remove_pane("one", MAX_WIRE).expect("removed");
    assert_eq!(layout.pane_ids(), vec!["three", "four"]);
}
