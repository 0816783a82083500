use mux_server::coalescing::{
    AdaptiveCoalescer, CoalescingTier, KeyboardActivity, PathDebouncer, HIGH_THROUGHPUT_BYTE_RATE_FLOOR,
    HIGH_THROUGHPUT_DELAY, HIGH_THROUGHPUT_SUSTAIN, INTERACTIVE_BYTE_RATE_CEILING,
    KEYBOARD_ACTIVE_WINDOW, NORMAL_DELAY, RATE_WINDOW,
};

const MS: u64 = 1_000_000;
const US: u64 = 1_000;
const START: u64 = 50_000 * MS;

/// The least number of bytes whose rate over the window reaches a rate.
fn bytes_for_rate(bytes_per_second: f64) -> usize {
    let window_seconds = RATE_WINDOW as f64 / 1e9;
    let mut bytes = (bytes_per_second * window_seconds).ceil() as usize;
    while (bytes as f64) / window_seconds < bytes_per_second {
        bytes += 1;
    }
    bytes
}

fn floor() -> f64 {
    HIGH_THROUGHPUT_BYTE_RATE_FLOOR as f64
}

fn ceiling() -> f64 {
    INTERACTIVE_BYTE_RATE_CEILING as f64
}

#[test]
fn new_coalescer_starts_in_normal_tier() {
    let coalescer = AdaptiveCoalescer::new();
    assert_eq!(coalescer.tier(), CoalescingTier::Normal);
    assert_eq!(coalescer.delay(), NORMAL_DELAY);
}

#[test]
fn keyboard_active_and_low_rate_is_interactive_zero_delay() {
    let mut keyboard = KeyboardActivity::new();
    let mut coalescer = AdaptiveCoalescer::new();

    keyboard.note_input_at(START);
    let delay = coalescer.on_output_at(START + MS, 8, &keyboard);

    assert_eq!(coalescer.tier(), CoalescingTier::Interactive);
    assert_eq!(delay, 0);
}

#[test]
fn interactive_tier_boundary_is_four_kilobytes_per_second() {
    let mut keyboard = KeyboardActivity::new();

    let mut below = AdaptiveCoalescer::new();
    keyboard.note_input_at(START);
    below.on_output_at(START, bytes_for_rate(ceiling()) - 1, &keyboard);
    assert!((below.byte_rate() as f64) < ceiling());
    assert_eq!(below.tier(), CoalescingTier::Interactive);
    assert_eq!(below.delay(), 0);

    let mut at_ceiling = AdaptiveCoalescer::new();
    at_ceiling.on_output_at(START, bytes_for_rate(ceiling()), &keyboard);
    assert!(at_ceiling.byte_rate() as f64 >= ceiling());
    assert_eq!(
        at_ceiling.tier(),
        CoalescingTier::Normal,
        "at 4KB/s the pane is no longer interactive even with the keyboard active"
    );
    assert_eq!(at_ceiling.delay(), NORMAL_DELAY);
}

#[test]
fn low_rate_without_keyboard_is_normal_two_milliseconds() {
    let mut coalescer = AdaptiveCoalescer::new();

    let delay = coalescer.on_output_at(START, 16, &KeyboardActivity::new());

    assert_eq!(coalescer.tier(), CoalescingTier::Normal);
    assert_eq!(delay, 2 * MS);
}

#[test]
fn keyboard_activity_expires_and_drops_back_to_normal() {
    let mut keyboard = KeyboardActivity::new();
    let mut coalescer = AdaptiveCoalescer::new();
    keyboard.note_input_at(START);

    coalescer.on_output_at(START + KEYBOARD_ACTIVE_WINDOW - MS, 8, &keyboard);
    assert_eq!(coalescer.tier(), CoalescingTier::Interactive);

    coalescer.on_output_at(START + KEYBOARD_ACTIVE_WINDOW, 8, &keyboard);
    assert_eq!(coalescer.tier(), CoalescingTier::Normal);
}

#[test]
fn high_throughput_requires_five_hundred_milliseconds_sustained() {
    let keyboard = KeyboardActivity::new();
    let mut coalescer = AdaptiveCoalescer::new();
    let chunk = bytes_for_rate(floor() * 1.5);

    for step in 0..=8u64 {
        let now = START + step * 50 * MS;
        coalescer.on_output_at(now, chunk, &keyboard);
        assert!(coalescer.byte_rate() as f64 >= floor());
        assert_eq!(
            coalescer.tier(),
            CoalescingTier::Normal,
            "still Normal at {}ms of sustained high rate",
            step * 50
        );
    }

    coalescer.on_output_at(START + HIGH_THROUGHPUT_SUSTAIN, chunk, &keyboard);
    assert_eq!(coalescer.tier(), CoalescingTier::Normal);

    coalescer.on_output_at(START + HIGH_THROUGHPUT_SUSTAIN + MS, chunk, &keyboard);
    assert_eq!(coalescer.tier(), CoalescingTier::HighThroughput);
    assert_eq!(coalescer.delay(), HIGH_THROUGHPUT_DELAY);
    assert!(coalescer.delay() >= 8 * MS);
    assert!(coalescer.delay() <= 16 * MS);
}

#[test]
fn high_throughput_floor_is_one_hundred_kilobytes_per_second() {
    let keyboard = KeyboardActivity::new();
    let at_floor_chunk = bytes_for_rate(floor());

    let mut below = AdaptiveCoalescer::new();
    for step in 0..=12u64 {
        below.on_output_at(START + RATE_WINDOW * step, at_floor_chunk - 1, &keyboard);
    }
    assert!((below.byte_rate() as f64) < floor());
    assert_eq!(
        below.tier(),
        CoalescingTier::Normal,
        "just under 100KB/s never engages the high-throughput tier"
    );

    let mut at_floor = AdaptiveCoalescer::new();
    for step in 0..=12u64 {
        at_floor.on_output_at(START + RATE_WINDOW * step, at_floor_chunk, &keyboard);
    }
    assert!(at_floor.byte_rate() as f64 >= floor());
    assert_eq!(at_floor.tier(), CoalescingTier::HighThroughput);
}

#[test]
fn sustained_timer_resets_when_rate_falls_back() {
    let keyboard = KeyboardActivity::new();
    let mut coalescer = AdaptiveCoalescer::new();
    let chunk = bytes_for_rate(floor() * 2.0);

    coalescer.on_output_at(START, chunk, &keyboard);
    coalescer.on_output_at(START + 100 * MS, chunk, &keyboard);

    coalescer.on_output_at(START + 400 * MS, 1, &keyboard);
    assert_eq!(coalescer.tier(), CoalescingTier::Normal);

    let resumed = START + 600 * MS;
    coalescer.on_output_at(resumed, chunk, &keyboard);
    coalescer.on_output_at(resumed + 400 * MS, chunk, &keyboard);
    assert_eq!(coalescer.tier(), CoalescingTier::Normal);
}

#[test]
fn high_throughput_outranks_keyboard_activity() {
    let mut keyboard = KeyboardActivity::new();
    let mut coalescer = AdaptiveCoalescer::new();
    let chunk = bytes_for_rate(floor() * 2.0);

    for step in 0..=12u64 {
        let now = START + step * 50 * MS;
        keyboard.note_input_at(now);
        coalescer.on_output_at(now, chunk, &keyboard);
    }

    assert_eq!(coalescer.tier(), CoalescingTier::HighThroughput);
    assert_eq!(coalescer.delay(), HIGH_THROUGHPUT_DELAY);
}

#[test]
fn high_throughput_drops_intermediate_frames() {
    let keyboard = KeyboardActivity::new();
    let mut coalescer = AdaptiveCoalescer::new();
    let chunk = bytes_for_rate(floor() * 2.0);
    for step in 0..=12u64 {
        coalescer.on_output_at(START + step * 50 * MS, chunk, &keyboard);
    }
    assert_eq!(coalescer.tier(), CoalescingTier::HighThroughput);

    let burst = START + 1_000 * MS;
    assert!(coalescer.admit_frame(burst, false), "first frame passes");
    assert_eq!(coalescer.dropped_frames(), 0);

    for offset in 1..HIGH_THROUGHPUT_DELAY / MS {
        assert!(
            !coalescer.admit_frame(burst + offset * MS, false),
            "frame at +{offset}ms is inside the coalescing window"
        );
    }
    assert_eq!(coalescer.dropped_frames(), HIGH_THROUGHPUT_DELAY / MS - 1);

    assert!(coalescer.admit_frame(burst + HIGH_THROUGHPUT_DELAY, false));
}

#[test]
fn interactive_tier_never_drops_frames() {
    let mut keyboard = KeyboardActivity::new();
    let mut coalescer = AdaptiveCoalescer::new();
    keyboard.note_input_at(START);
    coalescer.on_output_at(START, 8, &keyboard);
    assert_eq!(coalescer.tier(), CoalescingTier::Interactive);

    for offset in 0..10u64 {
        assert!(coalescer.admit_frame(START + offset * US, false));
    }
    assert_eq!(coalescer.dropped_frames(), 0);
}

#[test]
fn deferred_frame_release_is_not_counted_as_a_drop() {
    let mut coalescer = AdaptiveCoalescer::new();
    coalescer.on_output_at(START, 16, &KeyboardActivity::new());
    assert_eq!(coalescer.tier(), CoalescingTier::Normal);

    assert!(coalescer.admit_frame(START, false));
    assert!(!coalescer.admit_frame(START + 500 * US, false));
    assert_eq!(coalescer.dropped_frames(), 1);

    assert!(!coalescer.admit_deferred_frame(START + 600 * US));
    assert_eq!(coalescer.dropped_frames(), 1, "deferral is not a new drop");

    assert!(coalescer.admit_deferred_frame(START + NORMAL_DELAY));
    assert_eq!(coalescer.dropped_frames(), 1);
}

#[test]
fn reset_returns_to_normal_tier() {
    let keyboard = KeyboardActivity::new();
    let mut coalescer = AdaptiveCoalescer::new();
    let chunk = bytes_for_rate(floor() * 2.0);
    for step in 0..=12u64 {
        coalescer.on_output_at(START + step * 50 * MS, chunk, &keyboard);
    }
    assert_eq!(coalescer.tier(), CoalescingTier::HighThroughput);

    coalescer.reset();

    assert_eq!(coalescer.tier(), CoalescingTier::Normal);
    assert_eq!(coalescer.delay(), NORMAL_DELAY);
    assert_eq!(coalescer.byte_rate(), 0);
    assert_eq!(coalescer.dropped_frames(), 0);
}

#[test]
fn rate_window_evicts_stale_samples() {
    let keyboard = KeyboardActivity::new();
    let mut coalescer = AdaptiveCoalescer::new();

    coalescer.on_output_at(START, 100_000, &keyboard);
    assert!(coalescer.byte_rate() > 0);

    coalescer.on_output_at(START + RATE_WINDOW, 0, &keyboard);
    assert_eq!(coalescer.byte_rate(), 0);
}

#[test]
fn the_rate_is_counted_in_bytes_a_second() {
    let keyboard = KeyboardActivity::new();
    let mut coalescer = AdaptiveCoalescer::new();
    coalescer.on_output_at(START, 600, &keyboard);
    coalescer.on_output_at(START + 100 * MS, 400, &keyboard);
    assert_eq!(coalescer.byte_rate(), 5_000);
}

#[test]
fn a_forced_frame_passes() {
    let mut coalescer = AdaptiveCoalescer::new();
    assert!(coalescer.admit_frame(START, false));
    assert!(coalescer.admit_frame(START, true));
    assert_eq!(coalescer.dropped_frames(), 0);
}

#[derive(Clone, Copy, Debug, PartialEq)]
enum Trigger {
    Write,
    Rename,
}

#[test]
fn coalesces_bursts_within_window() {
    let mut debouncer: PathDebouncer<Trigger> = PathDebouncer::new();
    let path = String::from("/tmp/burst.txt");

    for i in 0..5 {
        debouncer.note(path.clone(), Trigger::Write, START + i * MS);
    }
    assert_eq!(debouncer.pending_count(), 1, "burst must coalesce");

    assert!(debouncer.flush_due(START + 400 * MS).is_empty());

    let flushed = debouncer.flush_due(START + 550 * MS);
    assert_eq!(flushed.len(), 1);
    assert_eq!(flushed[0].0, path);
    assert_eq!(flushed[0].1, Trigger::Write);
    assert_eq!(debouncer.pending_count(), 0);
}

#[test]
fn keeps_path_pending_until_quiet() {
    let mut debouncer: PathDebouncer<Trigger> = PathDebouncer::new();
    let path = String::from("/tmp/chatty.txt");

    debouncer.note(path.clone(), Trigger::Write, START);
    assert!(debouncer.flush_due(START + 450 * MS).is_empty());
    debouncer.note(path.clone(), Trigger::Write, START + 200 * MS);
    debouncer.note(path.clone(), Trigger::Write, START + 400 * MS);
    assert!(
        debouncer.flush_due(START + 600 * MS).is_empty(),
        "still within window of last note at 400ms (200ms < 500ms)"
    );

    let flushed = debouncer.flush_due(START + 901 * MS);
    assert_eq!(flushed.len(), 1);
}

#[test]
fn drain_all_releases_paths_before_quiet_window() {
    let mut debouncer: PathDebouncer<Trigger> = PathDebouncer::new();
    let path = String::from("/tmp/shutdown.txt");
    debouncer.note(path.clone(), Trigger::Write, START);

    let drained = debouncer.drain_all();

    assert_eq!(drained, vec![(path, Trigger::Write)]);
    assert_eq!(debouncer.pending_count(), 0);
}

#[test]
fn the_latest_change_of_a_path_is_released() {
    let mut debouncer: PathDebouncer<Trigger> = PathDebouncer::new();
    debouncer.note(String::from("a"), Trigger::Write, START);
    debouncer.note(String::from("b"), Trigger::Write, START);
    debouncer.note(String::from("a"), Trigger::Rename, START + 100 * MS);
    let due = debouncer.flush_due(START + 500 * MS);
    assert_eq!(due, vec![(String::from("b"), Trigger::Write)]);
    let rest = debouncer.drain_all();
    assert_eq!(rest, vec![(String::from("a"), Trigger::Rename)]);
}

#[test]
fn the_pace_follows_from_the_output_that_came() {
    let mut keyboard = KeyboardActivity::new();
    let mut coalescer = AdaptiveCoalescer::new();
    let much = bytes_for_rate(floor());

    // Each time as much as makes the rate high; it counts once it has lasted.
    keyboard.note_input_at(START);
    for tick in 0..=5u64 {
        let delay = coalescer.on_output_at(START + tick * 100 * MS, much, &keyboard);
        assert_eq!(coalescer.tier(), CoalescingTier::Normal);
        assert_eq!(delay, NORMAL_DELAY);
    }
    let delay = coalescer.on_output_at(START + 500 * MS + 1, 0, &keyboard);
    assert_eq!(coalescer.tier(), CoalescingTier::HighThroughput);
    assert_eq!(delay, HIGH_THROUGHPUT_DELAY);

    // Typing does not lower it.
    keyboard.note_input_at(START + 550 * MS);
    coalescer.on_output_at(START + 550 * MS, 1, &keyboard);
    assert_eq!(coalescer.tier(), CoalescingTier::HighThroughput);

    // The bytes of the last 200 ms count and no others.
    let delay = coalescer.on_output_at(START + 750 * MS, 819, &keyboard);
    assert_eq!(coalescer.tier(), CoalescingTier::Interactive);
    assert_eq!(delay, 0);
    let delay = coalescer.on_output_at(START + 760 * MS, 1, &keyboard);
    assert_eq!(coalescer.tier(), CoalescingTier::Normal);
    assert_eq!(delay, NORMAL_DELAY);
}
