//! Pacing of output: how long to wait before clients are told of new output,
//! and of changed files. Times are nanoseconds on a clock that never goes
//! back.
use crate::text::same_text;
use std::collections::VecDeque;
use vstd::prelude::*;

verus! {

/// How output is paced.
#[derive(Clone, Copy, Debug, PartialEq, Eq, Structural)]
pub enum CoalescingTier {
    /// Someone types and little comes out: clients are told at once.
    Interactive,
    /// The usual pace.
    Normal,
    /// Much has come out for a while: clients are told less often.
    HighThroughput,
}

/// Output of so many bytes a second or more is not interactive.
pub const INTERACTIVE_BYTE_RATE_CEILING: u64 = 4096;

/// Output of so many bytes a second or more is much.
pub const HIGH_THROUGHPUT_BYTE_RATE_FLOOR: u64 = 102_400;

/// How long much has to come out before the pace changes.
pub const HIGH_THROUGHPUT_SUSTAIN: u64 = 500_000_000;

/// How far back output is counted.
pub const RATE_WINDOW: u64 = 200_000_000;

/// How many such stretches make a second.
pub const WINDOWS_PER_SECOND: u64 = 5;

/// How long after a keystroke someone still types.
pub const KEYBOARD_ACTIVE_WINDOW: u64 = 1_000_000_000;

/// How long to wait while someone types.
pub const INTERACTIVE_DELAY: u64 = 0;

/// How long to wait as a rule.
pub const NORMAL_DELAY: u64 = 2_000_000;

/// How long to wait while much comes out.
pub const HIGH_THROUGHPUT_DELAY: u64 = 8_000_000;

/// How much time has gone by, none where the clock stands earlier.
pub open spec fn elapsed(now: u64, at: u64) -> int {
    if now >= at {
        now - at
    } else {
        0
    }
}

fn time_since(now: u64, at: u64) -> (time: u64)
    ensures
        time == elapsed(now, at),
{
    now.saturating_sub(at)
}

/// When someone typed last. Who types and who paces the output share the one
/// value, so there are no copies of it.
#[derive(Debug, PartialEq, Eq, Structural)]
pub struct KeyboardActivity {
    pub last_input: Option<u64>,
}

/// Whether someone types.
pub open spec fn is_typing(last_input: Option<u64>, now: u64) -> bool {
    last_input is Some && elapsed(now, last_input->0) < KEYBOARD_ACTIVE_WINDOW
}

impl Default for KeyboardActivity {
    fn default() -> (activity: Self)
        ensures
            activity.last_input == None::<u64>,
    {
        KeyboardActivity { last_input: None }
    }
}

impl KeyboardActivity {
    /// Nobody has typed yet.
    pub fn new() -> (activity: Self)
        ensures
            activity.last_input == None::<u64>,
    {
        KeyboardActivity { last_input: None }
    }

    /// Notes that someone typed.
    pub fn note_input_at(&mut self, at: u64)
        ensures
            final(self).last_input == Some(at),
    {
        self.last_input = Some(at);
    }

    /// Whether someone types.
    pub fn is_active_at(&self, now: u64) -> (active: bool)
        ensures
            active == is_typing(self.last_input, now),
    {
        match self.last_input {
            Some(at) => time_since(now, at) < KEYBOARD_ACTIVE_WINDOW,
            None => false,
        }
    }
}

/// Paces the output of a pane.
#[derive(Debug)]
pub struct AdaptiveCoalescer {
    samples: VecDeque<(u64, u64)>,
    windowed_bytes: u64,
    high_rate_since: Option<u64>,
    tier: CoalescingTier,
    current_delay: u64,
    last_emit: Option<u64>,
    dropped_frames: u64,
}

/// The state of the pacing of a pane.
#[verifier::ext_equal]
pub struct CoalescerModel {
    /// When output came and how many bytes, the oldest first.
    pub samples: Seq<(u64, u64)>,
    /// How many bytes have come lately.
    pub windowed_bytes: u64,
    /// Since when much has come out.
    pub high_rate_since: Option<u64>,
    pub tier: CoalescingTier,
    pub delay: u64,
    /// When clients were told last.
    pub last_emit: Option<u64>,
    /// How often they were not.
    pub dropped_frames: u64,
}

impl View for AdaptiveCoalescer {
    type V = CoalescerModel;

    closed spec fn view(&self) -> CoalescerModel {
        CoalescerModel {
            samples: self.samples@,
            windowed_bytes: self.windowed_bytes,
            high_rate_since: self.high_rate_since,
            tier: self.tier,
            delay: self.current_delay,
            last_emit: self.last_emit,
            dropped_frames: self.dropped_frames,
        }
    }
}

/// The state before any output.
pub open spec fn idle_model() -> CoalescerModel {
    CoalescerModel {
        samples: Seq::empty(),
        windowed_bytes: 0,
        high_rate_since: None,
        tier: CoalescingTier::Normal,
        delay: NORMAL_DELAY,
        last_emit: None,
        dropped_frames: 0,
    }
}

/// The larger of a difference and nothing.
pub open spec fn less(a: u64, b: u64) -> u64 {
    if a >= b {
        (a - b) as u64
    } else {
        0
    }
}

/// The smaller of a sum and the largest number.
pub open spec fn more(a: u64, b: u64) -> u64 {
    if a + b <= u64::MAX {
        (a + b) as u64
    } else {
        u64::MAX
    }
}

/// What is left of the output that counts, without the oldest that does not.
pub open spec fn recent(samples: Seq<(u64, u64)>, bytes: u64, now: u64) -> (Seq<(u64, u64)>, u64)
    decreases samples.len(),
{
    if samples.len() > 0 && elapsed(now, samples[0].0) >= RATE_WINDOW {
        recent(samples.skip(1), less(bytes, samples[0].1), now)
    } else {
        (samples, bytes)
    }
}

/// Bytes per second.
pub open spec fn rate(bytes: u64) -> int {
    bytes * WINDOWS_PER_SECOND
}

/// Since when much has come out.
pub open spec fn high_since(before: Option<u64>, bytes: u64, now: u64) -> Option<u64> {
    if rate(bytes) < HIGH_THROUGHPUT_BYTE_RATE_FLOOR {
        None
    } else if before is Some {
        before
    } else {
        Some(now)
    }
}

/// The pace: much output over a while comes before typing.
pub open spec fn tier_of(
    since: Option<u64>,
    bytes: u64,
    last_input: Option<u64>,
    now: u64,
) -> CoalescingTier {
    if since is Some && elapsed(now, since->0) > HIGH_THROUGHPUT_SUSTAIN {
        CoalescingTier::HighThroughput
    } else if rate(bytes) < INTERACTIVE_BYTE_RATE_CEILING && is_typing(last_input, now) {
        CoalescingTier::Interactive
    } else {
        CoalescingTier::Normal
    }
}

/// How long to wait at a pace.
pub open spec fn delay_of(tier: CoalescingTier) -> u64 {
    match tier {
        CoalescingTier::Interactive => INTERACTIVE_DELAY,
        CoalescingTier::Normal => NORMAL_DELAY,
        CoalescingTier::HighThroughput => HIGH_THROUGHPUT_DELAY,
    }
}

/// The state after output.
pub open spec fn after_output(
    c: CoalescerModel,
    now: u64,
    count: u64,
    last_input: Option<u64>,
) -> CoalescerModel {
    let (samples, bytes) = recent(
        c.samples.push((now, count)),
        more(c.windowed_bytes, count),
        now,
    );
    let since = high_since(c.high_rate_since, bytes, now);
    let tier = tier_of(since, bytes, last_input, now);
    CoalescerModel {
        samples,
        windowed_bytes: bytes,
        high_rate_since: since,
        tier,
        delay: delay_of(tier),
        ..c
    }
}

/// Whether clients may be told again.
pub open spec fn window_over(c: CoalescerModel, now: u64) -> bool {
    c.delay == 0 || c.last_emit is None || elapsed(now, c.last_emit->0) >= c.delay
}

impl AdaptiveCoalescer {
    /// Nothing has come out yet.
    pub fn new() -> (coalescer: Self)
        ensures
            coalescer@ == idle_model(),
    {
        AdaptiveCoalescer {
            samples: VecDeque::new(),
            windowed_bytes: 0,
            high_rate_since: None,
            tier: CoalescingTier::Normal,
            current_delay: NORMAL_DELAY,
            last_emit: None,
            dropped_frames: 0,
        }
    }

    /// Notes output and says how long to wait now.
    pub fn on_output_at(&mut self, now: u64, byte_count: usize, keyboard: &KeyboardActivity) -> (delay:
        u64)
        ensures
            final(self)@ == after_output(
                old(self)@,
                now,
                byte_count as u64,
                keyboard.last_input,
            ),
            delay == final(self)@.delay,
    {
        self.samples.push_back((now, byte_count as u64));
        self.windowed_bytes = self.windowed_bytes.saturating_add(byte_count as u64);
        self.evict_expired(now);
        self.classify(now, keyboard);
        self.current_delay
    }

    /// How long to wait.
    pub fn delay(&self) -> (delay: u64)
        ensures
            delay == self@.delay,
    {
        self.current_delay
    }

    /// The pace.
    pub fn tier(&self) -> (tier: CoalescingTier)
        ensures
            tier == self@.tier,
    {
        self.tier
    }

    /// Bytes per second.
    pub fn byte_rate(&self) -> (bytes: u128)
        ensures
            bytes == rate(self@.windowed_bytes),
    {
        let windows: u128 = WINDOWS_PER_SECOND as u128;
        assert(windows == 5);
        self.windowed_bytes as u128 * windows
    }

    /// How often clients were not told.
    pub fn dropped_frames(&self) -> (count: u64)
        ensures
            count == self@.dropped_frames,
    {
        self.dropped_frames
    }

    /// Whether clients are told of a new frame; one that they are not told of
    /// is counted.
    pub fn admit_frame(&mut self, now: u64, force: bool) -> (admitted: bool)
        ensures
            admitted == (force || window_over(old(self)@, now)),
            final(self)@ == if admitted {
                CoalescerModel { last_emit: Some(now), ..old(self)@ }
            } else {
                CoalescerModel {
                    dropped_frames: more(old(self)@.dropped_frames, 1),
                    ..old(self)@
                }
            },
    {
        if force || self.window_elapsed(now) {
            self.last_emit = Some(now);
            true
        } else {
            self.dropped_frames = self.dropped_frames.saturating_add(1);
            false
        }
    }

    /// Whether clients are told of a frame that was put off.
    pub fn admit_deferred_frame(&mut self, now: u64) -> (admitted: bool)
        ensures
            admitted == window_over(old(self)@, now),
            final(self)@ == if admitted {
                CoalescerModel { last_emit: Some(now), ..old(self)@ }
            } else {
                old(self)@
            },
    {
        if self.window_elapsed(now) {
            self.last_emit = Some(now);
            true
        } else {
            false
        }
    }

    /// Forgets everything.
    pub fn reset(&mut self)
        ensures
            final(self)@ == idle_model(),
    {
        self.samples.clear();
        self.windowed_bytes = 0;
        self.high_rate_since = None;
        self.tier = CoalescingTier::Normal;
        self.current_delay = NORMAL_DELAY;
        self.last_emit = None;
        self.dropped_frames = 0;
    }

    fn window_elapsed(&self, now: u64) -> (over: bool)
        ensures
            over == window_over(self@, now),
    {
        self.current_delay == 0 || match self.last_emit {
            Some(at) => time_since(now, at) >= self.current_delay,
            None => true,
        }
    }

    fn evict_expired(&mut self, now: u64)
        ensures
            ({
                let left = recent(old(self)@.samples, old(self)@.windowed_bytes, now);
                final(self)@ == (CoalescerModel {
                    samples: left.0,
                    windowed_bytes: left.1,
                    ..old(self)@
                })
            }),
    {
        let ghost start = recent(self@.samples, self@.windowed_bytes, now);
        while self.samples.len() > 0 && time_since(now, self.samples[0].0) >= RATE_WINDOW
            invariant
                recent(self@.samples, self@.windowed_bytes, now) == start,
                self@ == (CoalescerModel {
                    samples: self@.samples,
                    windowed_bytes: self@.windowed_bytes,
                    ..old(self)@
                }),
            decreases self.samples@.len(),
        {
            let bytes: u64 = self.samples[0].1;
            self.windowed_bytes = self.windowed_bytes.saturating_sub(bytes);
            let ghost before = self.samples@;
            let _ = self.samples.pop_front();
            assert(self.samples@ =~= before.skip(1));
        }
    }

    fn classify(&mut self, now: u64, keyboard: &KeyboardActivity)
        ensures
            ({
                let c = old(self)@;
                let since = high_since(c.high_rate_since, c.windowed_bytes, now);
                let tier = tier_of(since, c.windowed_bytes, keyboard.last_input, now);
                final(self)@ == (CoalescerModel {
                    high_rate_since: since,
                    tier,
                    delay: delay_of(tier),
                    ..c
                })
            }),
    {
        let rate: u128 = self.byte_rate();
        if rate >= HIGH_THROUGHPUT_BYTE_RATE_FLOOR as u128 {
            if self.high_rate_since.is_none() {
                self.high_rate_since = Some(now);
            }
        } else {
            self.high_rate_since = None;
        }
        let sustained: bool = match self.high_rate_since {
            Some(since) => time_since(now, since) > HIGH_THROUGHPUT_SUSTAIN,
            None => false,
        };
        self.tier = if sustained {
            CoalescingTier::HighThroughput
        } else if rate < INTERACTIVE_BYTE_RATE_CEILING as u128 && keyboard.is_active_at(now) {
            CoalescingTier::Interactive
        } else {
            CoalescingTier::Normal
        };
        self.current_delay = match self.tier {
            CoalescingTier::Interactive => INTERACTIVE_DELAY,
            CoalescingTier::Normal => NORMAL_DELAY,
            CoalescingTier::HighThroughput => HIGH_THROUGHPUT_DELAY,
        };
    }
}

impl Default for AdaptiveCoalescer {
    fn default() -> (coalescer: Self)
        ensures
            coalescer@ == idle_model(),
    {
        AdaptiveCoalescer::new()
    }
}

/// The bytes of a list of samples.
pub open spec fn total(samples: Seq<(u64, u64)>) -> int
    decreases samples.len(),
{
    if samples.len() == 0 {
        0
    } else {
        samples[0].1 + total(samples.skip(1))
    }
}

proof fn lemma_total_push(samples: Seq<(u64, u64)>, sample: (u64, u64))
    ensures
        total(samples.push(sample)) == total(samples) + sample.1,
        total(samples) >= 0,
    decreases samples.len(),
{
    if samples.len() > 0 {
        lemma_total_push(samples.skip(1), sample);
        assert(samples.push(sample).skip(1) =~= samples.skip(1).push(sample));
    } else {
        assert(samples.push(sample).skip(1) =~= samples);
        assert(total(samples) == 0);
    }
}

proof fn lemma_recent_total(samples: Seq<(u64, u64)>, now: u64)
    requires
        total(samples) <= u64::MAX,
    ensures
        ({
            let left = recent(samples, total(samples) as u64, now);
            &&& left.1 == total(left.0)
            &&& left.0.len() > 0 ==> elapsed(now, left.0[0].0) < RATE_WINDOW
            &&& 0 <= total(samples)
        }),
    decreases samples.len(),
{
    lemma_total_push(samples, (0, 0));
    if samples.len() > 0 && elapsed(now, samples[0].0) >= RATE_WINDOW {
        lemma_total_push(samples.skip(1), (0, 0));
        lemma_recent_total(samples.skip(1), now);
    }
}

/// The count of recent bytes is that of the samples that are kept, and the
/// oldest of them is recent, as long as the bytes can be counted.
pub proof fn law_recent_bytes_are_counted(
    c: CoalescerModel,
    now: u64,
    count: u64,
    last_input: Option<u64>,
)
    requires
        c.windowed_bytes == total(c.samples),
        total(c.samples) + count <= u64::MAX,
    ensures
        ({
            let after = after_output(c, now, count, last_input);
            &&& after.windowed_bytes == total(after.samples)
            &&& after.samples.len() > 0 ==> elapsed(now, after.samples[0].0) < RATE_WINDOW
        }),
{
    lemma_total_push(c.samples, (now, count));
    lemma_recent_total(c.samples.push((now, count)), now);
}

/// The delay always fits the pace, and the pace is never interactive while
/// much has come out for a while, however much someone types.
pub proof fn law_delay_fits_the_pace(
    c: CoalescerModel,
    now: u64,
    count: u64,
    last_input: Option<u64>,
)
    ensures
        ({
            let after = after_output(c, now, count, last_input);
            &&& after.delay == delay_of(after.tier)
            &&& after.high_rate_since is Some && elapsed(now, after.high_rate_since->0)
                > HIGH_THROUGHPUT_SUSTAIN ==> after.tier == CoalescingTier::HighThroughput
            &&& after.tier == CoalescingTier::Interactive ==> window_over(after, now)
        }),
{
}

/// Output that came: when, how many bytes, and when someone had typed last.
pub struct OutputCall {
    pub at: u64,
    pub count: u64,
    pub last_input: Option<u64>,
}

/// The state after some output, from the start.
pub open spec fn state_after(calls: Seq<OutputCall>) -> CoalescerModel
    decreases calls.len(),
{
    if calls.len() == 0 {
        idle_model()
    } else {
        after_output(
            state_after(calls.drop_last()),
            calls.last().at,
            calls.last().count,
            calls.last().last_input,
        )
    }
}

/// Whether the clock never went back.
pub open spec fn in_time(calls: Seq<OutputCall>) -> bool {
    forall|i: int, j: int|
        0 <= i <= j < calls.len() ==> (#[trigger] calls[i]).at <= (#[trigger] calls[j]).at
}

/// When output came and how many bytes.
pub open spec fn samples_of(calls: Seq<OutputCall>) -> Seq<(u64, u64)> {
    calls.map_values(|c: OutputCall| (c.at, c.count))
}

/// The bytes that have come lately.
pub open spec fn counted(samples: Seq<(u64, u64)>, now: u64) -> int
    decreases samples.len(),
{
    if samples.len() == 0 {
        0
    } else {
        (if elapsed(now, samples[0].0) < RATE_WINDOW {
            samples[0].1 as int
        } else {
            0
        }) + counted(samples.skip(1), now)
    }
}

/// The bytes that had come lately when some output came, with that output.
pub open spec fn recent_bytes(calls: Seq<OutputCall>, k: int) -> int {
    counted(samples_of(calls.take(k + 1)), calls[k].at)
}

/// The bytes that had come lately when some output came, as of the output before
/// it, with that output.
pub open spec fn held_bytes(calls: Seq<OutputCall>, k: int) -> int {
    calls[k].count + if k > 0 {
        recent_bytes(calls, k - 1)
    } else {
        0
    }
}

/// Whether the bytes that had come lately could be counted, whenever output came.
pub open spec fn can_count(calls: Seq<OutputCall>) -> bool {
    forall|k: int| 0 <= k < calls.len() ==> #[trigger] held_bytes(calls, k) <= u64::MAX
}

/// Whether much had come out lately when some output came.
pub open spec fn is_much(calls: Seq<OutputCall>, k: int) -> bool {
    recent_bytes(calls, k) * WINDOWS_PER_SECOND >= HIGH_THROUGHPUT_BYTE_RATE_FLOOR
}

/// Whether much has come out with all output since some that came longer ago
/// than a while.
pub open spec fn is_sustained(calls: Seq<OutputCall>) -> bool {
    exists|j: int|
        0 <= j < calls.len() && elapsed(calls.last().at, (#[trigger] calls[j]).at)
            > HIGH_THROUGHPUT_SUSTAIN && much_from(calls, j)
}

/// Whether much has come out with all output from some on.
pub open spec fn much_from(calls: Seq<OutputCall>, j: int) -> bool {
    forall|k: int| j <= k < calls.len() ==> #[trigger] is_much(calls, k)
}

/// The pace that output calls for.
pub open spec fn pace_of(calls: Seq<OutputCall>) -> CoalescingTier {
    let last = calls.last();
    if is_sustained(calls) {
        CoalescingTier::HighThroughput
    } else if recent_bytes(calls, calls.len() - 1) * WINDOWS_PER_SECOND
        < INTERACTIVE_BYTE_RATE_CEILING && is_typing(last.last_input, last.at) {
        CoalescingTier::Interactive
    } else {
        CoalescingTier::Normal
    }
}

proof fn lemma_recent_drops(samples: Seq<(u64, u64)>, now: u64) -> (j: int)
    requires
        total(samples) <= u64::MAX,
    ensures
        0 <= j <= samples.len(),
        recent(samples, total(samples) as u64, now) == (
            samples.skip(j),
            total(samples.skip(j)) as u64,
        ),
        0 <= total(samples.skip(j)) <= total(samples),
        forall|i: int|
            0 <= i < j ==> elapsed(now, (#[trigger] samples[i]).0) >= RATE_WINDOW,
        j < samples.len() ==> elapsed(now, samples[j].0) < RATE_WINDOW,
    decreases samples.len(),
{
    lemma_total_push(samples, (0, 0));
    if samples.len() > 0 && elapsed(now, samples[0].0) >= RATE_WINDOW {
        let rest = samples.skip(1);
        lemma_total_push(rest, (0, 0));
        let j = lemma_recent_drops(rest, now);
        assert(samples.skip(j + 1) =~= rest.skip(j));
        assert forall|i: int| 0 <= i < j + 1 implies elapsed(now, (#[trigger] samples[i]).0)
            >= RATE_WINDOW by {
            if i > 0 {
                assert(rest[i - 1] == samples[i]);
            }
        }
        if j + 1 < samples.len() {
            assert(rest[j] == samples[j + 1]);
        }
        j + 1
    } else {
        assert(samples.skip(0) =~= samples);
        0
    }
}

proof fn lemma_counted(samples: Seq<(u64, u64)>, now: u64, j: int)
    requires
        0 <= j <= samples.len(),
        forall|i: int|
            0 <= i < j ==> elapsed(now, (#[trigger] samples[i]).0) >= RATE_WINDOW,
        forall|i: int|
            j <= i < samples.len() ==> elapsed(now, (#[trigger] samples[i]).0) < RATE_WINDOW,
    ensures
        counted(samples, now) == total(samples.skip(j)),
    decreases samples.len(),
{
    if samples.len() > 0 {
        let rest = samples.skip(1);
        let k = if j > 0 {
            j - 1
        } else {
            0
        };
        assert forall|i: int| 0 <= i < k implies elapsed(now, (#[trigger] rest[i]).0)
            >= RATE_WINDOW by {
            assert(rest[i] == samples[i + 1]);
        }
        assert forall|i: int| k <= i < rest.len() implies elapsed(now, (#[trigger] rest[i]).0)
            < RATE_WINDOW by {
            assert(rest[i] == samples[i + 1]);
        }
        lemma_counted(rest, now, k);
        if j > 0 {
            assert(samples.skip(j) =~= rest.skip(k));
        } else {
            assert(samples.skip(0) =~= samples);
            assert(rest.skip(0) =~= rest);
        }
    } else {
        assert(samples.skip(j) =~= Seq::<(u64, u64)>::empty());
    }
}

/// What the state keeps of the output that came: the samples from some on, those
/// before it are not recent, and their bytes.
proof fn lemma_kept(calls: Seq<OutputCall>) -> (m: int)
    requires
        in_time(calls),
        can_count(calls),
    ensures
        0 <= m <= calls.len(),
        state_after(calls).samples == samples_of(calls).skip(m),
        state_after(calls).windowed_bytes == total(state_after(calls).samples),
        0 <= total(state_after(calls).samples) <= u64::MAX,
        forall|i: int|
            0 <= i < m ==> elapsed(calls.last().at, (#[trigger] calls[i]).at) >= RATE_WINDOW,
        calls.len() > 0 ==> state_after(calls).windowed_bytes == recent_bytes(
            calls,
            calls.len() - 1,
        ),
    decreases calls.len(),
{
    let all = samples_of(calls);
    if calls.len() == 0 {
        assert(all.skip(0) =~= Seq::<(u64, u64)>::empty());
        0
    } else {
        let init = calls.drop_last();
        let last = calls.last();
        let now = last.at;
        assert(all =~= samples_of(init).push((last.at, last.count)));
        lemma_before(calls);
        let m = lemma_kept(init);
        assert(held_bytes(calls, calls.len() - 1) <= u64::MAX);
        if init.len() > 0 {
            assert(calls.take(init.len() as int) =~= init.take(init.len() as int));
        }
        let before = state_after(init);
        let longer = before.samples.push((last.at, last.count));
        lemma_total_push(before.samples, (last.at, last.count));
        assert(longer =~= all.skip(m));
        let j = lemma_recent_drops(longer, now);
        assert(more(before.windowed_bytes, last.count) == total(longer) as u64);
        assert(all.skip(m + j) =~= longer.skip(j));
        assert forall|i: int| 0 <= i < m + j implies elapsed(now, (#[trigger] calls[i]).at)
            >= RATE_WINDOW by {
            if i < m {
                assert(init[i] == calls[i]);
                assert(calls[init.len() - 1].at <= calls[calls.len() - 1].at);
            } else {
                assert(longer[i - m] == all[i]);
            }
        }
        assert forall|i: int| 0 <= i < m + j implies elapsed(now, (#[trigger] all[i]).0)
            >= RATE_WINDOW by {
            assert(calls[i].at == all[i].0);
        }
        assert forall|i: int| m + j <= i < all.len() implies elapsed(now, (#[trigger] all[i]).0)
            < RATE_WINDOW by {
            assert(longer[j] == all[m + j]);
            assert(calls[m + j].at <= calls[i].at);
        }
        lemma_counted(all, now, m + j);
        assert(calls.take(calls.len() as int) =~= calls);
        m + j
    }
}

proof fn lemma_earlier(calls: Seq<OutputCall>, k: int)
    requires
        0 <= k < calls.len() - 1,
    ensures
        is_much(calls.drop_last(), k) == is_much(calls, k),
        calls.drop_last()[k] == calls[k],
{
    assert(calls.drop_last().take(k + 1) =~= calls.take(k + 1));
}

proof fn lemma_before(calls: Seq<OutputCall>)
    requires
        in_time(calls),
        calls.len() > 0,
        can_count(calls),
    ensures
        in_time(calls.drop_last()),
        can_count(calls.drop_last()),
{
    let init = calls.drop_last();
    assert forall|i: int, j: int| 0 <= i <= j < init.len() implies (#[trigger] init[i]).at <= (
    #[trigger] init[j]).at by {
        assert(calls[i].at <= calls[j].at);
    }
    assert forall|k: int| 0 <= k < init.len() implies #[trigger] held_bytes(init, k)
        <= u64::MAX by {
        assert(held_bytes(calls, k) <= u64::MAX);
        assert(calls.take(k) =~= init.take(k));
    }
}

/// The time since which much has come out is that of some output, with which and
/// since which it has.
proof fn lemma_since_is_a_run(calls: Seq<OutputCall>) -> (j: int)
    requires
        in_time(calls),
        can_count(calls),
        state_after(calls).high_rate_since is Some,
    ensures
        0 <= j < calls.len(),
        state_after(calls).high_rate_since == Some(calls[j].at),
        much_from(calls, j),
    decreases calls.len(),
{
    let init = calls.drop_last();
    let n = calls.len() as int;
    let m = lemma_kept(calls);
    assert(is_much(calls, n - 1));
    lemma_before(calls);
    if state_after(init).high_rate_since is Some {
        let j = lemma_since_is_a_run(init);
        assert(init[j] == calls[j]);
        assert forall|k: int| j <= k < n implies #[trigger] is_much(calls, k) by {
            if k < n - 1 {
                lemma_earlier(calls, k);
                assert(is_much(init, k));
            }
        }
        j
    } else {
        n - 1
    }
}

/// Where much has come out with all output from some on, it has since then at
/// the latest.
proof fn lemma_run_is_since(calls: Seq<OutputCall>, j: int)
    requires
        in_time(calls),
        can_count(calls),
        0 <= j < calls.len(),
        much_from(calls, j),
    ensures
        state_after(calls).high_rate_since is Some,
        state_after(calls).high_rate_since->0 <= calls[j].at,
    decreases calls.len(),
{
    let init = calls.drop_last();
    let n = calls.len() as int;
    let m = lemma_kept(calls);
    assert(is_much(calls, n - 1));
    lemma_before(calls);
    if j < n - 1 {
        assert forall|k: int| j <= k < init.len() implies #[trigger] is_much(init, k) by {
            lemma_earlier(calls, k);
            assert(is_much(calls, k));
        }
        lemma_run_is_since(init, j);
        assert(init[j] == calls[j]);
    } else if state_after(init).high_rate_since is Some {
        let i = lemma_since_is_a_run(init);
        assert(init[i] == calls[i]);
        assert(calls[i].at <= calls[n - 1].at);
    }
}

/// The pace after any output follows from when output came and how much, and
/// from when someone typed: it is that of much output where much has come out
/// with all output for longer than a while, whoever types; else that of typing
/// where little has come lately and someone types; else the usual one. This
/// leaves out more bytes in so short a time than can be counted.
pub proof fn law_pace_follows_the_output(calls: Seq<OutputCall>)
    requires
        calls.len() > 0,
        in_time(calls),
        can_count(calls),
    ensures
        state_after(calls).tier == pace_of(calls),
        state_after(calls).delay == delay_of(pace_of(calls)),
        state_after(calls).windowed_bytes == recent_bytes(calls, calls.len() - 1),
{
    let m = lemma_kept(calls);
    let s = state_after(calls);
    let now = calls.last().at;
    if s.high_rate_since is Some {
        let j = lemma_since_is_a_run(calls);
        assert(elapsed(now, calls[j].at) > HIGH_THROUGHPUT_SUSTAIN ==> is_sustained(calls));
    }
    if is_sustained(calls) {
        let j = choose|j: int|
            0 <= j < calls.len() && elapsed(calls.last().at, (#[trigger] calls[j]).at)
                > HIGH_THROUGHPUT_SUSTAIN && much_from(calls, j);
        lemma_run_is_since(calls, j);
    }
}

/// What clients are told has no bearing on the pace.
pub proof fn law_frames_leave_the_pace(
    c: CoalescerModel,
    last_emit: Option<u64>,
    dropped_frames: u64,
    call: OutputCall,
)
    ensures
        after_output(
            (CoalescerModel { last_emit, dropped_frames, ..c }),
            call.at,
            call.count,
            call.last_input,
        ) == (CoalescerModel {
            last_emit,
            dropped_frames,
            ..after_output(c, call.at, call.count, call.last_input)
        }),
{
}

/// How long a file has to be left alone before its change counts.
pub const DEBOUNCE_WINDOW: u64 = 500_000_000;

/// A file that changed, what happened to it and when.
#[derive(Debug)]
pub struct PendingPath<T> {
    pub path: String,
    pub trigger: T,
    pub last: u64,
}

/// A file that changed.
pub struct PendingModel<T> {
    pub path: Seq<char>,
    pub trigger: T,
    pub last: u64,
}

impl<T> View for PendingPath<T> {
    type V = PendingModel<T>;

    open spec fn view(&self) -> PendingModel<T> {
        PendingModel { path: self.path@, trigger: self.trigger, last: self.last }
    }
}

/// Gathers the changes of files until they are left alone for a while.
#[derive(Debug)]
pub struct PathDebouncer<T> {
    pending: Vec<PendingPath<T>>,
}

impl<T> View for PathDebouncer<T> {
    type V = Seq<PendingModel<T>>;

    closed spec fn view(&self) -> Seq<PendingModel<T>> {
        self.pending@.map_values(|p: PendingPath<T>| p@)
    }
}

/// The place of the first entry of a path from a place on, or the end.
pub open spec fn path_index<T>(list: Seq<PendingModel<T>>, path: Seq<char>, k: int) -> int
    decreases list.len() - k,
{
    if k >= list.len() || k < 0 {
        list.len() as int
    } else if list[k].path == path {
        k
    } else {
        path_index(list, path, k + 1)
    }
}

/// The changes with one more: an earlier one of the same file is replaced.
pub open spec fn noted<T>(
    list: Seq<PendingModel<T>>,
    change: PendingModel<T>,
) -> Seq<PendingModel<T>> {
    let k = path_index(list, change.path, 0);
    if k < list.len() {
        list.update(k, change)
    } else {
        list.push(change)
    }
}

/// Whether a change has been left alone for long enough.
pub open spec fn is_due<T>(change: PendingModel<T>, now: u64) -> bool {
    elapsed(now, change.last) >= DEBOUNCE_WINDOW
}

/// Those of the changes that are due, or that are not.
pub open spec fn sifted<T>(list: Seq<PendingModel<T>>, now: u64, due: bool) -> Seq<PendingModel<T>>
    decreases list.len(),
{
    if list.len() == 0 {
        Seq::empty()
    } else {
        let before = sifted(list.drop_last(), now, due);
        if is_due(list.last(), now) == due {
            before.push(list.last())
        } else {
            before
        }
    }
}

/// The files of a list of changes and what happened to them.
pub open spec fn released<T>(list: Seq<PendingModel<T>>) -> Seq<(Seq<char>, T)> {
    list.map_values(|p: PendingModel<T>| (p.path, p.trigger))
}

/// What a list of files and triggers holds.
pub open spec fn released_models<T>(list: Seq<(String, T)>) -> Seq<(Seq<char>, T)> {
    list.map_values(|r: (String, T)| (r.0@, r.1))
}

impl<T: Copy> PathDebouncer<T> {
    /// No file has changed yet.
    pub fn new() -> (debouncer: Self)
        ensures
            debouncer@ == Seq::<PendingModel<T>>::empty(),
    {
        let debouncer = PathDebouncer { pending: Vec::new() };
        assert(debouncer@ =~= Seq::<PendingModel<T>>::empty());
        debouncer
    }

    /// Notes that a file changed.
    pub fn note(&mut self, path: String, trigger: T, now: u64)
        ensures
            final(self)@ == noted(
                old(self)@,
                (PendingModel { path: path@, trigger, last: now }),
            ),
    {
        let ghost list = self@;
        let ghost change = PendingModel { path: path@, trigger, last: now };
        let mut i: usize = 0;
        while i < self.pending.len()
            invariant
                i <= self.pending.len(),
                *self == *old(self),
                list == self@,
                change == (PendingModel { path: path@, trigger, last: now }),
                path_index(list, path@, 0) == path_index(list, path@, i as int),
            decreases self.pending.len() - i,
        {
            assert(list[i as int] == self.pending@[i as int]@);
            if same_text(self.pending[i].path.as_str(), path.as_str()) {
                self.pending[i].trigger = trigger;
                self.pending[i].last = now;
                assert(self@ =~= list.update(i as int, change));
                return;
            }
            i = i + 1;
        }
        self.pending.push(PendingPath { path, trigger, last: now });
        assert(self@ =~= list.push(change));
    }

    /// Takes out the changes that have been left alone for long enough.
    pub fn flush_due(&mut self, now: u64) -> (due: Vec<(String, T)>)
        ensures
            released_models(due@) == released(sifted(old(self)@, now, true)),
            final(self)@ == sifted(old(self)@, now, false),
    {
        let ghost list = self@;
        let mut due: Vec<(String, T)> = Vec::new();
        let mut kept: Vec<PendingPath<T>> = Vec::new();
        let mut i: usize = 0;
        assert(released_models(due@) =~= released(sifted(list.take(0), now, true)));
        while i < self.pending.len()
            invariant
                i <= self.pending.len(),
                list == self@,
                released_models(due@) == released(sifted(list.take(i as int), now, true)),
                kept@.map_values(|p: PendingPath<T>| p@) == sifted(
                    list.take(i as int),
                    now,
                    false,
                ),
            decreases self.pending.len() - i,
        {
            proof {
                assert(list.take(i + 1).drop_last() =~= list.take(i as int));
                assert(list.take(i + 1).last() == self.pending@[i as int]@);
            }
            let entry = &self.pending[i];
            let item = PendingPath {
                path: entry.path.clone(),
                trigger: entry.trigger,
                last: entry.last,
            };
            if time_since(now, entry.last) >= DEBOUNCE_WINDOW {
                let ghost before = due@;
                due.push((item.path, item.trigger));
                proof {
                    let part = sifted(list.take(i as int), now, true);
                    assert(released_models(due@) =~= released_models(before).push(
                        (list[i as int].path, list[i as int].trigger),
                    ));
                    assert(released(part.push(list[i as int])) =~= released(part).push(
                        (list[i as int].path, list[i as int].trigger),
                    ));
                }
            } else {
                let ghost before = kept@;
                kept.push(item);
                assert(kept@.map_values(|p: PendingPath<T>| p@) =~= before.map_values(
                    |p: PendingPath<T>| p@,
                ).push(list[i as int]));
            }
            i = i + 1;
        }
        assert(list.take(i as int) =~= list);
        self.pending = kept;
        due
    }

    /// Takes out all changes.
    pub fn drain_all(&mut self) -> (all: Vec<(String, T)>)
        ensures
            released_models(all@) == released(old(self)@),
            final(self)@ == Seq::<PendingModel<T>>::empty(),
    {
        let ghost list = self@;
        let mut all: Vec<(String, T)> = Vec::new();
        let mut i: usize = 0;
        assert(released_models(all@) =~= released(list.take(0)));
        while i < self.pending.len()
            invariant
                i <= self.pending.len(),
                list == self@,
                released_models(all@) == released(list.take(i as int)),
            decreases self.pending.len() - i,
        {
            let entry = &self.pending[i];
            let ghost before = all@;
            all.push((entry.path.clone(), entry.trigger));
            proof {
                assert(released_models(all@) =~= released_models(before).push(
                    (list[i as int].path, list[i as int].trigger),
                ));
                assert(released(list.take(i + 1)) =~= released(list.take(i as int)).push(
                    (list[i as int].path, list[i as int].trigger),
                ));
            }
            i = i + 1;
        }
        assert(list.take(i as int) =~= list);
        self.pending = Vec::new();
        assert(self@ =~= Seq::<PendingModel<T>>::empty());
        all
    }

    /// The number of files whose changes are gathered.
    pub fn pending_count(&self) -> (count: usize)
        ensures
            count == self@.len(),
    {
        self.pending.len()
    }
}

/// Whether no file is in a list twice.
pub open spec fn distinct_paths<T>(list: Seq<PendingModel<T>>) -> bool {
    forall|i: int, j: int|
        0 <= i < j < list.len() ==> (#[trigger] list[i]).path != (#[trigger] list[j]).path
}

proof fn lemma_path_index<T>(list: Seq<PendingModel<T>>, path: Seq<char>, k: int)
    requires
        0 <= k <= list.len(),
    ensures
        k <= path_index(list, path, k) <= list.len(),
        path_index(list, path, k) < list.len() ==> list[path_index(list, path, k)].path == path,
        forall|j: int| k <= j < path_index(list, path, k) ==> (#[trigger] list[j]).path != path,
    decreases list.len() - k,
{
    if k < list.len() && list[k].path != path {
        lemma_path_index(list, path, k + 1);
    }
}

/// A burst of changes of one file is gathered into one, and it is the latest.
pub proof fn law_changes_of_a_file_are_gathered<T>(
    list: Seq<PendingModel<T>>,
    change: PendingModel<T>,
)
    requires
        distinct_paths(list),
    ensures
        distinct_paths(noted(list, change)),
        noted(list, change).contains(change),
        noted(list, change).len() == if path_index(list, change.path, 0) < list.len() {
            list.len()
        } else {
            list.len() + 1
        },
        noted(noted(list, change), change) == noted(list, change),
{
    lemma_path_index(list, change.path, 0);
    let after = noted(list, change);
    let k = path_index(list, change.path, 0);
    assert(after[k] == change);
    assert forall|i: int, j: int| 0 <= i < j < after.len() implies (#[trigger] after[i]).path != (
    #[trigger] after[j]).path by {
        if k < list.len() {
            assert(after[i].path == list[i].path && after[j].path == list[j].path);
        } else {
            assert(after[i] == list[i]);
            if j < list.len() {
                assert(after[j] == list[j]);
            }
        }
    }
    lemma_path_index(after, change.path, 0);
    let m = path_index(after, change.path, 0);
    assert(m == k) by {
        if m < k {
            assert(after[m].path == list[m].path);
        } else if k < m {
            assert(after[k].path != change.path);
        }
    }
    assert(noted(after, change) =~= after);
}

proof fn lemma_sifted<T>(list: Seq<PendingModel<T>>, now: u64, due: bool, change: PendingModel<T>)
    ensures
        sifted(list, now, due).contains(change) <==> list.contains(change) && is_due(change, now)
            == due,
        sifted(list, now, true).len() + sifted(list, now, false).len() == list.len(),
    decreases list.len(),
{
    if list.len() > 0 {
        let init = list.drop_last();
        let last = list.last();
        lemma_sifted(init, now, due, change);
        let part = sifted(list, now, due);
        let before = sifted(init, now, due);
        if list.contains(change) {
            let i = choose|i: int| 0 <= i < list.len() && list[i] == change;
            if i < init.len() {
                assert(init[i] == change);
            }
        }
        if init.contains(change) {
            let i = choose|i: int| 0 <= i < init.len() && init[i] == change;
            assert(list[i] == change);
        }
        assert(list[list.len() - 1] == last);
        if is_due(last, now) == due {
            assert(part[part.len() - 1] == last);
            if before.contains(change) {
                let i = choose|i: int| 0 <= i < before.len() && before[i] == change;
                assert(part[i] == change);
            }
            if part.contains(change) {
                let i = choose|i: int| 0 <= i < part.len() && part[i] == change;
                if i < before.len() {
                    assert(before[i] == change);
                }
            }
        }
    }
}

/// A change is handed out if it is due and kept if it is not, and none is
/// lost.
pub proof fn law_no_change_is_lost<T>(
    list: Seq<PendingModel<T>>,
    now: u64,
    change: PendingModel<T>,
)
    requires
        list.contains(change),
    ensures
        is_due(change, now) ==> sifted(list, now, true).contains(change),
        !is_due(change, now) ==> sifted(list, now, false).contains(change),
        sifted(list, now, true).len() + sifted(list, now, false).len() == list.len(),
{
    lemma_sifted(list, now, true, change);
    lemma_sifted(list, now, false, change);
}

/// How the paces are told apart: output of 100 KiB a second and more that has
/// lasted half a second is held back for 8 milliseconds; less than 4 KiB a
/// second while somebody has typed within a second is not held back; all else is
/// held back for 2 milliseconds. The rate is that of the last fifth of a second.
pub proof fn law_paces_have_their_bounds(
    since: Option<u64>,
    bytes: u64,
    last_input: Option<u64>,
    now: u64,
)
    ensures
        ({
            let tier = tier_of(since, bytes, last_input, now);
            let lasted = since is Some && now >= since->0 && now - since->0 > 500_000_000;
            let typing = last_input is Some && (now < last_input->0 || now - last_input->0
                < 1_000_000_000);
            &&& tier is HighThroughput <==> lasted
            &&& tier is Interactive <==> !lasted && bytes * 5 < 4096 && typing
            &&& delay_of(tier) == if lasted {
                8_000_000u64
            } else if bytes * 5 < 4096 && typing {
                0
            } else {
                2_000_000
            }
        }),
        high_since(since, bytes, now) is Some <==> bytes * 5 >= 102_400,
        bytes * 5 >= 102_400 && since is Some ==> high_since(since, bytes, now) == since,
        bytes * 5 >= 102_400 && since is None ==> high_since(since, bytes, now) == Some(now),
        forall|samples: Seq<(u64, u64)>|
            samples.len() > 0 && now >= samples[0].0 && now - samples[0].0 >= 200_000_000
                ==> #[trigger] recent(samples, bytes, now) == recent(
                samples.skip(1),
                less(bytes, samples[0].1),
                now,
            ),
        forall|samples: Seq<(u64, u64)>|
            samples.len() > 0 && (now < samples[0].0 || now - samples[0].0 < 200_000_000)
                ==> #[trigger] recent(samples, bytes, now) == (samples, bytes),
{
}

/// A frame is let through where nothing is held back, where none was let through
/// before, or once the delay since the last one is over.
pub proof fn law_frames_wait_for_the_delay(c: CoalescerModel, now: u64)
    ensures
        c.delay == 0 || c.last_emit is None ==> window_over(c, now),
        c.delay > 0 && c.last_emit is Some ==> (window_over(c, now) <==> now >= c.last_emit->0
            + c.delay),
{
}

/// A change that is noted takes the place of an earlier one of its file, or
/// comes behind the others; changes of other files stay where they are.
pub proof fn law_other_files_keep_their_changes<T>(
    list: Seq<PendingModel<T>>,
    change: PendingModel<T>,
    i: int,
)
    requires
        distinct_paths(list),
        0 <= i < list.len(),
    ensures
        noted(list, change)[i] == if list[i].path == change.path {
            change
        } else {
            list[i]
        },
{
    lemma_path_found(list, change.path, 0, i);
}

proof fn lemma_path_found<T>(list: Seq<PendingModel<T>>, path: Seq<char>, k: int, i: int)
    requires
        distinct_paths(list),
        0 <= k <= list.len(),
        0 <= i < list.len(),
    ensures
        k <= path_index(list, path, k) <= list.len(),
        path_index(list, path, k) < list.len() ==> list[path_index(list, path, k)].path == path,
        k <= i && list[i].path == path ==> path_index(list, path, k) == i,
    decreases list.len() - k,
{
    if k < list.len() && list[k].path != path {
        lemma_path_found(list, path, k + 1, i);
    } else if k < list.len() && k < i && list[i].path == path {
        assert(list[k].path != list[i].path);
    }
}

/// A change of a file is due once the file has been quiet for half a second.
pub proof fn law_quiet_files_are_due<T>(change: PendingModel<T>, now: u64)
    ensures
        is_due(change, now) <==> now >= change.last + 500_000_000,
{
}

/// The test for changes that are due, or are not.
pub open spec fn due_test<T>(now: u64, due: bool) -> spec_fn(PendingModel<T>) -> bool {
    |change: PendingModel<T>| is_due(change, now) == due
}

/// What is due is given out and what is not stays, both in their order, and each
/// change is given out with its file.
pub proof fn law_due_changes_are_given_out<T>(list: Seq<PendingModel<T>>, now: u64, due: bool)
    ensures
        sifted(list, now, due) == list.filter(due_test(now, due)),
        released(list).len() == list.len(),
        forall|i: int|
            0 <= i < list.len() ==> (#[trigger] released(list)[i]).0 == list[i].path && released(
                list,
            )[i].1 == list[i].trigger,
    decreases list.len(),
{
    reveal(Seq::filter);
    if list.len() > 0 {
        law_due_changes_are_given_out(list.drop_last(), now, due);
    }
}

} // verus!
