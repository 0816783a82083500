//! Recognising the markers between which a program wants its output shown at
//! once: `ESC [ ? 2026 h` and `ESC [ ? 2026 l`. Times are nanoseconds on a
//! clock that never goes back.
use vstd::prelude::*;

verus! {

/// How long output is held back at most.
pub const SYNC_TIMEOUT: u64 = 100_000_000;

/// The number of bytes that both markers begin with.
pub const PREFIX_LENGTH: usize = 7;

/// What both markers begin with.
pub open spec fn prefix() -> Seq<u8> {
    seq![0x1b, 0x5b, 0x3f, 0x32, 0x30, 0x32, 0x36]
}

/// What happened while bytes were read.
#[derive(Clone, Copy, Debug, PartialEq, Eq, Structural)]
pub struct Dec2026Transitions {
    pub began: bool,
    pub ended: bool,
}

impl Default for Dec2026Transitions {
    fn default() -> (transitions: Self)
        ensures
            transitions == (Dec2026Transitions { began: false, ended: false }),
    {
        Dec2026Transitions { began: false, ended: false }
    }
}

impl Dec2026Transitions {
    /// Whether output began to be held back.
    pub fn began(self) -> (began: bool)
        ensures
            began == self.began,
    {
        self.began
    }

    /// Whether output ceased to be held back.
    pub fn ended(self) -> (ended: bool)
        ensures
            ended == self.ended,
    {
        self.ended
    }
}

/// Watches output for the markers.
#[derive(Clone, Copy, Debug)]
pub struct Dec2026Parser {
    in_sync: bool,
    begin_time: Option<u64>,
    matched_prefix_bytes: usize,
}

/// The state of the watch: whether output is held back, since when, and how
/// much of a marker has been seen.
pub struct SyncModel {
    pub in_sync: bool,
    pub begin_time: Option<u64>,
    pub matched: nat,
}

impl View for Dec2026Parser {
    type V = SyncModel;

    closed spec fn view(&self) -> SyncModel {
        SyncModel {
            in_sync: self.in_sync,
            begin_time: self.begin_time,
            matched: self.matched_prefix_bytes as nat,
        }
    }
}

impl SyncModel {
    /// No more than the whole beginning has been seen, and there is a time since
    /// which output is held back exactly while it is.
    pub open spec fn wf(self) -> bool {
        &&& self.matched <= PREFIX_LENGTH
        &&& self.in_sync <==> self.begin_time is Some
    }
}

/// How much of the beginning of a marker has been seen after a byte.
pub open spec fn matched_after(matched: nat, byte: u8) -> nat {
    if matched < PREFIX_LENGTH && byte == prefix()[matched as int] {
        matched + 1
    } else if byte == prefix()[0] {
        1
    } else {
        0
    }
}

/// The state after a byte.
pub open spec fn after_byte(s: SyncModel, byte: u8, now: u64) -> SyncModel {
    let matched = matched_after(s.matched, byte);
    if s.matched == PREFIX_LENGTH && byte == 0x68 {
        SyncModel { in_sync: true, begin_time: Some(now), matched }
    } else if s.matched == PREFIX_LENGTH && byte == 0x6c && s.in_sync {
        SyncModel { in_sync: false, begin_time: None, matched }
    } else {
        SyncModel { matched, ..s }
    }
}

/// The state after bytes.
pub open spec fn after_bytes(s: SyncModel, bytes: Seq<u8>, now: u64) -> SyncModel
    decreases bytes.len(),
{
    if bytes.len() == 0 {
        s
    } else {
        after_byte(after_bytes(s, bytes.drop_last(), now), bytes.last(), now)
    }
}

/// Whether output is held back after the byte at a place, and was not before it.
pub open spec fn begins_at(s: SyncModel, bytes: Seq<u8>, now: u64, i: int) -> bool {
    !after_bytes(s, bytes.take(i), now).in_sync && after_bytes(s, bytes.take(i + 1), now).in_sync
}

/// Whether output is not held back after the byte at a place, and was before it.
pub open spec fn ends_at(s: SyncModel, bytes: Seq<u8>, now: u64, i: int) -> bool {
    after_bytes(s, bytes.take(i), now).in_sync && !after_bytes(s, bytes.take(i + 1), now).in_sync
}

/// Whether output began to be held back at some byte.
pub open spec fn begins(s: SyncModel, bytes: Seq<u8>, now: u64) -> bool {
    exists|i: int| 0 <= i < bytes.len() && #[trigger] begins_at(s, bytes, now, i)
}

/// Whether output ceased to be held back at some byte.
pub open spec fn ends(s: SyncModel, bytes: Seq<u8>, now: u64) -> bool {
    exists|i: int| 0 <= i < bytes.len() && #[trigger] ends_at(s, bytes, now, i)
}

fn prefix_byte(index: usize) -> (byte: u8)
    requires
        index < PREFIX_LENGTH,
    ensures
        byte == prefix()[index as int],
{
    match index {
        0 => 0x1b,
        1 => 0x5b,
        2 => 0x3f,
        3 => 0x32,
        4 => 0x30,
        5 => 0x32,
        _ => 0x36,
    }
}

impl Default for Dec2026Parser {
    fn default() -> (parser: Self)
        ensures
            parser@ == (SyncModel { in_sync: false, begin_time: None, matched: 0 }),
            parser@.wf(),
    {
        Dec2026Parser::new()
    }
}

impl Dec2026Parser {
    /// Nothing has been seen yet.
    pub fn new() -> (parser: Self)
        ensures
            parser@ == (SyncModel { in_sync: false, begin_time: None, matched: 0 }),
            parser@.wf(),
    {
        Dec2026Parser { in_sync: false, begin_time: None, matched_prefix_bytes: 0 }
    }

    /// Watches bytes go by.
    pub fn parse(&mut self, bytes: &[u8], now: u64) -> (transitions: Dec2026Transitions)
        requires
            old(self)@.wf(),
        ensures
            final(self)@ == after_bytes(old(self)@, bytes@, now),
            final(self)@.wf(),
            transitions.began == begins(old(self)@, bytes@, now),
            transitions.ended == ends(old(self)@, bytes@, now),
    {
        let mut began: bool = false;
        let mut ended: bool = false;
        let ghost start = self@;
        let mut i: usize = 0;
        assert(bytes@.take(0) =~= Seq::<u8>::empty());
        while i < bytes.len()
            invariant
                i <= bytes@.len(),
                self@ == after_bytes(start, bytes@.take(i as int), now),
                self@.wf(),
                began == exists|j: int| 0 <= j < i && #[trigger] begins_at(start, bytes@, now, j),
                ended == exists|j: int| 0 <= j < i && #[trigger] ends_at(start, bytes@, now, j),
            decreases bytes.len() - i,
        {
            let byte: u8 = bytes[i];
            let ghost before = self@;
            proof {
                assert(bytes@.take(i + 1).drop_last() =~= bytes@.take(i as int));
                assert(bytes@.take(i + 1).last() == byte);
            }
            if self.matched_prefix_bytes < PREFIX_LENGTH {
                if byte == prefix_byte(self.matched_prefix_bytes) {
                    self.matched_prefix_bytes = self.matched_prefix_bytes + 1;
                } else if byte == prefix_byte(0) {
                    self.matched_prefix_bytes = 1;
                } else {
                    self.matched_prefix_bytes = 0;
                }
            } else {
                self.matched_prefix_bytes = if byte == prefix_byte(0) {
                    1
                } else {
                    0
                };
                if byte == 0x68 {
                    if !self.in_sync {
                        began = true;
                    }
                    self.in_sync = true;
                    self.begin_time = Some(now);
                } else if byte == 0x6c && self.in_sync {
                    self.in_sync = false;
                    self.begin_time = None;
                    ended = true;
                }
            }
            assert(self@ == after_byte(before, byte, now));
            proof {
                let here = i as int;
                assert(begins_at(start, bytes@, now, here) == (!before.in_sync && self@.in_sync));
                assert(ends_at(start, bytes@, now, here) == (before.in_sync && !self@.in_sync));
            }
            i = i + 1;
        }
        assert(bytes@.take(i as int) =~= bytes@);
        Dec2026Transitions { began, ended }
    }

    /// Ends holding back output that was held back for too long.
    pub fn check_timeout(&mut self, now: u64) -> (timed_out: bool)
        ensures
            timed_out == (old(self)@.begin_time is Some && now >= old(self)@.begin_time->0
                + SYNC_TIMEOUT),
            final(self)@ == if timed_out {
                SyncModel { in_sync: false, begin_time: None, ..old(self)@ }
            } else {
                old(self)@
            },
            old(self)@.wf() ==> final(self)@.wf() && (timed_out ==> old(self)@.in_sync),
    {
        match self.begin_time {
            Some(begin) => {
                if now.saturating_sub(begin) >= SYNC_TIMEOUT {
                    self.in_sync = false;
                    self.begin_time = None;
                    return true;
                }
            },
            None => {},
        }
        false
    }

    /// Whether output is held back.
    pub fn is_in_sync(&self) -> (in_sync: bool)
        ensures
            in_sync == self@.in_sync,
    {
        self.in_sync
    }

    /// Forgets everything.
    pub fn reset(&mut self)
        ensures
            final(self)@ == (SyncModel { in_sync: false, begin_time: None, matched: 0 }),
            final(self)@.wf(),
    {
        self.in_sync = false;
        self.begin_time = None;
        self.matched_prefix_bytes = 0;
    }
}

/// However output is cut into reads, the watch ends up the same.
pub proof fn law_reads_may_be_split(s: SyncModel, a: Seq<u8>, b: Seq<u8>, now: u64)
    ensures
        after_bytes(s, a + b, now) == after_bytes(after_bytes(s, a, now), b, now),
    decreases b.len(),
{
    if b.len() == 0 {
        assert(a + b =~= a);
    } else {
        law_reads_may_be_split(s, a, b.drop_last(), now);
        assert((a + b).drop_last() =~= a + b.drop_last());
        assert((a + b).last() == b.last());
    }
}

/// A marker is recognised whatever came before it.
pub proof fn law_markers_are_recognised(s: SyncModel, now: u64)
    requires
        s.wf(),
    ensures
        after_bytes(s, prefix().push(0x68), now).in_sync,
        after_bytes(s, prefix().push(0x68), now).begin_time == Some(now),
        !after_bytes(s, prefix().push(0x6c), now).in_sync,
{
    assert(after_bytes(s, prefix(), now).matched == PREFIX_LENGTH) by {
        let p = prefix();
        assert(p.take(0) =~= Seq::<u8>::empty());
        assert(after_bytes(s, p.take(0), now) == s);
        assert forall|i: int| 0 <= i < 7 implies #[trigger] p.take(i + 1).drop_last() =~= p.take(i)
            && p.take(i + 1).last() == p[i] by {}
        assert(p.take(1).drop_last() =~= p.take(0));
        assert(after_bytes(s, p.take(1), now).matched == 1);
        assert(p.take(2).drop_last() =~= p.take(1));
        assert(after_bytes(s, p.take(2), now).matched == 2);
        assert(p.take(3).drop_last() =~= p.take(2));
        assert(after_bytes(s, p.take(3), now).matched == 3);
        assert(p.take(4).drop_last() =~= p.take(3));
        assert(after_bytes(s, p.take(4), now).matched == 4);
        assert(p.take(5).drop_last() =~= p.take(4));
        assert(after_bytes(s, p.take(5), now).matched == 5);
        assert(p.take(6).drop_last() =~= p.take(5));
        assert(after_bytes(s, p.take(6), now).matched == 6);
        assert(p.take(7).drop_last() =~= p.take(6));
        assert(p.take(7) =~= p);
    }
    assert(prefix().push(0x68).drop_last() =~= prefix());
    assert(prefix().push(0x6c).drop_last() =~= prefix());
}

proof fn lemma_matched(s: SyncModel, bytes: Seq<u8>, now: u64)
    requires
        s.matched == 0,
    ensures
        ({
            let m = after_bytes(s, bytes, now).matched;
            &&& m <= PREFIX_LENGTH
            &&& m <= bytes.len()
            &&& bytes.skip(bytes.len() - m) == prefix().take(m as int)
        }),
    decreases bytes.len(),
{
    let m = after_bytes(s, bytes, now).matched;
    if bytes.len() == 0 {
        assert(bytes.skip(0) =~= prefix().take(0));
    } else {
        let init = bytes.drop_last();
        lemma_matched(s, init, now);
        let k = after_bytes(s, init, now).matched;
        let tail = bytes.skip(bytes.len() - m);
        if k < PREFIX_LENGTH && bytes.last() == prefix()[k as int] {
            assert forall|j: int| 0 <= j < m implies tail[j] == prefix().take(m as int)[j] by {
                if j < k {
                    assert(init.skip(init.len() - k)[j] == prefix().take(k as int)[j]);
                }
            }
        }
        assert(tail =~= prefix().take(m as int));
    }
}

/// Only a whole marker switches: where the state changes at a byte, the bytes
/// up to it end with one.
pub proof fn law_only_markers_switch(s: SyncModel, bytes: Seq<u8>, byte: u8, now: u64)
    requires
        s.matched == 0,
        after_bytes(s, bytes.push(byte), now).in_sync != after_bytes(s, bytes, now).in_sync,
    ensures
        bytes.len() >= PREFIX_LENGTH,
        bytes.skip(bytes.len() - PREFIX_LENGTH) == prefix(),
        byte == if after_bytes(s, bytes, now).in_sync {
            0x6cu8
        } else {
            0x68u8
        },
{
    assert(bytes.push(byte).drop_last() =~= bytes);
    lemma_matched(s, bytes, now);
    assert(prefix().take(7) =~= prefix());
}

/// The markers are those of private mode 2026: set, they hold updates back from
/// then on, and reset, they let them through.
pub proof fn law_markers_are_those_of_mode_2026(s: SyncModel, now: u64)
    requires
        s.wf(),
    ensures
        after_bytes(
            s,
            seq![0x1bu8, 0x5b, 0x3f, 0x32, 0x30, 0x32, 0x36, 0x68],
            now,
        ).begin_time == Some(now),
        after_bytes(s, seq![0x1bu8, 0x5b, 0x3f, 0x32, 0x30, 0x32, 0x36, 0x68], now).in_sync,
        !after_bytes(s, seq![0x1bu8, 0x5b, 0x3f, 0x32, 0x30, 0x32, 0x36, 0x6c], now).in_sync,
{
    law_markers_are_recognised(s, now);
    assert(prefix().push(0x68) =~= seq![0x1bu8, 0x5b, 0x3f, 0x32, 0x30, 0x32, 0x36, 0x68]);
    assert(prefix().push(0x6c) =~= seq![0x1bu8, 0x5b, 0x3f, 0x32, 0x30, 0x32, 0x36, 0x6c]);
}

/// Output began or ceased to be held back in a read just where it did so at one
/// of its bytes: a byte does so by itself, and a read where one of its parts does.
pub proof fn law_changes_happen_at_a_byte(
    s: SyncModel,
    a: Seq<u8>,
    b: Seq<u8>,
    byte: u8,
    now: u64,
)
    ensures
        !begins(s, Seq::empty(), now) && !ends(s, Seq::empty(), now),
        begins(s, seq![byte], now) <==> !s.in_sync && after_bytes(s, seq![byte], now).in_sync,
        ends(s, seq![byte], now) <==> s.in_sync && !after_bytes(s, seq![byte], now).in_sync,
        begins(s, a + b, now) <==> begins(s, a, now) || begins(after_bytes(s, a, now), b, now),
        ends(s, a + b, now) <==> ends(s, a, now) || ends(after_bytes(s, a, now), b, now),
{
    let one = seq![byte];
    assert(one.take(0) =~= Seq::empty());
    assert(one.take(1) =~= one);
    assert(begins_at(s, one, now, 0) == (!s.in_sync && after_bytes(s, one, now).in_sync));
    assert(ends_at(s, one, now, 0) == (s.in_sync && !after_bytes(s, one, now).in_sync));
    let all = a + b;
    let then = after_bytes(s, a, now);
    assert forall|i: int| 0 <= i < a.len() implies #[trigger] begins_at(s, all, now, i)
        == begins_at(s, a, now, i) && ends_at(s, all, now, i) == ends_at(s, a, now, i) by {
        assert(all.take(i) =~= a.take(i));
        assert(all.take(i + 1) =~= a.take(i + 1));
    }
    assert forall|i: int| 0 <= i < b.len() implies begins_at(s, all, now, a.len() + i)
        == #[trigger] begins_at(then, b, now, i) && ends_at(s, all, now, a.len() + i) == ends_at(
        then,
        b,
        now,
        i,
    ) by {
        assert(all.take(a.len() + i) =~= a + b.take(i));
        assert(all.take(a.len() + i + 1) =~= a + b.take(i + 1));
        law_reads_may_be_split(s, a, b.take(i), now);
        law_reads_may_be_split(s, a, b.take(i + 1), now);
    }
    if begins(s, a, now) {
        let i = choose|i: int| 0 <= i < a.len() && #[trigger] begins_at(s, a, now, i);
        assert(begins_at(s, all, now, i));
    }
    if ends(s, a, now) {
        let i = choose|i: int| 0 <= i < a.len() && #[trigger] ends_at(s, a, now, i);
        assert(begins_at(s, all, now, i) == begins_at(s, a, now, i));
        assert(ends_at(s, all, now, i));
    }
    if begins(then, b, now) {
        let i = choose|i: int| 0 <= i < b.len() && #[trigger] begins_at(then, b, now, i);
        assert(begins_at(s, all, now, a.len() + i));
    }
    if ends(then, b, now) {
        let i = choose|i: int| 0 <= i < b.len() && #[trigger] ends_at(then, b, now, i);
        assert(begins_at(then, b, now, i) == begins_at(s, all, now, a.len() + i));
        assert(ends_at(s, all, now, a.len() + i));
    }
    if begins(s, all, now) {
        let i = choose|i: int| 0 <= i < all.len() && #[trigger] begins_at(s, all, now, i);
        if i >= a.len() {
            assert(begins_at(then, b, now, i - a.len()));
        }
    }
    if ends(s, all, now) {
        let i = choose|i: int| 0 <= i < all.len() && #[trigger] ends_at(s, all, now, i);
        if i >= a.len() {
            assert(begins_at(then, b, now, i - a.len()) == begins_at(s, all, now, i));
            assert(ends_at(then, b, now, i - a.len()));
        } else {
            assert(begins_at(s, all, now, i) == begins_at(s, a, now, i));
            assert(ends_at(s, a, now, i));
        }
    }
}

} // verus!
