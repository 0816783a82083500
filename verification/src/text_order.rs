//! Lists of things that go by a text, and their order.
use crate::text;
use crate::text::same_text;
use vstd::prelude::*;
use vstd::string::*;

verus! {

/// Whether a text comes before another one or is the same, character by
/// character from a place on.
pub open spec fn not_after(a: Seq<char>, b: Seq<char>, k: int) -> bool
    decreases a.len() - k,
{
    if k < 0 || k >= a.len() {
        true
    } else if k >= b.len() {
        false
    } else if a[k] != b[k] {
        a[k] < b[k]
    } else {
        not_after(a, b, k + 1)
    }
}

/// Whether a text comes before another one or is the same.
pub fn in_order(a: &str, b: &str) -> (yes: bool)
    ensures
        yes == not_after(a@, b@, 0),
{
    let n: usize = a.unicode_len();
    let m: usize = b.unicode_len();
    let mut k: usize = 0;
    while k < n
        invariant
            k <= n,
            n == a@.len(),
            m == b@.len(),
            not_after(a@, b@, 0) == not_after(a@, b@, k as int),
        decreases n - k,
    {
        if k >= m {
            return false;
        }
        let x: char = a.get_char(k);
        let y: char = b.get_char(k);
        if x != y {
            return x < y;
        }
        k = k + 1;
    }
    true
}

/// The order of texts is total and can be followed on.
pub proof fn lemma_not_after(a: Seq<char>, b: Seq<char>, c: Seq<char>, k: int)
    requires
        0 <= k,
    ensures
        not_after(a, b, k) || not_after(b, a, k),
        not_after(a, b, k) && not_after(b, c, k) ==> not_after(a, c, k),
    decreases a.len() - k,
{
    if k < a.len() && k < b.len() && k < c.len() {
        lemma_not_after(a, b, c, k + 1);
    } else if k < a.len() && k < b.len() && a[k] == b[k] {
        lemma_not_after(a, b, c, k + 1);
    }
}

/// Something that goes by a text.
pub trait Named {
    /// The text.
    spec fn key(&self) -> Seq<char>;
}

/// Something whose text can be read.
pub trait Keyed: Named {
    /// The text.
    fn key_text(&self) -> (key: &str)
        ensures
            key@ == self.key(),
    ;
}

/// The texts that things go by.
pub open spec fn keys<T: Named>(list: Seq<T>) -> Seq<Seq<char>> {
    list.map_values(|t: T| t.key())
}

/// A sorted list with one more thing, behind those that do not come after it.
pub open spec fn inserted<T: Named>(sorted: Seq<T>, thing: T) -> Seq<T>
    decreases sorted.len(),
{
    if sorted.len() == 0 || not_after(sorted.last().key(), thing.key(), 0) {
        sorted.push(thing)
    } else {
        inserted(sorted.drop_last(), thing).push(sorted.last())
    }
}

/// A list in the order of its texts.
pub open spec fn by_key<T: Named>(list: Seq<T>) -> Seq<T>
    decreases list.len(),
{
    if list.len() == 0 {
        Seq::empty()
    } else {
        inserted(by_key(list.drop_last()), list.last())
    }
}

/// Two lists in order as one; of things that go by the same text those of the
/// first list come first.
pub open spec fn merged<T: Named>(first: Seq<T>, second: Seq<T>) -> Seq<T>
    decreases first.len() + second.len(),
{
    if first.len() == 0 {
        second
    } else if second.len() == 0 {
        first
    } else if not_after(first.last().key(), second.last().key(), 0) {
        merged(first, second.drop_last()).push(second.last())
    } else {
        merged(first.drop_last(), second).push(first.last())
    }
}

/// One more thing goes into two lists as it goes into the second.
proof fn lemma_inserted_merged<T: Named>(first: Seq<T>, second: Seq<T>, thing: T)
    ensures
        inserted(merged(first, second), thing) == merged(first, inserted(second, thing)),
    decreases first.len() + second.len(),
{
    let more = inserted(second, thing);
    let x = thing.key();
    if first.len() > 0 {
        let a = first.last().key();
        let init = first.drop_last();
        if second.len() == 0 || not_after(second.last().key(), x, 0) {
            assert(more.drop_last() =~= second);
            if second.len() > 0 {
                lemma_not_after(a, second.last().key(), x, 0);
            }
            if !not_after(a, x, 0) {
                lemma_inserted_merged(init, second, thing);
                if second.len() == 0 {
                    assert(merged(init, second) =~= init);
                } else {
                    assert(merged(first, second).drop_last() =~= merged(init, second));
                }
            }
        } else {
            let b = second.last().key();
            assert(more.drop_last() =~= inserted(second.drop_last(), thing));
            if not_after(a, b, 0) {
                lemma_inserted_merged(first, second.drop_last(), thing);
                assert(merged(first, second).drop_last() =~= merged(first, second.drop_last()));
            } else {
                lemma_not_after(a, b, b, 0);
                lemma_not_after(b, a, x, 0);
                lemma_inserted_merged(init, second, thing);
                assert(merged(first, second).drop_last() =~= merged(init, second));
            }
        }
    }
}

/// Two parts of a list, each put in order, make up the list in order.
proof fn lemma_merged_by_key<T: Named>(first: Seq<T>, second: Seq<T>)
    ensures
        by_key(first + second) == merged(by_key(first), by_key(second)),
    decreases second.len(),
{
    if second.len() == 0 {
        assert(first + second =~= first);
    } else {
        let init = second.drop_last();
        assert((first + second).drop_last() =~= first + init);
        lemma_merged_by_key(first, init);
        lemma_inserted_merged(by_key(first), by_key(init), second.last());
    }
}

/// Makes one list of two.
fn merge<T: Keyed>(first: Vec<T>, second: Vec<T>) -> (list: Vec<T>)
    ensures
        list@ == merged(first@, second@),
{
    let mut a: Vec<T> = first;
    let mut b: Vec<T> = second;
    let mut taken: Vec<T> = Vec::new();
    let ghost all = merged(a@, b@);
    assert(all =~= all + taken@.reverse());
    while a.len() > 0 && b.len() > 0
        invariant
            all == merged(a@, b@) + taken@.reverse(),
        decreases a.len() + b.len(),
    {
        let ghost left = a@;
        let ghost right = b@;
        let ghost behind = taken@;
        let from_second: bool = in_order(
            a[a.len() - 1].key_text(),
            b[b.len() - 1].key_text(),
        );
        let last: Option<T> = if from_second {
            b.pop()
        } else {
            a.pop()
        };
        proof {
            if from_second {
                assert(b@ =~= right.drop_last());
            } else {
                assert(a@ =~= left.drop_last());
            }
        }
        if let Some(thing) = last {
            taken.push(thing);
            assert(merged(left, right) + behind.reverse() =~= merged(a@, b@) + taken@.reverse());
        }
    }
    let ghost rest = merged(a@, b@);
    a.append(&mut b);
    assert(a@ =~= rest);
    while taken.len() > 0
        invariant
            all == a@ + taken@.reverse(),
        decreases taken.len(),
    {
        let ghost before = a@;
        let ghost behind = taken@;
        if let Some(thing) = taken.pop() {
            a.push(thing);
            assert(before + behind.reverse() =~= a@ + taken@.reverse());
        }
    }
    assert(all =~= a@);
    a
}

/// Puts a list in the order of its texts. Halves are put in order first and then
/// made one.
pub fn sort_by_key<T: Keyed>(list: Vec<T>) -> (sorted: Vec<T>)
    ensures
        sorted@ == by_key(list@),
    decreases list@.len(),
{
    let mut first: Vec<T> = list;
    let ghost all = first@;
    if first.len() < 2 {
        proof {
            if all.len() == 1 {
                assert(by_key(all.drop_last()) =~= Seq::<T>::empty());
            }
            assert(by_key(all) =~= all);
        }
        return first;
    }
    let half: usize = first.len() / 2;
    let second: Vec<T> = first.split_off(half);
    proof {
        assert(all =~= first@ + second@);
        lemma_merged_by_key(first@, second@);
    }
    merge(sort_by_key(first), sort_by_key(second))
}

proof fn lemma_inserted<T: Named>(sorted: Seq<T>, thing: T)
    ensures
        inserted(sorted, thing).to_multiset() == sorted.to_multiset().insert(thing),
        inserted(sorted, thing).len() == sorted.len() + 1,
        forall|x: T|
            #[trigger] inserted(sorted, thing).contains(x) <==> (sorted.contains(x) || x == thing),
    decreases sorted.len(),
{
    broadcast use vstd::seq_lib::group_to_multiset_ensures;

    let after = inserted(sorted, thing);
    if sorted.len() == 0 || not_after(sorted.last().key(), thing.key(), 0) {
        assert forall|x: T| #[trigger] after.contains(x) <==> (sorted.contains(x) || x
            == thing) by {
            assert(after[after.len() - 1] == thing);
            if sorted.contains(x) {
                let i = choose|i: int| 0 <= i < sorted.len() && sorted[i] == x;
                assert(after[i] == x);
            }
            if after.contains(x) {
                let i = choose|i: int| 0 <= i < after.len() && after[i] == x;
                if i < sorted.len() {
                    assert(sorted[i] == x);
                }
            }
        }
    } else {
        let init = sorted.drop_last();
        let last = sorted.last();
        lemma_inserted(init, thing);
        let part = inserted(init, thing);
        assert(sorted =~= init.push(last));
        assert(after.to_multiset() =~= sorted.to_multiset().insert(thing)) by {
            assert(after.to_multiset() =~= part.to_multiset().insert(last));
            assert(sorted.to_multiset() =~= init.to_multiset().insert(last));
        }
        assert forall|x: T| #[trigger] after.contains(x) <==> (sorted.contains(x) || x
            == thing) by {
            assert(inserted(init, thing).contains(x) <==> (init.contains(x) || x == thing));
            assert(after[after.len() - 1] == last);
            assert(sorted[sorted.len() - 1] == last);
            if after.contains(x) {
                let i = choose|i: int| 0 <= i < after.len() && after[i] == x;
                if i < part.len() {
                    assert(part[i] == x);
                    assert(part.contains(x));
                    if x != thing {
                        let k = choose|k: int| 0 <= k < init.len() && init[k] == x;
                        assert(sorted[k] == x);
                    }
                }
            }
            if (sorted.contains(x) || x == thing) && x != last {
                if sorted.contains(x) {
                    let k = choose|k: int| 0 <= k < sorted.len() && sorted[k] == x;
                    assert(init[k] == x);
                    assert(init.contains(x));
                }
                let k = choose|k: int| 0 <= k < part.len() && part[k] == x;
                assert(after[k] == x);
            }
        }
    }
}

/// A list in order has the same things as the list.
pub proof fn law_order_keeps_everything<T: Named>(list: Seq<T>, x: T)
    ensures
        by_key(list).contains(x) <==> list.contains(x),
        by_key(list).len() == list.len(),
        by_key(list).to_multiset() == list.to_multiset(),
    decreases list.len(),
{
    broadcast use vstd::seq_lib::group_to_multiset_ensures;

    if list.len() > 0 {
        let init = list.drop_last();
        law_order_keeps_everything(init, x);
        lemma_inserted(by_key(init), list.last());
        assert(list =~= init.push(list.last()));
        assert(list.to_multiset() =~= init.to_multiset().insert(list.last()));
        assert(list[list.len() - 1] == list.last());
        if list.contains(x) {
            let k = choose|k: int| 0 <= k < list.len() && list[k] == x;
            if k < init.len() {
                assert(init[k] == x);
                assert(init.contains(x));
            }
        }
        if init.contains(x) {
            let k = choose|k: int| 0 <= k < init.len() && init[k] == x;
            assert(list[k] == x);
        }
        assert(inserted(by_key(init), list.last()).contains(x) <==> (by_key(init).contains(x)
            || x == list.last()));
    }
}

/// Whether things are in the order of their texts.
pub open spec fn is_ordered<T: Named>(list: Seq<T>) -> bool {
    forall|i: int, j: int|
        0 <= i < j < list.len() ==> not_after(
            (#[trigger] list[i]).key(),
            (#[trigger] list[j]).key(),
            0,
        )
}

proof fn lemma_inserted_in_order<T: Named>(sorted: Seq<T>, thing: T, bound: Seq<char>)
    requires
        is_ordered(sorted),
    ensures
        is_ordered(inserted(sorted, thing)),
        (not_after(thing.key(), bound, 0) && forall|i: int|
            0 <= i < sorted.len() ==> not_after((#[trigger] sorted[i]).key(), bound, 0)) ==> (
        forall|i: int|
            0 <= i < inserted(sorted, thing).len() ==> not_after(
                (#[trigger] inserted(sorted, thing)[i]).key(),
                bound,
                0,
            )),
    decreases sorted.len(),
{
    let after = inserted(sorted, thing);
    if sorted.len() == 0 {
    } else if not_after(sorted.last().key(), thing.key(), 0) {
        assert forall|i: int, j: int| 0 <= i < j < after.len() implies not_after(
            (#[trigger] after[i]).key(),
            (#[trigger] after[j]).key(),
            0,
        ) by {
            if j == sorted.len() {
                lemma_not_after(sorted[i].key(), sorted.last().key(), thing.key(), 0);
            }
        }
    } else {
        let init = sorted.drop_last();
        let last = sorted.last();
        lemma_inserted_in_order(init, thing, bound);
        lemma_inserted_in_order(init, thing, last.key());
        lemma_not_after(last.key(), thing.key(), last.key(), 0);
        let part = inserted(init, thing);
        assert forall|i: int| 0 <= i < init.len() implies not_after(
            (#[trigger] init[i]).key(),
            last.key(),
            0,
        ) by {
            assert(not_after(sorted[i].key(), sorted[sorted.len() - 1].key(), 0));
        }
        assert forall|i: int, j: int| 0 <= i < j < after.len() implies not_after(
            (#[trigger] after[i]).key(),
            (#[trigger] after[j]).key(),
            0,
        ) by {
            assert(part[i] == after[i]);
            if j < part.len() {
                assert(part[j] == after[j]);
            }
        }
        if not_after(thing.key(), bound, 0) && (forall|i: int|
            0 <= i < sorted.len() ==> not_after((#[trigger] sorted[i]).key(), bound, 0)) {
            assert forall|i: int| 0 <= i < init.len() implies not_after(
                (#[trigger] init[i]).key(),
                bound,
                0,
            ) by {
                assert(not_after(sorted[i].key(), bound, 0));
            }
            assert forall|i: int| 0 <= i < after.len() implies not_after(
                (#[trigger] after[i]).key(),
                bound,
                0,
            ) by {
                if i < part.len() {
                    assert(part[i] == after[i]);
                } else {
                    assert(sorted[sorted.len() - 1] == last);
                }
            }
        }
    }
}

/// What is put in order is in order.
pub proof fn law_order_is_kept<T: Named>(list: Seq<T>)
    ensures
        is_ordered(by_key(list)),
    decreases list.len(),
{
    if list.len() > 0 {
        law_order_is_kept(list.drop_last());
        lemma_inserted_in_order(by_key(list.drop_last()), list.last(), list.last().key());
    }
}

proof fn lemma_inserted_keys<T: Named>(sorted: Seq<T>, thing: T)
    ensures
        keys(inserted(sorted, thing)).to_multiset() == keys(sorted).to_multiset().insert(
            thing.key(),
        ),
    decreases sorted.len(),
{
    broadcast use vstd::seq_lib::group_to_multiset_ensures;

    let after = inserted(sorted, thing);
    if sorted.len() == 0 || not_after(sorted.last().key(), thing.key(), 0) {
        assert(keys(after) =~= keys(sorted).push(thing.key()));
    } else {
        let init = sorted.drop_last();
        let last = sorted.last();
        lemma_inserted_keys(init, thing);
        let part = inserted(init, thing);
        assert(keys(after) =~= keys(part).push(last.key()));
        assert(keys(sorted) =~= keys(init).push(last.key()));
        assert(keys(after).to_multiset() =~= keys(sorted).to_multiset().insert(thing.key()));
    }
}

/// The texts of a list in order are those of the list.
pub proof fn law_order_keeps_keys<T: Named>(list: Seq<T>)
    ensures
        keys(by_key(list)).to_multiset() == keys(list).to_multiset(),
    decreases list.len(),
{
    broadcast use vstd::seq_lib::group_to_multiset_ensures;

    if list.len() > 0 {
        let init = list.drop_last();
        law_order_keeps_keys(init);
        lemma_inserted_keys(by_key(init), list.last());
        assert(keys(list) =~= keys(init).push(list.last().key()));
    } else {
        assert(keys(by_key(list)) =~= keys(list));
    }
}

/// Lists with the same texts have the same of them, and repeat one only where
/// the other does.
pub proof fn lemma_same_texts(a: Seq<Seq<char>>, b: Seq<Seq<char>>)
    requires
        a.to_multiset() == b.to_multiset(),
    ensures
        a.len() == b.len(),
        a.no_duplicates() ==> b.no_duplicates(),
        forall|x: Seq<char>| #[trigger] a.contains(x) <==> b.contains(x),
{
    broadcast use vstd::seq_lib::group_to_multiset_ensures;

    assert forall|x: Seq<char>| #[trigger] a.contains(x) <==> b.contains(x) by {
        assert(a.contains(x) <==> a.to_multiset().count(x) > 0);
        assert(b.contains(x) <==> b.to_multiset().count(x) > 0);
    }
    assert(a.to_multiset().len() == a.len());
    assert(b.to_multiset().len() == b.len());
    if a.no_duplicates() {
        a.lemma_multiset_has_no_duplicates();
        b.lemma_multiset_has_no_duplicates_conv();
    }
}

proof fn lemma_mapped_inserted<T: Named, U: Named>(sorted: Seq<T>, thing: T, f: spec_fn(T) -> U)
    requires
        forall|t: T| (#[trigger] f(t)).key() == t.key(),
    ensures
        inserted(sorted, thing).map_values(f) == inserted(sorted.map_values(f), f(thing)),
    decreases sorted.len(),
{
    if sorted.len() == 0 || not_after(sorted.last().key(), thing.key(), 0) {
        if sorted.len() > 0 {
            assert(f(sorted.last()).key() == sorted.last().key());
        }
        assert(f(thing).key() == thing.key());
        assert(sorted.push(thing).map_values(f) =~= sorted.map_values(f).push(f(thing)));
    } else {
        let init = sorted.drop_last();
        let last = sorted.last();
        assert(f(last).key() == last.key());
        assert(f(thing).key() == thing.key());
        lemma_mapped_inserted(init, thing, f);
        assert(sorted.map_values(f).drop_last() =~= init.map_values(f));
        let part = inserted(init, thing);
        assert(part.push(last).map_values(f) =~= part.map_values(f).push(f(last)));
    }
}

/// It does not matter whether things are put in order before or after
/// something is made of each that goes by the same text.
pub proof fn lemma_mapped_by_key<T: Named, U: Named>(list: Seq<T>, f: spec_fn(T) -> U)
    requires
        forall|t: T| (#[trigger] f(t)).key() == t.key(),
    ensures
        by_key(list).map_values(f) == by_key(list.map_values(f)),
    decreases list.len(),
{
    if list.len() > 0 {
        let init = list.drop_last();
        lemma_mapped_by_key(init, f);
        assert(list.map_values(f).drop_last() =~= init.map_values(f));
        lemma_mapped_inserted(by_key(init), list.last(), f);
    } else {
        assert(by_key(list).map_values(f) =~= by_key(list.map_values(f)));
    }
}

/// Finds a text in a list, from the first on.
fn find_text(list: &Vec<String>, wanted: &str) -> (index: usize)
    ensures
        index <= list@.len(),
        index < list@.len() ==> text::texts(list@)[index as int] == wanted@,
        index == list@.len() ==> !text::texts(list@).contains(wanted@),
{
    let mut i: usize = 0;
    while i < list.len()
        invariant
            i <= list.len(),
            forall|j: int| 0 <= j < i ==> text::texts(list@)[j] != wanted@,
        decreases list.len() - i,
    {
        assert(text::texts(list@)[i as int] == list@[i as int]@);
        if same_text(list[i].as_str(), wanted) {
            return i;
        }
        i = i + 1;
    }
    i
}

proof fn lemma_pairing_fails(
    left: Seq<Seq<char>>,
    right: Seq<Seq<char>>,
    rest: Seq<Seq<char>>,
    i: int,
)
    requires
        0 <= i < left.len(),
        left.take(i).to_multiset().add(rest.to_multiset()) == right.to_multiset(),
        !rest.contains(left[i]),
    ensures
        left.to_multiset() != right.to_multiset(),
{
    broadcast use vstd::seq_lib::group_to_multiset_ensures;

    let wanted = left[i];
    assert(left.take(i + 1) =~= left.take(i).push(wanted));
    assert(left.take(i + 1).to_multiset() =~= left.take(i).to_multiset().insert(wanted));
    lemma_count_take(left, i + 1, wanted);
    assert(rest.to_multiset().count(wanted) == 0);
    assert(right.to_multiset().count(wanted) == left.take(i).to_multiset().count(wanted));
}

proof fn lemma_pairing_goes_on(
    left: Seq<Seq<char>>,
    right: Seq<Seq<char>>,
    rest: Seq<Seq<char>>,
    i: int,
    k: int,
)
    requires
        0 <= i < left.len(),
        0 <= k < rest.len(),
        left.take(i).to_multiset().add(rest.to_multiset()) == right.to_multiset(),
        rest[k] == left[i],
    ensures
        left.take(i + 1).to_multiset().add(rest.remove(k).to_multiset()) == right.to_multiset(),
{
    broadcast use vstd::seq_lib::group_to_multiset_ensures;

    let wanted = left[i];
    assert(left.take(i + 1) =~= left.take(i).push(wanted));
    assert(left.take(i + 1).to_multiset() =~= left.take(i).to_multiset().insert(wanted));
    assert(rest.contains(rest[k]));
    assert(rest.to_multiset().count(wanted) > 0);
    assert(rest.remove(k).to_multiset() =~= rest.to_multiset().remove(wanted));
    assert(left.take(i + 1).to_multiset().add(rest.remove(k).to_multiset())
        =~= right.to_multiset());
}

proof fn lemma_pairing_ends(left: Seq<Seq<char>>, right: Seq<Seq<char>>, rest: Seq<Seq<char>>)
    requires
        left.to_multiset().add(rest.to_multiset()) == right.to_multiset(),
    ensures
        left.to_multiset() == right.to_multiset() <==> rest.len() == 0,
{
    broadcast use vstd::seq_lib::group_to_multiset_ensures;

    if rest.len() == 0 {
        assert(rest.to_multiset().len() == 0);
        assert(left.to_multiset() =~= right.to_multiset());
    } else {
        let first = rest[0];
        assert(rest.contains(first));
        assert(rest.to_multiset().count(first) > 0);
        assert(left.to_multiset().count(first) != right.to_multiset().count(first));
    }
}

proof fn lemma_pairing_begins(left: Seq<Seq<char>>, right: Seq<Seq<char>>)
    ensures
        left.take(0).to_multiset().add(right.to_multiset()) == right.to_multiset(),
{
    broadcast use vstd::seq_lib::group_to_multiset_ensures;

    assert(left.take(0).to_multiset().len() == 0);
    assert(left.take(0).to_multiset().add(right.to_multiset()) =~= right.to_multiset());
}

/// Whether two lists hold the same texts, each equally often.
pub fn same_in_any_order(a: &Vec<String>, b: &Vec<String>) -> (same: bool)
    ensures
        same == (text::texts(a@).to_multiset() == text::texts(b@).to_multiset()),
{
    let ghost left = text::texts(a@);
    let ghost right = text::texts(b@);
    let mut rest: Vec<String> = text::copy_texts(b);
    let mut i: usize = 0;
    proof {
        lemma_pairing_begins(left, right);
    }
    while i < a.len()
        invariant
            i <= a.len(),
            left == text::texts(a@),
            right == text::texts(b@),
            left.take(i as int).to_multiset().add(text::texts(rest@).to_multiset())
                == right.to_multiset(),
        decreases a.len() - i,
    {
        let ghost before = text::texts(rest@);
        assert(left[i as int] == a@[i as int]@);
        let k: usize = find_text(&rest, a[i].as_str());
        if k >= rest.len() {
            proof {
                lemma_pairing_fails(left, right, before, i as int);
            }
            return false;
        }
        let _ = rest.remove(k);
        proof {
            assert(text::texts(rest@) =~= before.remove(k as int));
            lemma_pairing_goes_on(left, right, before, i as int, k as int);
        }
        i = i + 1;
    }
    proof {
        assert(left.take(i as int) =~= left);
        lemma_pairing_ends(left, right, text::texts(rest@));
    }
    rest.len() == 0
}

proof fn lemma_count_take(list: Seq<Seq<char>>, k: int, x: Seq<char>)
    requires
        0 <= k <= list.len(),
    ensures
        list.take(k).to_multiset().count(x) <= list.to_multiset().count(x),
    decreases list.len(),
{
    broadcast use vstd::seq_lib::group_to_multiset_ensures;

    if k == list.len() {
        assert(list.take(k) =~= list);
    } else {
        let init = list.drop_last();
        lemma_count_take(init, k, x);
        assert(init.take(k) =~= list.take(k));
        assert(list =~= init.push(list.last()));
    }
}

/// Whether no text is in a list twice.
pub fn all_different(list: &Vec<String>) -> (different: bool)
    ensures
        different == text::texts(list@).no_duplicates(),
{
    let ghost all = text::texts(list@);
    let mut i: usize = 0;
    while i < list.len()
        invariant
            i <= list.len(),
            all == text::texts(list@),
            forall|p: int, q: int| 0 <= p < i && 0 <= q < i && p != q ==> all[p] != all[q],
        decreases list.len() - i,
    {
        let mut k: usize = 0;
        while k < i
            invariant
                k <= i < list.len(),
                all == text::texts(list@),
                forall|p: int| 0 <= p < k ==> all[p] != all[i as int],
            decreases i - k,
        {
            assert(all[k as int] == list@[k as int]@ && all[i as int] == list@[i as int]@);
            if same_text(list[k].as_str(), list[i].as_str()) {
                return false;
            }
            k = k + 1;
        }
        i = i + 1;
    }
    true
}

/// A text comes no later than another just where it begins it, or has the lesser
/// character at the first place where they differ.
pub proof fn law_order_is_by_the_first_difference(a: Seq<char>, b: Seq<char>)
    ensures
        not_after(a, b, 0) <==> {
            ||| a.is_prefix_of(b)
            ||| exists|k: int|
                0 <= k < a.len() && k < b.len() && #[trigger] a[k] < b[k] && a.take(k) == b.take(k)
        },
{
    assert(a.take(0) =~= b.take(0));
    lemma_first_difference(a, b, 0);
}

proof fn lemma_first_difference(a: Seq<char>, b: Seq<char>, k: int)
    requires
        0 <= k <= a.len(),
        k <= b.len(),
        a.take(k) == b.take(k),
    ensures
        not_after(a, b, k) <==> {
            ||| a.is_prefix_of(b)
            ||| exists|j: int|
                0 <= j < a.len() && j < b.len() && #[trigger] a[j] < b[j] && a.take(j) == b.take(j)
        },
    decreases a.len() - k,
{
    assert forall|j: int| 0 <= j < k implies a[j] == b[j] by {
        assert(a.take(k)[j] == a[j] && b.take(k)[j] == b[j]);
    }
    if k == a.len() {
        assert(a.take(k) =~= a);
        assert(b.subrange(0, k) =~= b.take(k));
    } else if k >= b.len() {
        assert forall|j: int|
            0 <= j < a.len() && j < b.len() && #[trigger] a[j] < b[j] implies false by {
            assert(a[j] == b[j]);
        }
    } else if a[k] != b[k] {
        if a.is_prefix_of(b) {
            assert(b.subrange(0, a.len() as int)[k] == b[k]);
        }
        assert forall|j: int|
            0 <= j < a.len() && j < b.len() && #[trigger] a[j] < b[j] && a.take(j) == b.take(
                j,
            ) implies a[k] < b[k] by {
            if j > k {
                assert(a.take(j)[k] == b.take(j)[k]);
            } else if j < k {
                assert(a[j] == b[j]);
            }
        }
    } else {
        assert(a.take(k + 1) =~= a.take(k).push(a[k]));
        assert(b.take(k + 1) =~= b.take(k).push(b[k]));
        lemma_first_difference(a, b, k + 1);
    }
}

} // verus!
