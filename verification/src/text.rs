//! Comparing and joining text.
use vstd::prelude::*;

verus! {

/// Whether two strings hold the same text.
pub fn same_text(a: &str, b: &str) -> (same: bool)
    ensures
        same == (a@ == b@),
{
    let left: String = a.to_owned();
    let right: String = b.to_owned();
    left == right
}

/// Two strings joined.
pub fn joined(a: &str, b: &str) -> (text: String)
    ensures
        text@ == a@ + b@,
{
    let head: String = a.to_owned();
    head.concat(b)
}

/// The texts of a list of strings.
pub open spec fn texts(list: Seq<String>) -> Seq<Seq<char>> {
    list.map_values(|s: String| s@)
}

pub proof fn lemma_texts_push(list: Seq<String>, text: String)
    ensures
        texts(list.push(text)) == texts(list).push(text@),
{
    assert(texts(list.push(text)) =~= texts(list).push(text@));
}

/// A text between two others.
pub fn around(before: &str, id: &str, after: &str) -> (line: String)
    ensures
        line@ == before@ + id@ + after@,
{
    let head: String = joined(before, id);
    joined(head.as_str(), after)
}

/// Whether a list of strings holds a text.
pub fn contains_text(list: &Vec<String>, text: &str) -> (found: bool)
    ensures
        found == texts(list@).contains(text@),
{
    let mut i: usize = 0;
    while i < list.len()
        invariant
            i <= list.len(),
            forall|j: int| 0 <= j < i ==> texts(list@)[j] != text@,
        decreases list.len() - i,
    {
        if same_text(list[i].as_str(), text) {
            assert(texts(list@)[i as int] == text@);
            return true;
        }
        i = i + 1;
    }
    false
}

/// A list without every occurrence of a text.
pub open spec fn without(list: Seq<Seq<char>>, text: Seq<char>) -> Seq<Seq<char>>
    decreases list.len(),
{
    if list.len() == 0 {
        Seq::empty()
    } else if list.last() == text {
        without(list.drop_last(), text)
    } else {
        without(list.drop_last(), text).push(list.last())
    }
}

/// What is left of a list is everything but the text.
pub proof fn lemma_without(list: Seq<Seq<char>>, text: Seq<char>, other: Seq<char>)
    ensures
        without(list, text).contains(other) <==> list.contains(other) && other != text,
        without(list, text).len() <= list.len(),
        without(list, text).len() == list.len() <==> !list.contains(text),
    decreases list.len(),
{
    if list.len() > 0 {
        let init = list.drop_last();
        let last = list.last();
        lemma_without(init, text, other);
        lemma_contains_last(list, other);
        lemma_contains_last(list, text);
        if last != text {
            lemma_contains_last(without(list, text), other);
            assert(without(list, text).drop_last() =~= without(init, text));
        }
    }
}

/// Nothing occurs twice in what is left of a list in which nothing did.
pub proof fn lemma_without_no_duplicates(list: Seq<Seq<char>>, text: Seq<char>)
    requires
        list.no_duplicates(),
    ensures
        without(list, text).no_duplicates(),
    decreases list.len(),
{
    if list.len() > 0 {
        let init = list.drop_last();
        assert(init.no_duplicates()) by {
            assert forall|i: int, j: int|
                0 <= i < init.len() && 0 <= j < init.len() && i != j implies init[i] != init[j] by {
                assert(init[i] == list[i] && init[j] == list[j]);
            }
        }
        lemma_without_no_duplicates(init, text);
        let rest = without(init, text);
        let all = without(list, text);
        if list.last() != text {
            assert(!init.contains(list.last())) by {
                if init.contains(list.last()) {
                    let k = choose|k: int| 0 <= k < init.len() && init[k] == list.last();
                    assert(list[k] == list[list.len() - 1]);
                }
            }
            lemma_without(init, text, list.last());
            assert forall|i: int, j: int|
                0 <= i < all.len() && 0 <= j < all.len() && i != j implies all[i] != all[j] by {
                if i < rest.len() && j < rest.len() {
                    assert(rest[i] != rest[j]);
                } else if i < rest.len() {
                    assert(rest.contains(rest[i]));
                } else {
                    assert(rest.contains(rest[j]));
                }
            }
        }
    }
}

pub proof fn lemma_contains_last(list: Seq<Seq<char>>, text: Seq<char>)
    requires
        list.len() > 0,
    ensures
        list.contains(text) <==> list.drop_last().contains(text) || list.last() == text,
{
    if list.contains(text) {
        let k = choose|k: int| 0 <= k < list.len() && list[k] == text;
        if k < list.len() - 1 {
            assert(list.drop_last()[k] == text);
        }
    }
    if list.drop_last().contains(text) {
        let k = choose|k: int| 0 <= k < list.drop_last().len() && list.drop_last()[k] == text;
        assert(list[k] == text);
    }
    if list.last() == text {
        assert(list[list.len() - 1] == text);
    }
}

/// Takes every occurrence of a text out of a list.
pub fn remove_text(list: &mut Vec<String>, text: &str)
    ensures
        texts(final(list)@) == without(texts(old(list)@), text@),
{
    let mut kept: Vec<String> = Vec::new();
    let mut i: usize = 0;
    proof {
        assert(texts(kept@) =~= without(texts(list@).take(0), text@));
    }
    while i < list.len()
        invariant
            i <= list.len(),
            list@ == old(list)@,
            texts(kept@) == without(texts(list@).take(i as int), text@),
        decreases list.len() - i,
    {
        let ghost before = kept@;
        proof {
            assert(texts(list@).take(i + 1).drop_last() =~= texts(list@).take(i as int));
            assert(texts(list@).take(i + 1).last() == list@[i as int]@);
        }
        if !same_text(list[i].as_str(), text) {
            let copy: String = list[i].clone();
            kept.push(copy);
            proof {
                lemma_texts_push(before, copy);
            }
        }
        i = i + 1;
    }
    proof {
        assert(texts(list@).take(list.len() as int) =~= texts(list@));
    }
    *list = kept;
}

/// A copy of a list of strings.
pub fn copy_texts(list: &Vec<String>) -> (copy: Vec<String>)
    ensures
        copy@ == list@,
{
    let mut copy: Vec<String> = Vec::new();
    let mut i: usize = 0;
    while i < list.len()
        invariant
            i <= list.len(),
            copy@ == list@.take(i as int),
        decreases list.len() - i,
    {
        copy.push(list[i].clone());
        i = i + 1;
        assert(copy@ =~= list@.take(i as int));
    }
    assert(list@.take(list.len() as int) =~= list@);
    copy
}

/// The text of a string that may be missing.
pub open spec fn optional(text: Option<String>) -> Option<Seq<char>> {
    match text {
        Some(s) => Some(s@),
        None => None,
    }
}

/// A copy of a string that may be missing.
pub fn copy_optional(text: &Option<String>) -> (copy: Option<String>)
    ensures
        copy == *text,
{
    match text {
        Some(s) => Some(s.clone()),
        None => None,
    }
}

/// The test for any text but this one.
pub open spec fn other_text(text: Seq<char>) -> spec_fn(Seq<char>) -> bool {
    |t: Seq<char>| t != text
}

/// Taking a text out of a list leaves all others, as often as they were there
/// and in their order.
pub proof fn law_other_texts_stay(list: Seq<Seq<char>>, text: Seq<char>)
    ensures
        without(list, text) == list.filter(other_text(text)),
    decreases list.len(),
{
    reveal(Seq::filter);
    if list.len() > 0 {
        law_other_texts_stay(list.drop_last(), text);
    }
}

} // verus!
