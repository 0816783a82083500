//! Lines and the white space around them.
use vstd::prelude::*;
use vstd::string::*;

verus! {

/// Whether a character is white space.
pub open spec fn is_space(c: char) -> bool {
    let n = c as int;
    0x9 <= n <= 0xd || n == 0x20 || n == 0x85 || n == 0xa0 || n == 0x1680 || 0x2000 <= n <= 0x200a
        || n == 0x2028 || n == 0x2029 || n == 0x202f || n == 0x205f || n == 0x3000
}

/// Whether a character is white space.
pub fn is_whitespace(c: char) -> (yes: bool)
    ensures
        yes == is_space(c),
{
    let n: u32 = c as u32;
    (0x9 <= n && n <= 0xd) || n == 0x20 || n == 0x85 || n == 0xa0 || n == 0x1680 || (0x2000 <= n
        && n <= 0x200a) || n == 0x2028 || n == 0x2029 || n == 0x202f || n == 0x205f || n == 0x3000
}

/// The first character that is no white space, from a place on.
pub open spec fn text_start(text: Seq<char>, k: int) -> int
    decreases text.len() - k,
{
    if k < 0 || k >= text.len() || !is_space(text[k]) {
        k
    } else {
        text_start(text, k + 1)
    }
}

/// The place after the last character that is no white space, before a place.
pub open spec fn text_end(text: Seq<char>, start: int, k: int) -> int
    decreases k - start,
{
    if k <= start || k > text.len() || !is_space(text[k - 1]) {
        k
    } else {
        text_end(text, start, k - 1)
    }
}

/// A text without the white space around it.
pub open spec fn trimmed(text: Seq<char>) -> Seq<char> {
    let start = text_start(text, 0);
    text.subrange(start, text_end(text, start, text.len() as int))
}

/// Takes the white space around a text away.
pub fn trim(text: &str) -> (rest: String)
    ensures
        rest@ == trimmed(text@),
{
    let length: usize = text.unicode_len();
    let mut start: usize = 0;
    while start < length && is_whitespace(text.get_char(start))
        invariant
            start <= length,
            length == text@.len(),
            text_start(text@, 0) == text_start(text@, start as int),
        decreases length - start,
    {
        start = start + 1;
    }
    let mut end: usize = length;
    while end > start && is_whitespace(text.get_char(end - 1))
        invariant
            start <= end <= length,
            length == text@.len(),
            text_end(text@, start as int, length as int) == text_end(
                text@,
                start as int,
                end as int,
            ),
        decreases end,
    {
        end = end - 1;
    }
    text.substring_char(start, end).to_owned()
}

/// Where the line that a place is in ends.
pub open spec fn line_end(text: Seq<char>, k: int) -> int
    decreases text.len() - k,
{
    if k < 0 || k >= text.len() {
        text.len() as int
    } else if text[k] == '\n' {
        k
    } else {
        line_end(text, k + 1)
    }
}

/// Finds where the line that a place is in ends.
pub fn find_line_end(text: &str, from: usize) -> (end: usize)
    requires
        from <= text@.len(),
    ensures
        end == line_end(text@, from as int),
        from <= end <= text@.len(),
{
    let length: usize = text.unicode_len();
    let mut k: usize = from;
    while k < length
        invariant
            from <= k <= length,
            length == text@.len(),
            line_end(text@, from as int) == line_end(text@, k as int),
        decreases length - k,
    {
        if text.get_char(k) == '\n' {
            return k;
        }
        k = k + 1;
    }
    k
}

/// A line ends where its line feed is.
pub proof fn lemma_line_end(text: Seq<char>, k: int, end: int)
    requires
        0 <= k <= end <= text.len(),
        end < text.len() ==> text[end] == '\n',
        forall|j: int| k <= j < end ==> text[j] != '\n',
    ensures
        line_end(text, k) == end,
    decreases end - k,
{
    if k < end {
        lemma_line_end(text, k + 1, end);
    }
}

/// A text without white space stays as it is.
pub proof fn lemma_trimmed(text: Seq<char>)
    requires
        forall|i: int| 0 <= i < text.len() ==> !is_space(#[trigger] text[i]),
    ensures
        trimmed(text) == text,
{
    if text.len() > 0 {
        assert(!is_space(text[0]));
        assert(!is_space(text[text.len() - 1]));
    }
    assert(trimmed(text) =~= text);
}

/// Blanks, tabs and ends of lines are space; visible letters, digits and signs
/// of ASCII are not.
pub proof fn law_blanks_are_space(c: char)
    ensures
        c == ' ' || c == '\t' || c == '\n' || c == '\r' ==> is_space(c),
        '!' <= c && c <= '~' ==> !is_space(c),
{
}

/// Whether all of a text is space.
pub open spec fn all_space(text: Seq<char>) -> bool {
    forall|i: int| 0 <= i < text.len() ==> is_space(#[trigger] text[i])
}

proof fn lemma_text_start(text: Seq<char>, k: int)
    requires
        0 <= k <= text.len(),
    ensures
        k <= text_start(text, k) <= text.len(),
        forall|i: int| k <= i < text_start(text, k) ==> is_space(#[trigger] text[i]),
        text_start(text, k) < text.len() ==> !is_space(text[text_start(text, k)]),
    decreases text.len() - k,
{
    if k < text.len() && is_space(text[k]) {
        lemma_text_start(text, k + 1);
    }
}

proof fn lemma_text_end(text: Seq<char>, start: int, k: int)
    requires
        0 <= start <= k <= text.len(),
    ensures
        start <= text_end(text, start, k) <= k,
        forall|i: int| text_end(text, start, k) <= i < k ==> is_space(#[trigger] text[i]),
        text_end(text, start, k) > start ==> !is_space(text[text_end(text, start, k) - 1]),
    decreases k - start,
{
    if k > start && is_space(text[k - 1]) {
        lemma_text_end(text, start, k - 1);
    }
}

/// Trimming takes space off both ends of a text, all of it and nothing else.
pub proof fn law_trimming_takes_space_off(text: Seq<char>)
    ensures
        exists|before: Seq<char>, behind: Seq<char>| #[trigger]
            (before + trimmed(text) + behind) == text && all_space(before) && all_space(behind),
        trimmed(text).len() > 0 ==> !is_space(trimmed(text)[0]) && !is_space(trimmed(text).last()),
{
    let start = text_start(text, 0);
    let end = text_end(text, start, text.len() as int);
    lemma_text_start(text, 0);
    lemma_text_end(text, start, text.len() as int);
    let before = text.take(start);
    let behind = text.skip(end);
    assert(before + trimmed(text) + behind =~= text);
    assert(all_space(before));
    assert(all_space(behind));
}

/// The end of a line is the first one from a place on, or the end of the text.
pub proof fn law_first_end_of_line_is_found(text: Seq<char>, k: int)
    requires
        0 <= k <= text.len(),
    ensures
        k <= line_end(text, k) <= text.len(),
        line_end(text, k) < text.len() ==> text[line_end(text, k)] == '\n',
        forall|i: int| k <= i < line_end(text, k) ==> #[trigger] text[i] != '\n',
    decreases text.len() - k,
{
    if k < text.len() && text[k] != '\n' {
        law_first_end_of_line_is_found(text, k + 1);
    }
}

} // verus!
