//! Regular expressions.
use regex::Regex;
use vstd::prelude::*;

verus! {

/// `regex::Regex`: a regular expression.
#[verifier::external_type_specification]
#[verifier::external_body]
pub struct ExRegex(regex::Regex);

/// The pattern of a regular expression: what `Regex::new` makes of it finds the
/// same.
pub uninterp spec fn pattern_of(regex: Regex) -> Seq<char>;

/// Whether a pattern is accepted where an address has this many bits: those
/// that are no regular expression are not, nor those that would take too much
/// memory.
pub uninterp spec fn pattern_accepted(pattern: Seq<char>, bits: nat) -> bool;

/// Whether a pattern matches somewhere in a text.
pub uninterp spec fn pattern_matches(pattern: Seq<char>, text: Seq<char>) -> bool;

/// Whether a character may mean something else in a pattern than itself.
pub open spec fn is_special(c: char) -> bool {
    c == '\\' || c == '.' || c == '+' || c == '*' || c == '?' || c == '(' || c == ')' || c == '|'
        || c == '[' || c == ']' || c == '{' || c == '}' || c == '^' || c == '$'
}

/// Whether a pattern is a text to be found as it is.
pub open spec fn is_plain(pattern: Seq<char>) -> bool {
    forall|i: int| 0 <= i < pattern.len() ==> !is_special(#[trigger] pattern[i])
}

/// Whether a pattern opens groups that it does not close, and is a plain text
/// but for that.
pub open spec fn is_unclosed(pattern: Seq<char>) -> bool {
    &&& pattern.contains('(')
    &&& forall|i: int|
        0 <= i < pattern.len() ==> pattern[i] == '(' || !is_special(#[trigger] pattern[i])
}

/// How long a plain text may be that is certain to be accepted as a pattern.
pub const MAX_PLAIN_LENGTH: usize = 1000;

/// Whether a text occurs in another one.
pub open spec fn occurs(part: Seq<char>, text: Seq<char>) -> bool {
    exists|k: int|
        0 <= k <= text.len() - part.len() && #[trigger] text.subrange(k, k + part.len()) == part
}

/// Whether a pattern is found in a text: a plain text where it occurs.
pub open spec fn is_found(pattern: Seq<char>, text: Seq<char>) -> bool {
    if is_plain(pattern) {
        occurs(pattern, text)
    } else {
        pattern_matches(pattern, text)
    }
}

/// `Regex::new`: a regular expression of a pattern, or nothing where the
/// pattern is refused. Whether it is depends on the pattern and on the width of
/// an address. A plain text of moderate length is accepted, and one with groups
/// left open is refused.
#[verifier::external_body]
pub(crate) fn compile(pattern: &str) -> (regex: Option<Regex>)
    ensures
        regex is Some == pattern_accepted(pattern@, usize::BITS as nat),
        regex is Some ==> pattern_of(regex->0) == pattern@,
        is_plain(pattern@) && pattern@.len() <= MAX_PLAIN_LENGTH ==> regex is Some,
        is_unclosed(pattern@) ==> regex is None,
{
    Regex::new(pattern).ok()
}

/// `Regex::is_match`: whether there is a match anywhere in the text. A plain
/// text matches where it occurs.
#[verifier::external_body]
pub(crate) fn is_match(regex: &Regex, text: &str) -> (found: bool)
    ensures
        found == pattern_matches(pattern_of(*regex), text@),
        is_plain(pattern_of(*regex)) ==> found == occurs(pattern_of(*regex), text@),
{
    regex.is_match(text)
}

} // verus!
