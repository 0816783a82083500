//! Reading and writing numbers.
use vstd::prelude::*;
use vstd::string::*;

verus! {

/// Whether a character is a decimal digit.
pub open spec fn is_digit(c: char) -> bool {
    '0' <= c && c <= '9'
}

/// The number that a list of digits stands for.
pub open spec fn decimal(digits: Seq<char>) -> int
    decreases digits.len(),
{
    if digits.len() == 0 {
        0
    } else {
        decimal(digits.drop_last()) * 10 + (digits.last() as int - '0' as int)
    }
}

/// Whether a text is made of digits alone, and of at least one.
pub open spec fn all_digits(digits: Seq<char>) -> bool {
    digits.len() > 0 && forall|i: int| 0 <= i < digits.len() ==> is_digit(#[trigger] digits[i])
}

/// The digits of a text: one plus sign before them is passed over.
pub open spec fn unsigned_digits(text: Seq<char>) -> Seq<char> {
    if text.len() > 0 && text[0] == '+' {
        text.skip(1)
    } else {
        text
    }
}

/// The number that a text stands for, where it does and the number is not too
/// large.
pub open spec fn parsed(text: Seq<char>, max: int) -> Option<int> {
    let digits = unsigned_digits(text);
    if all_digits(digits) && decimal(digits) <= max {
        Some(decimal(digits))
    } else {
        None
    }
}

proof fn lemma_decimal_grows(digits: Seq<char>, k: int)
    requires
        0 <= k <= digits.len(),
        forall|i: int| 0 <= i < digits.len() ==> is_digit(#[trigger] digits[i]),
    ensures
        0 <= decimal(digits.take(k)) <= decimal(digits),
    decreases digits.len(),
{
    if digits.len() > 0 {
        let init = digits.drop_last();
        assert forall|i: int| 0 <= i < init.len() implies is_digit(#[trigger] init[i]) by {
            assert(init[i] == digits[i]);
        }
        assert(is_digit(digits[digits.len() - 1]));
        if k == digits.len() {
            assert(digits.take(k) =~= digits);
            lemma_decimal_grows(init, 0);
            assert(init.take(0) =~= Seq::<char>::empty());
        } else {
            lemma_decimal_grows(init, k);
            assert(init.take(k) =~= digits.take(k));
        }
    } else {
        assert(digits.take(k) =~= digits);
    }
}

/// Reads a number up to a largest one.
pub fn parse_up_to(text: &str, max: u64) -> (number: Option<u64>)
    ensures
        match number {
            Some(n) => parsed(text@, max as int) == Some(n as int),
            None => parsed(text@, max as int) is None,
        },
{
    let length: usize = text.unicode_len();
    let start: usize = if length > 0 && text.get_char(0) == '+' {
        1
    } else {
        0
    };
    let ghost digits = unsigned_digits(text@);
    if start >= length {
        return None;
    }
    let mut value: u64 = 0;
    let mut i: usize = start;
    assert(digits.take(0) =~= Seq::<char>::empty());
    while i < length
        invariant
            start <= i <= length,
            start <= 1,
            length == text@.len(),
            digits == unsigned_digits(text@),
            digits == text@.skip(start as int),
            forall|j: int| 0 <= j < i - start ==> is_digit(#[trigger] digits[j]),
            value == decimal(digits.take(i - start)),
            value <= max,
        decreases length - i,
    {
        let c: char = text.get_char(i);
        let ghost k = i - start;
        proof {
            assert(digits[k] == c);
            assert(digits.take(k + 1).drop_last() =~= digits.take(k));
            assert(digits.take(k + 1).last() == c);
        }
        if c < '0' || c > '9' {
            assert(!is_digit(digits[k]));
            return None;
        }
        let digit: u64 = c as u64 - '0' as u64;
        if value > max / 10 || digit > max - value * 10 {
            proof {
                if all_digits(digits) {
                    lemma_decimal_grows(digits, k + 1);
                    assert(decimal(digits.take(k + 1)) > max);
                }
            }
            return None;
        }
        value = value * 10 + digit;
        i = i + 1;
    }
    assert(digits.take(i - start) =~= digits);
    Some(value)
}

/// The digits of a number, without zeros before it.
pub open spec fn digits_of(number: nat) -> Seq<char>
    decreases number,
{
    if number < 10 {
        seq![digit_char(number as int)]
    } else {
        digits_of(number / 10).push(digit_char((number % 10) as int))
    }
}

/// The character of a digit.
pub open spec fn digit_char(digit: int) -> char {
    ('0' as int + digit) as char
}

fn digit_text(digit: u64) -> (text: &'static str)
    requires
        digit < 10,
    ensures
        text@ == seq![digit_char(digit as int)],
{
    proof {
        reveal_strlit("0");
        reveal_strlit("1");
        reveal_strlit("2");
        reveal_strlit("3");
        reveal_strlit("4");
        reveal_strlit("5");
        reveal_strlit("6");
        reveal_strlit("7");
        reveal_strlit("8");
        reveal_strlit("9");
    }
    let text: &'static str = match digit {
        0 => "0",
        1 => "1",
        2 => "2",
        3 => "3",
        4 => "4",
        5 => "5",
        6 => "6",
        7 => "7",
        8 => "8",
        _ => "9",
    };
    assert(text@ =~= seq![digit_char(digit as int)]);
    text
}

/// Writes a number.
pub fn decimal_text(number: u64) -> (text: String)
    ensures
        text@ == digits_of(number as nat),
    decreases number,
{
    if number < 10 {
        return digit_text(number).to_owned();
    }
    let mut text: String = decimal_text(number / 10);
    let ghost before = text@;
    text.append(digit_text(number % 10));
    assert(text@ =~= before.push(digit_char((number % 10) as int)));
    text
}

/// Reading a number that was written gives the number.
pub proof fn law_reading_undoes_writing(number: nat, max: int)
    requires
        number <= max,
    ensures
        parsed(digits_of(number), max) == Some(number as int),
{
    lemma_digits(number);
    let text = digits_of(number);
    assert(is_digit(text[0]));
}

/// The digits of a number are digits and stand for it.
pub proof fn lemma_digits(number: nat)
    ensures
        all_digits(digits_of(number)),
        decimal(digits_of(number)) == number,
    decreases number,
{
    let text = digits_of(number);
    if number < 10 {
        assert(text.drop_last() =~= Seq::<char>::empty());
        assert(decimal(text.drop_last()) == 0);
        assert(is_digit(text[0]));
    } else {
        lemma_digits(number / 10);
        assert(text.drop_last() =~= digits_of(number / 10));
        assert forall|i: int| 0 <= i < text.len() implies is_digit(#[trigger] text[i]) by {
            if i < text.len() - 1 {
                assert(text[i] == digits_of(number / 10)[i]);
            }
        }
    }
}

/// A sign in front of a number changes nothing; what has anything but digits, or
/// nothing at all, is no number, and neither is one that is too large.
pub proof fn law_only_numbers_are_read(digits: Seq<char>, max: int)
    requires
        digits.len() > 0 ==> digits[0] != '+',
    ensures
        parsed(seq!['+'] + digits, max) == parsed(digits, max),
        digits.len() == 0 ==> parsed(digits, max) is None,
        forall|i: int|
            0 <= i < digits.len() && !is_digit(#[trigger] digits[i]) ==> parsed(digits, max) is None,
        parsed(digits, max) is Some ==> parsed(digits, max)->0 <= max,
{
    assert((seq!['+'] + digits).skip(1) =~= digits);
}

/// The places of a number count by tens, the last one by ones.
pub proof fn law_places_count_by_tens(digits: Seq<char>, last: char)
    ensures
        decimal(digits.push(last)) == 10 * decimal(digits) + (last as int - 48),
        decimal(Seq::empty()) == 0,
{
    assert(digits.push(last).drop_last() =~= digits);
}

} // verus!
