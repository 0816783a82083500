//! What a shell tells of itself in its output: where it works, and where its
//! prompts and commands are.
use crate::cli;
use crate::cli::strip_start;
use crate::text::same_text;
use crate::unicode;
use crate::unicode::{text_of_bytes, text_of_bytes_lossy};
use vstd::prelude::*;
use vstd::string::*;

verus! {

pub const ESCAPE: u8 = 0x1b;

pub const BELL: u8 = 0x07;

/// The value of a hexadecimal digit.
pub open spec fn hex_value(byte: u8) -> Option<int> {
    if 0x30 <= byte <= 0x39 {
        Some(byte - 0x30)
    } else if 0x61 <= byte <= 0x66 {
        Some(byte - 0x61 + 10)
    } else if 0x41 <= byte <= 0x46 {
        Some(byte - 0x41 + 10)
    } else {
        None
    }
}

fn hex_digit(byte: u8) -> (value: Option<u8>)
    ensures
        match value {
            Some(v) => hex_value(byte) == Some(v as int) && v < 16,
            None => hex_value(byte) is None,
        },
{
    if 0x30 <= byte && byte <= 0x39 {
        Some(byte - 0x30)
    } else if 0x61 <= byte && byte <= 0x66 {
        Some(byte - 0x61 + 10)
    } else if 0x41 <= byte && byte <= 0x46 {
        Some(byte - 0x41 + 10)
    } else {
        None
    }
}

/// Whether a percent sign with two hexadecimal digits is at a place.
pub open spec fn is_escaped(bytes: Seq<u8>, i: int) -> bool {
    i + 2 < bytes.len() && bytes[i] == 0x25 && hex_value(bytes[i + 1]) is Some && hex_value(
        bytes[i + 2],
    ) is Some
}

/// Bytes from a place on, with each percent sign and two hexadecimal digits
/// replaced by the byte that they stand for.
pub open spec fn decoded(bytes: Seq<u8>, i: int) -> Seq<u8>
    decreases bytes.len() - i,
{
    if i < 0 || i >= bytes.len() {
        Seq::empty()
    } else if is_escaped(bytes, i) {
        seq![(hex_value(bytes[i + 1])->0 * 16 + hex_value(bytes[i + 2])->0) as u8] + decoded(
            bytes,
            i + 3,
        )
    } else {
        seq![bytes[i]] + decoded(bytes, i + 1)
    }
}

/// Replaces each percent sign and two hexadecimal digits by the byte that they
/// stand for.
pub fn percent_decode_bytes(bytes: &[u8]) -> (out: Vec<u8>)
    ensures
        out@ == decoded(bytes@, 0),
{
    let mut out: Vec<u8> = Vec::new();
    let mut i: usize = 0;
    while i < bytes.len()
        invariant
            i <= bytes@.len(),
            decoded(bytes@, 0) == out@ + decoded(bytes@, i as int),
        decreases bytes.len() - i,
    {
        let ghost before = out@;
        let ghost at = i as int;
        let mut next: usize = i + 1;
        let mut byte: u8 = bytes[i];
        if byte == 0x25 && bytes.len() - i > 2 {
            match hex_digit(bytes[i + 1]) {
                Some(high) => match hex_digit(bytes[i + 2]) {
                    Some(low) => {
                        byte = high * 16 + low;
                        next = i + 3;
                    },
                    None => {},
                },
                None => {},
            }
        }
        out.push(byte);
        proof {
            assert(decoded(bytes@, at) == seq![byte] + decoded(bytes@, next as int));
            assert(before + (seq![byte] + decoded(bytes@, next as int)) =~= out@ + decoded(
                bytes@,
                next as int,
            ));
        }
        i = next;
    }
    assert(out@ + decoded(bytes@, i as int) =~= out@);
    out
}

/// Decodes a text in which bytes are written with percent signs.
pub fn percent_decode(s: &str) -> (text: String)
    ensures
        text@ == unicode::lossy_text(decoded(vstd::utf8::encode_utf8(s@), 0)),
        vstd::utf8::valid_utf8(decoded(vstd::utf8::encode_utf8(s@), 0)) ==> text@
            == vstd::utf8::decode_utf8(decoded(vstd::utf8::encode_utf8(s@), 0)),
{
    let out: Vec<u8> = percent_decode_bytes(s.as_bytes());
    text_of_bytes_lossy(&out)
}

/// A text without percent signs stays as it is.
pub proof fn law_plain_text_stays(bytes: Seq<u8>, i: int)
    requires
        0 <= i <= bytes.len(),
        forall|k: int| i <= k < bytes.len() ==> bytes[k] != 0x25,
    ensures
        decoded(bytes, i) == bytes.skip(i),
    decreases bytes.len() - i,
{
    if i < bytes.len() {
        law_plain_text_stays(bytes, i + 1);
        assert(bytes.skip(i) =~= seq![bytes[i]] + bytes.skip(i + 1));
    } else {
        assert(bytes.skip(i) =~= Seq::<u8>::empty());
    }
}

/// A hexadecimal digit.
pub open spec fn hex_of(value: int, upper: bool) -> u8 {
    if value < 10 {
        (0x30 + value) as u8
    } else if upper {
        (0x41 + value - 10) as u8
    } else {
        (0x61 + value - 10) as u8
    }
}

/// Bytes, each written as a percent sign and two hexadecimal digits.
pub open spec fn percent_encoded(bytes: Seq<u8>, upper: bool) -> Seq<u8> {
    Seq::new(
        3 * bytes.len(),
        |i: int|
            if i % 3 == 0 {
                0x25
            } else if i % 3 == 1 {
                hex_of(bytes[i / 3] as int / 16, upper)
            } else {
                hex_of(bytes[i / 3] as int % 16, upper)
            },
    )
}

/// A text, each byte of it written as a percent sign and two hexadecimal digits.
pub open spec fn percent_encoded_text(s: Seq<char>, upper: bool) -> Seq<char> {
    percent_encoded(vstd::utf8::encode_utf8(s), upper).map_values(|b: u8| b as char)
}

proof fn lemma_decoded_from(bytes: Seq<u8>, upper: bool, k: int)
    requires
        0 <= k <= bytes.len(),
    ensures
        decoded(percent_encoded(bytes, upper), 3 * k) == bytes.skip(k),
    decreases bytes.len() - k,
{
    let all = percent_encoded(bytes, upper);
    if k < bytes.len() {
        lemma_decoded_from(bytes, upper, k + 1);
        let high = bytes[k] as int / 16;
        let low = bytes[k] as int % 16;
        assert(all[3 * k] == 0x25);
        assert(all[3 * k + 1] == hex_of(high, upper)) by {
            assert((3 * k + 1) / 3 == k && (3 * k + 1) % 3 == 1);
        }
        assert(all[3 * k + 2] == hex_of(low, upper)) by {
            assert((3 * k + 2) / 3 == k && (3 * k + 2) % 3 == 2);
        }
        assert(hex_value(hex_of(high, upper)) == Some(high));
        assert(hex_value(hex_of(low, upper)) == Some(low));
        assert(high * 16 + low == bytes[k]);
        assert(is_escaped(all, 3 * k));
        assert(bytes.skip(k) =~= seq![bytes[k]] + bytes.skip(k + 1));
    } else {
        assert(bytes.skip(k) =~= Seq::<u8>::empty());
    }
}

/// Decoding undoes encoding, whatever the bytes are.
pub proof fn law_decoding_undoes_encoding(bytes: Seq<u8>, upper: bool)
    ensures
        decoded(percent_encoded(bytes, upper), 0) == bytes,
{
    lemma_decoded_from(bytes, upper, 0);
    assert(bytes.skip(0) =~= bytes);
}

/// A text of which every byte is encoded is decoded to itself.
pub proof fn law_encoded_texts_are_read_back(s: Seq<char>, upper: bool)
    ensures
        ({
            let back = decoded(vstd::utf8::encode_utf8(percent_encoded_text(s, upper)), 0);
            vstd::utf8::valid_utf8(back) && vstd::utf8::decode_utf8(back) == s
        }),
{
    let bytes = vstd::utf8::encode_utf8(s);
    let written = percent_encoded(bytes, upper);
    let text = percent_encoded_text(s, upper);
    assert forall|i: int| 0 <= i < written.len() implies (#[trigger] written[i]) < 128 by {
        assert(bytes[i / 3] as int / 16 < 16);
    }
    assert(vstd::utf8::is_ascii_chars(text)) by {
        assert forall|i: int| 0 <= i < text.len() implies 0 <= #[trigger] text[i] as nat <= 127 by {
            assert(text[i] == written[i] as char);
            assert(written[i] < 128);
        }
    }
    vstd::utf8::is_ascii_chars_encode_utf8(text);
    assert(vstd::utf8::encode_utf8(text) =~= written);
    law_decoding_undoes_encoding(bytes, upper);
    vstd::utf8::encode_utf8_valid_utf8(s);
    vstd::utf8::encode_utf8_decode_utf8(s);
}

proof fn lemma_no_percent_byte(chars: Seq<char>, i: int)
    requires
        forall|k: int| 0 <= k < chars.len() ==> #[trigger] chars[k] != '%',
        0 <= i < vstd::utf8::encode_utf8(chars).len(),
    ensures
        vstd::utf8::encode_utf8(chars)[i] != 0x25,
    decreases chars.len(),
{
    let c = chars[0] as u32;
    assert(chars[0] != '%');
    let first = vstd::utf8::encode_scalar(c);
    vstd::utf8::char_is_scalar(chars[0]);
    vstd::utf8::char_u32_cast(chars[0], c);
    assert(c != 0x25) by {
        if c == 0x25 {
            assert(0x25u32 as char == '%');
        }
    }
    assert(c < 0x80 && c != 0x25 ==> vstd::utf8::leading_byte_width_1(c) != 0x25) by (bit_vector);
    assert(vstd::utf8::leading_byte_width_2(c) != 0x25) by (bit_vector);
    assert(vstd::utf8::leading_byte_width_3(c) != 0x25) by (bit_vector);
    assert(vstd::utf8::leading_byte_width_4(c) != 0x25) by (bit_vector);
    assert(vstd::utf8::last_continuation_byte(c) != 0x25) by (bit_vector);
    assert(vstd::utf8::second_last_continuation_byte(c) != 0x25) by (bit_vector);
    assert(vstd::utf8::third_last_continuation_byte(c) != 0x25) by (bit_vector);
    if i >= first.len() {
        let rest = chars.drop_first();
        assert forall|k: int| 0 <= k < rest.len() implies #[trigger] rest[k] != '%' by {
            assert(rest[k] == chars[k + 1]);
        }
        lemma_no_percent_byte(rest, i - first.len());
    }
}

/// A text without percent signs is decoded to itself.
pub proof fn law_texts_without_percent_signs_stay(s: Seq<char>)
    requires
        !s.contains('%'),
    ensures
        ({
            let back = decoded(vstd::utf8::encode_utf8(s), 0);
            vstd::utf8::valid_utf8(back) && vstd::utf8::decode_utf8(back) == s
        }),
{
    let bytes = vstd::utf8::encode_utf8(s);
    assert forall|k: int| 0 <= k < s.len() implies #[trigger] s[k] != '%' by {
        assert(s.contains(s[k]));
    }
    assert forall|i: int| 0 <= i < bytes.len() implies bytes[i] != 0x25 by {
        lemma_no_percent_byte(s, i);
    }
    law_plain_text_stays(bytes, 0);
    assert(bytes.skip(0) =~= bytes);
    vstd::utf8::encode_utf8_valid_utf8(s);
    vstd::utf8::encode_utf8_decode_utf8(s);
}

/// Decoding never makes a text longer.
pub proof fn law_decoding_does_not_lengthen(bytes: Seq<u8>, i: int)
    requires
        0 <= i <= bytes.len(),
    ensures
        decoded(bytes, i).len() <= bytes.len() - i,
    decreases bytes.len() - i,
{
    if i < bytes.len() {
        if is_escaped(bytes, i) {
            law_decoding_does_not_lengthen(bytes, i + 3);
        } else {
            law_decoding_does_not_lengthen(bytes, i + 1);
        }
    }
}

/// Where the digits at a place end.
pub open spec fn digits_end(bytes: Seq<u8>, i: int) -> int
    decreases bytes.len() - i,
{
    if i < 0 || i >= bytes.len() || !(0x30 <= bytes[i] <= 0x39) {
        i
    } else {
        digits_end(bytes, i + 1)
    }
}

/// The number that the digits of a range stand for.
pub open spec fn number_at(bytes: Seq<u8>, start: int, end: int) -> int
    decreases end - start,
{
    if end <= start {
        0
    } else {
        number_at(bytes, start, end - 1) * 10 + (bytes[end - 1] - 0x30)
    }
}

/// Where the text of a sequence ends, from a place on: at a bell, or at an
/// escape with a backslash.
pub open spec fn terminator(bytes: Seq<u8>, i: int) -> Option<int>
    decreases bytes.len() - i,
{
    if i < 0 || i >= bytes.len() {
        None
    } else if bytes[i] == BELL {
        Some(i)
    } else if bytes[i] == ESCAPE && i + 1 < bytes.len() && bytes[i + 1] == 0x5c {
        Some(i)
    } else {
        terminator(bytes, i + 1)
    }
}

/// What a shell tells.
#[derive(Debug)]
pub enum ShellEvent {
    /// Where it works, as an address.
    WorkingDirectory(String),
    /// A marker.
    Marker(u8),
}

/// What a shell tells.
pub enum ShellEventModel {
    WorkingDirectory(Seq<char>),
    Marker(u8),
}

impl View for ShellEvent {
    type V = ShellEventModel;

    open spec fn view(&self) -> ShellEventModel {
        match self {
            ShellEvent::WorkingDirectory(uri) => ShellEventModel::WorkingDirectory(uri@),
            ShellEvent::Marker(byte) => ShellEventModel::Marker(*byte),
        }
    }
}

/// What is at a place: what the shell tells there, if anything, and where to
/// look on.
pub open spec fn event_at(bytes: Seq<u8>, i: int) -> (Option<ShellEventModel>, int) {
    if bytes[i] != ESCAPE || bytes[i + 1] != 0x5d {
        (None, i + 1)
    } else {
        let d = digits_end(bytes, i + 2);
        let number = number_at(bytes, i + 2, d);
        if d == i + 2 || d >= bytes.len() || bytes[d] != 0x3b {
            (None, d)
        } else if number == 7 {
            match terminator(bytes, d + 1) {
                Some(end) => (
                    if vstd::utf8::valid_utf8(bytes.subrange(d + 1, end)) {
                        Some(
                            ShellEventModel::WorkingDirectory(
                                vstd::utf8::decode_utf8(bytes.subrange(d + 1, end)),
                            ),
                        )
                    } else {
                        None
                    },
                    end,
                ),
                None => (None, d + 1),
            }
        } else if number == 133 {
            (
                if d + 1 < bytes.len() {
                    Some(ShellEventModel::Marker(bytes[d + 1]))
                } else {
                    None
                },
                d + 1,
            )
        } else {
            (None, d)
        }
    }
}

proof fn lemma_digits_end(bytes: Seq<u8>, i: int)
    requires
        0 <= i <= bytes.len(),
    ensures
        i <= digits_end(bytes, i) <= bytes.len(),
    decreases bytes.len() - i,
{
    if i < bytes.len() && 0x30 <= bytes[i] <= 0x39 {
        lemma_digits_end(bytes, i + 1);
    }
}

proof fn lemma_terminator(bytes: Seq<u8>, i: int)
    requires
        0 <= i <= bytes.len(),
    ensures
        terminator(bytes, i) is Some ==> i <= terminator(bytes, i)->0 < bytes.len(),
    decreases bytes.len() - i,
{
    if i < bytes.len() && terminator(bytes, i) != Some(i) {
        lemma_terminator(bytes, i + 1);
    }
}

/// What a shell tells in bytes from a place on.
pub open spec fn events_from(bytes: Seq<u8>, i: int) -> Seq<ShellEventModel>
    decreases bytes.len() - i,
{
    if i < 0 || i + 3 >= bytes.len() {
        Seq::empty()
    } else {
        let at = event_at(bytes, i);
        if at.1 <= i || at.1 > bytes.len() {
            Seq::empty()
        } else {
            match at.0 {
                Some(event) => seq![event] + events_from(bytes, at.1),
                None => events_from(bytes, at.1),
            }
        }
    }
}

/// The search always moves on.
proof fn lemma_event_at(bytes: Seq<u8>, i: int)
    requires
        0 <= i,
        i + 3 < bytes.len(),
    ensures
        i < event_at(bytes, i).1 <= bytes.len(),
{
    if bytes[i] == ESCAPE && bytes[i + 1] == 0x5d {
        lemma_digits_end(bytes, i + 2);
        let d = digits_end(bytes, i + 2);
        if d < bytes.len() {
            lemma_terminator(bytes, d + 1);
        }
    }
}

/// What a list of events holds.
pub open spec fn event_models(events: Seq<ShellEvent>) -> Seq<ShellEventModel> {
    events.map_values(|e: ShellEvent| e@)
}

/// What may be told.
pub open spec fn told_model(told: Option<ShellEvent>) -> Option<ShellEventModel> {
    match told {
        Some(event) => Some(event@),
        None => None,
    }
}

fn find_terminator(bytes: &[u8], start: usize) -> (end: Option<usize>)
    requires
        start <= bytes@.len(),
    ensures
        match end {
            Some(e) => terminator(bytes@, start as int) == Some(e as int) && start <= e
                < bytes@.len(),
            None => terminator(bytes@, start as int) is None,
        },
{
    let mut i: usize = start;
    while i < bytes.len()
        invariant
            start <= i <= bytes@.len(),
            terminator(bytes@, start as int) == terminator(bytes@, i as int),
        decreases bytes.len() - i,
    {
        if bytes[i] == BELL {
            return Some(i);
        }
        if bytes[i] == ESCAPE && bytes.len() - i > 1 && bytes[i + 1] == 0x5c {
            return Some(i);
        }
        i = i + 1;
    }
    None
}

/// Reads the digits at a place: where they end, and their number, which is
/// only told up to a largest one.
fn read_number(bytes: &[u8], start: usize) -> (read: (usize, u32))
    requires
        start <= bytes@.len(),
    ensures
        read.0 == digits_end(bytes@, start as int),
        start <= read.0 <= bytes@.len(),
        number_at(bytes@, start as int, read.0 as int) < 1000 ==> read.1 == number_at(
            bytes@,
            start as int,
            read.0 as int,
        ),
        number_at(bytes@, start as int, read.0 as int) >= 1000 ==> read.1 == 1000,
{
    let mut i: usize = start;
    let mut number: u32 = 0;
    while i < bytes.len() && 0x30 <= bytes[i] && bytes[i] <= 0x39
        invariant
            start <= i <= bytes@.len(),
            digits_end(bytes@, start as int) == digits_end(bytes@, i as int),
            number <= 1000,
            number_at(bytes@, start as int, i as int) >= 0,
            number == if number_at(bytes@, start as int, i as int) < 1000 {
                number_at(bytes@, start as int, i as int)
            } else {
                1000
            },
        decreases bytes.len() - i,
    {
        let digit: u32 = (bytes[i] - 0x30) as u32;
        assert(number_at(bytes@, start as int, i + 1) == number_at(bytes@, start as int, i as int)
            * 10 + digit);
        number = if number >= 1000 || number * 10 + digit >= 1000 {
            1000
        } else {
            number * 10 + digit
        };
        i = i + 1;
    }
    (i, number)
}

/// Looks for what a shell tells in a batch of output.
pub fn parse_osc_sequences(bytes: &[u8]) -> (events: Vec<ShellEvent>)
    ensures
        event_models(events@) == events_from(bytes@, 0),
{
    let mut events: Vec<ShellEvent> = Vec::new();
    let mut i: usize = 0;
    let length: usize = bytes.len();
    assert(event_models(events@) =~= Seq::<ShellEventModel>::empty());
    while i < length && length - i > 3
        invariant
            i <= length,
            length == bytes@.len(),
            events_from(bytes@, 0) == event_models(events@) + events_from(bytes@, i as int),
        decreases length - i,
    {
        let ghost before = events@;
        let ghost at = i as int;
        proof {
            lemma_event_at(bytes@, at);
        }
        let mut told: Option<ShellEvent> = None;
        if bytes[i] != ESCAPE || bytes[i + 1] != 0x5d {
            i = i + 1;
        } else {
            let (d, number) = read_number(bytes, i + 2);
            if d == i + 2 || d >= length || bytes[d] != 0x3b {
                i = d;
            } else if number == 7 {
                match find_terminator(bytes, d + 1) {
                    Some(end) => {
                        let payload: &[u8] = vstd::slice::slice_subrange(bytes, d + 1, end);
                        match text_of_bytes(payload) {
                            Some(uri) => {
                                told = Some(ShellEvent::WorkingDirectory(uri));
                            },
                            None => {},
                        }
                        i = end;
                    },
                    None => {
                        i = d + 1;
                    },
                }
            } else if number == 133 {
                if length - d > 1 {
                    told = Some(ShellEvent::Marker(bytes[d + 1]));
                }
                i = d + 1;
            } else {
                i = d;
            }
        }
        let ghost model = told_model(told);
        assert((model, i as int) == event_at(bytes@, at));
        match told {
            Some(event) => {
                proof {
                    assert(event_models(before.push(event)) =~= event_models(before).push(event@));
                    assert(event_models(before) + (seq![event@] + events_from(bytes@, i as int))
                        =~= event_models(before).push(event@) + events_from(bytes@, i as int));
                }
                events.push(event);
            },
            None => {},
        }
    }
    assert(event_models(events@) + events_from(bytes@, i as int) =~= event_models(events@));
    events
}

/// The place of the first slash from a place on, or the end.
pub open spec fn slash_at(text: Seq<char>, k: int) -> int
    decreases text.len() - k,
{
    if k < 0 || k >= text.len() {
        text.len() as int
    } else if text[k] == '/' {
        k
    } else {
        slash_at(text, k + 1)
    }
}

/// The path of an address: behind the name of the machine where the address is
/// that of a file, and the address itself otherwise.
pub open spec fn path_of_uri(uri: Seq<char>) -> Seq<char> {
    if cli::begins_with(uri, "file://"@) {
        let rest = uri.skip("file://"@.len() as int);
        let slash = slash_at(rest, 0);
        if slash < rest.len() {
            rest.skip(slash)
        } else {
            rest
        }
    } else {
        uri
    }
}

/// Finds the path of an address.
pub fn uri_path(uri: &str) -> (path: String)
    ensures
        path@ == path_of_uri(uri@),
{
    let rest: String = match strip_start(uri, "file://") {
        Some(rest) => rest,
        None => {
            return uri.to_owned();
        },
    };
    let length: usize = rest.as_str().unicode_len();
    let mut k: usize = 0;
    while k < length && rest.as_str().get_char(k) != '/'
        invariant
            k <= length,
            length == rest@.len(),
            slash_at(rest@, 0) == slash_at(rest@, k as int),
        decreases length - k,
    {
        k = k + 1;
    }
    if k < length {
        let path: String = rest.as_str().substring_char(k, length).to_owned();
        assert(path@ =~= rest@.skip(k as int));
        return path;
    }
    rest
}

/// What is known of the shell of a pane.
#[derive(Debug)]
pub struct ShellState {
    pub cwd: String,
    pub prompt_marker: u64,
}

/// What is known of the shell of a pane.
pub struct ShellModel {
    pub cwd: Seq<char>,
    pub prompt_marker: u64,
}

impl View for ShellState {
    type V = ShellModel;

    open spec fn view(&self) -> ShellModel {
        ShellModel { cwd: self.cwd@, prompt_marker: self.prompt_marker }
    }
}

/// Where a shell works, once its address is decoded.
pub open spec fn directory_of(uri: Seq<char>) -> Seq<char> {
    unicode::lossy_text(decoded(vstd::utf8::encode_utf8(path_of_uri(uri)), 0))
}

/// Whether a marker counts.
pub open spec fn is_marker(byte: u8) -> bool {
    0x41 <= byte <= 0x44
}

/// What is known after a shell told something.
pub open spec fn after_event(s: ShellModel, event: ShellEventModel) -> ShellModel {
    match event {
        ShellEventModel::WorkingDirectory(uri) => if path_of_uri(uri).len() == 0 {
            s
        } else {
            ShellModel { cwd: directory_of(uri), ..s }
        },
        ShellEventModel::Marker(byte) => if is_marker(byte) {
            ShellModel {
                prompt_marker: if s.prompt_marker == u64::MAX {
                    0
                } else {
                    (s.prompt_marker + 1) as u64
                },
                ..s
            }
        } else {
            s
        },
    }
}

impl ShellState {
    /// Takes in a working directory that was decoded, and says whether it is
    /// another one.
    pub fn move_to(&mut self, directory: String) -> (moved: bool)
        ensures
            final(self)@ == (ShellModel { cwd: directory@, ..old(self)@ }),
            moved == (directory@ != old(self).cwd@),
    {
        if same_text(directory.as_str(), self.cwd.as_str()) {
            assert(self.cwd@ =~= directory@);
            return false;
        }
        self.cwd = directory;
        true
    }

    /// Takes in what a shell told, and says whether clients are to be told that
    /// it works elsewhere.
    pub fn on_event(&mut self, event: &ShellEvent) -> (moved: bool)
        ensures
            final(self)@ == after_event(old(self)@, event@),
            moved == (final(self)@.cwd != old(self)@.cwd),
            event@ matches ShellEventModel::WorkingDirectory(uri) ==> path_of_uri(uri).len() > 0
                ==> {
                let bytes = decoded(vstd::utf8::encode_utf8(path_of_uri(uri)), 0);
                vstd::utf8::valid_utf8(bytes) ==> final(self)@.cwd == vstd::utf8::decode_utf8(bytes)
            },
    {
        match event {
            ShellEvent::WorkingDirectory(uri) => {
                let path: String = uri_path(uri.as_str());
                if path.as_str().is_empty() {
                    return false;
                }
                let directory: String = percent_decode(path.as_str());
                self.move_to(directory)
            },
            ShellEvent::Marker(byte) => {
                if 0x41 <= *byte && *byte <= 0x44 {
                    self.prompt_marker = self.prompt_marker.wrapping_add(1);
                }
                false
            },
        }
    }
}

proof fn lemma_digits_end_behind(a: Seq<u8>, b: Seq<u8>, i: int)
    requires
        0 <= i,
    ensures
        digits_end(a + b, a.len() + i) == a.len() + digits_end(b, i),
    decreases b.len() - i,
{
    if i < b.len() && 0x30 <= b[i] <= 0x39 {
        assert((a + b)[a.len() + i] == b[i]);
        lemma_digits_end_behind(a, b, i + 1);
    } else if i < b.len() {
        assert((a + b)[a.len() + i] == b[i]);
    }
}

proof fn lemma_number_behind(a: Seq<u8>, b: Seq<u8>, start: int, end: int)
    requires
        0 <= start,
        end <= b.len(),
    ensures
        number_at(a + b, a.len() + start, a.len() + end) == number_at(b, start, end),
    decreases end - start,
{
    if start < end {
        lemma_number_behind(a, b, start, end - 1);
        assert((a + b)[a.len() + end - 1] == b[end - 1]);
    }
}

proof fn lemma_terminator_behind(a: Seq<u8>, b: Seq<u8>, i: int)
    requires
        0 <= i,
    ensures
        match terminator(b, i) {
            Some(end) => terminator(a + b, a.len() + i) == Some(a.len() + end),
            None => terminator(a + b, a.len() + i) is None,
        },
    decreases b.len() - i,
{
    if i < b.len() {
        assert((a + b)[a.len() + i] == b[i]);
        if i + 1 < b.len() {
            assert((a + b)[a.len() + i + 1] == b[i + 1]);
        }
        lemma_terminator_behind(a, b, i + 1);
    }
}

/// What is told from a place on does not depend on what was before.
proof fn lemma_events_behind(a: Seq<u8>, b: Seq<u8>, i: int)
    requires
        0 <= i,
    ensures
        events_from(a + b, a.len() + i) == events_from(b, i),
    decreases b.len() - i,
{
    if i + 3 < b.len() {
        let all = a + b;
        let n = a.len() as int;
        lemma_event_at(b, i);
        assert(all[n + i] == b[i] && all[n + i + 1] == b[i + 1]);
        if b[i] == ESCAPE && b[i + 1] == 0x5d {
            let d = digits_end(b, i + 2);
            lemma_digits_end(b, i + 2);
            lemma_digits_end_behind(a, b, i + 2);
            lemma_number_behind(a, b, i + 2, d);
            if d < b.len() {
                assert(all[n + d] == b[d]);
                if d + 1 < b.len() {
                    assert(all[n + d + 1] == b[d + 1]);
                }
                lemma_terminator(b, d + 1);
                lemma_terminator_behind(a, b, d + 1);
                if let Some(end) = terminator(b, d + 1) {
                    assert(all.subrange(n + d + 1, n + end) =~= b.subrange(d + 1, end));
                }
            }
        }
        let at = event_at(b, i);
        assert(event_at(all, n + i) == (at.0, n + at.1));
        lemma_events_behind(a, b, at.1);
    }
}

/// Nothing is told before the first escape.
proof fn lemma_events_skip(bytes: Seq<u8>, i: int, j: int)
    requires
        0 <= i <= j <= bytes.len(),
        forall|k: int| i <= k < j ==> bytes[k] != ESCAPE,
    ensures
        events_from(bytes, i) == events_from(bytes, j),
    decreases j - i,
{
    if i < j {
        lemma_events_skip(bytes, i + 1, j);
    }
}

proof fn lemma_terminator_skips(bytes: Seq<u8>, i: int, j: int)
    requires
        0 <= i <= j <= bytes.len(),
        forall|k: int| i <= k < j ==> bytes[k] != ESCAPE && bytes[k] != BELL,
    ensures
        terminator(bytes, i) == terminator(bytes, j),
    decreases j - i,
{
    if i < j {
        lemma_terminator_skips(bytes, i + 1, j);
    }
}

/// Output without an escape tells nothing, and what is told after it is what
/// would be told without it.
pub proof fn law_plain_output_tells_nothing(plain: Seq<u8>, rest: Seq<u8>)
    requires
        !plain.contains(0x1bu8),
    ensures
        events_from(plain, 0) == Seq::<ShellEventModel>::empty(),
        events_from(plain + rest, 0) == events_from(rest, 0),
{
    let all = plain + rest;
    assert forall|k: int| 0 <= k < plain.len() implies all[k] != ESCAPE && plain[k] != ESCAPE by {
        assert(plain.contains(plain[k]));
    }
    lemma_events_skip(plain, 0, plain.len() as int);
    lemma_events_skip(all, 0, plain.len() as int);
    lemma_events_behind(plain, rest, 0);
}

/// A directory as a shell tells it: between escape, bracket, seven, semicolon
/// and either a bell or an escape and a backslash.
pub open spec fn told_directory(uri: Seq<u8>, bell: bool) -> Seq<u8> {
    seq![0x1bu8, 0x5d, 0x37, 0x3b] + uri + if bell {
        seq![0x07u8]
    } else {
        seq![0x1bu8, 0x5c]
    }
}

/// A directory that a shell tells is taken in, whichever way its end is marked
/// and whatever comes after it; one that is no text is passed over.
pub proof fn law_told_directories_are_taken_in(uri: Seq<u8>, bell: bool, rest: Seq<u8>)
    requires
        !uri.contains(0x07u8),
        !uri.contains(0x1bu8),
    ensures
        vstd::utf8::valid_utf8(uri) ==> events_from(told_directory(uri, bell) + rest, 0) == seq![
            ShellEventModel::WorkingDirectory(vstd::utf8::decode_utf8(uri)),
        ] + events_from(rest, 0),
        !vstd::utf8::valid_utf8(uri) ==> events_from(told_directory(uri, bell) + rest, 0)
            == events_from(rest, 0),
{
    let head = seq![0x1bu8, 0x5d, 0x37, 0x3b];
    let told = told_directory(uri, bell);
    let all = told + rest;
    let end = 4 + uri.len() as int;
    assert(all[0] == ESCAPE && all[1] == 0x5d && all[2] == 0x37 && all[3] == 0x3b);
    assert(digits_end(all, 3) == 3);
    assert(digits_end(all, 2) == 3);
    assert(number_at(all, 2, 2) == 0);
    assert(number_at(all, 2, 3) == 7);
    assert forall|k: int| 4 <= k < end implies all[k] != ESCAPE && all[k] != BELL by {
        assert(all[k] == uri[k - 4]);
        assert(uri.contains(uri[k - 4]));
    }
    lemma_terminator_skips(all, 4, end);
    if bell {
        assert(all[end] == BELL);
        lemma_events_skip(all, end, end + 1);
    } else {
        assert(all[end] == ESCAPE && all[end + 1] == 0x5c);
        assert(terminator(all, end) == Some(end));
        assert(events_from(all, end) == events_from(all, end + 1)) by {
            if end + 3 < all.len() {
                assert(event_at(all, end) == (None::<ShellEventModel>, end + 1));
            }
        }
        lemma_events_skip(all, end + 1, end + 2);
    }
    assert(terminator(all, 4) == Some(end));
    assert(all.subrange(4, end) =~= uri);
    assert(event_at(all, 0).1 == end);
    lemma_events_behind(told, rest, 0);
}

/// A directory whose end is not there is not taken in.
pub proof fn law_unfinished_directories_are_passed_over(uri: Seq<u8>)
    requires
        !uri.contains(0x07u8),
        !uri.contains(0x1bu8),
    ensures
        events_from(seq![0x1bu8, 0x5d, 0x37, 0x3b] + uri, 0) == Seq::<ShellEventModel>::empty(),
{
    let all = seq![0x1bu8, 0x5d, 0x37, 0x3b] + uri;
    let n = all.len() as int;
    assert(all[0] == ESCAPE && all[1] == 0x5d && all[2] == 0x37 && all[3] == 0x3b);
    assert(digits_end(all, 3) == 3);
    assert(digits_end(all, 2) == 3);
    assert(number_at(all, 2, 2) == 0);
    assert(number_at(all, 2, 3) == 7);
    assert forall|k: int| 4 <= k < n implies all[k] != ESCAPE && all[k] != BELL by {
        assert(all[k] == uri[k - 4]);
        assert(uri.contains(uri[k - 4]));
    }
    lemma_terminator_skips(all, 4, n);
    lemma_events_skip(all, 4, n);
}

/// A marker that a shell tells is taken in: the byte behind escape, bracket,
/// 133 and semicolon, whatever comes after it.
pub proof fn law_told_markers_are_taken_in(marker: u8, rest: Seq<u8>)
    ensures
        ({
            let head = seq![0x1bu8, 0x5d, 0x31, 0x33, 0x33, 0x3b];
            let behind = seq![marker] + rest;
            &&& events_from(head + behind, 0) == seq![ShellEventModel::Marker(marker)]
                + events_from(behind, 0)
            &&& marker != 0x1b ==> events_from(behind, 0) == events_from(rest, 0)
        }),
{
    let head = seq![0x1bu8, 0x5d, 0x31, 0x33, 0x33, 0x3b];
    let behind = seq![marker] + rest;
    let all = head + behind;
    assert(all[0] == ESCAPE && all[1] == 0x5d && all[2] == 0x31 && all[3] == 0x33 && all[4] == 0x33
        && all[5] == 0x3b && all[6] == marker);
    assert(digits_end(all, 5) == 5);
    assert(digits_end(all, 4) == 5);
    assert(digits_end(all, 3) == 5);
    assert(digits_end(all, 2) == 5);
    assert(number_at(all, 2, 2) == 0);
    assert(number_at(all, 2, 3) == 1);
    assert(number_at(all, 2, 4) == 13);
    assert(number_at(all, 2, 5) == 133);
    assert(event_at(all, 0) == (Some(ShellEventModel::Marker(marker)), 6int));
    lemma_events_behind(head, behind, 0);
    if marker != 0x1b {
        lemma_events_skip(behind, 0, 1);
        lemma_events_behind(seq![marker], rest, 0);
    }
}

proof fn lemma_slash_at(text: Seq<char>, k: int, w: int)
    requires
        0 <= k <= w <= text.len(),
        w < text.len() ==> text[w] == '/',
        forall|j: int| k <= j < w ==> text[j] != '/',
    ensures
        slash_at(text, k) == w,
    decreases w - k,
{
    if k < w {
        lemma_slash_at(text, k + 1, w);
    }
}

/// The path of the address of a file begins at the first slash behind the name
/// of the machine, whatever that name is; any other address is its own path.
pub proof fn law_paths_begin_behind_the_machine(machine: Seq<char>, path: Seq<char>)
    requires
        !machine.contains('/'),
    ensures
        path.len() > 0 && path[0] == '/' ==> path_of_uri("file://"@ + machine + path) == path,
        path_of_uri("file://"@ + machine) == machine,
        !("file://"@.is_prefix_of(path)) ==> path_of_uri(path) == path,
{
    let start = "file://"@;
    let n = start.len() as int;
    let whole = start + machine + path;
    assert forall|j: int| 0 <= j < machine.len() implies machine[j] != '/' by {
        assert(machine.contains(machine[j]));
    }
    if path.len() > 0 && path[0] == '/' {
        let rest = whole.skip(n);
        assert(whole.take(n) =~= start);
        assert(rest =~= machine + path);
        assert(rest[machine.len() as int] == path[0]);
        lemma_slash_at(rest, 0, machine.len() as int);
        assert(rest.skip(machine.len() as int) =~= path);
    }
    let short = start + machine;
    assert(short.take(n) =~= start);
    assert(short.skip(n) =~= machine);
    lemma_slash_at(machine, 0, machine.len() as int);
    if !start.is_prefix_of(path) && n <= path.len() {
        assert(path.subrange(0, n) =~= path.take(n));
    }
}

/// The markers A, B, C and D each count one further, and start again at zero
/// behind the largest number; other markers count nothing. No marker moves the
/// shell, and no directory counts as a marker.
pub proof fn law_markers_count_and_directories_move(s: ShellModel, byte: u8, uri: Seq<char>)
    ensures
        ({
            let after = after_event(s, ShellEventModel::Marker(byte));
            let counts = byte == 0x41 || byte == 0x42 || byte == 0x43 || byte == 0x44;
            &&& after.cwd == s.cwd
            &&& !counts ==> after == s
            &&& counts && s.prompt_marker < u64::MAX ==> after.prompt_marker == s.prompt_marker + 1
            &&& counts && s.prompt_marker == u64::MAX ==> after.prompt_marker == 0
        }),
        after_event(s, ShellEventModel::WorkingDirectory(uri)).prompt_marker == s.prompt_marker,
        path_of_uri(uri).len() == 0 ==> after_event(s, ShellEventModel::WorkingDirectory(uri)) == s,
{
}

/// Whether a byte is a hexadecimal digit of this value, in either case.
pub open spec fn is_digit_of(byte: u8, value: int) -> bool {
    (0 <= value < 10 && byte == 48 + value) || (10 <= value < 16 && (byte == 87 + value || byte
        == 55 + value))
}

/// A percent sign and two hexadecimal digits are the byte that they stand for;
/// a percent sign with anything else behind it is a percent sign.
pub proof fn law_percent_signs_need_two_digits(bytes: Seq<u8>, i: int, high: int, low: int)
    requires
        0 <= i < bytes.len(),
        bytes[i] == 0x25,
    ensures
        i + 2 < bytes.len() && is_digit_of(bytes[i + 1], high) && is_digit_of(bytes[i + 2], low)
            ==> decoded(bytes, i) == seq![(16 * high + low) as u8] + decoded(bytes, i + 3),
        i + 2 >= bytes.len() || (forall|v: int| !#[trigger] is_digit_of(bytes[i + 1], v)) || (
        forall|v: int| !#[trigger] is_digit_of(bytes[i + 2], v)) ==> decoded(bytes, i)
            == seq![0x25u8] + decoded(bytes, i + 1),
{
    if i + 2 < bytes.len() {
        if let Some(v) = hex_value(bytes[i + 1]) {
            assert(is_digit_of(bytes[i + 1], v));
        }
        if let Some(v) = hex_value(bytes[i + 2]) {
            assert(is_digit_of(bytes[i + 2], v));
        }
        if is_digit_of(bytes[i + 1], high) && is_digit_of(bytes[i + 2], low) {
            assert(hex_value(bytes[i + 1]) == Some(high));
            assert(hex_value(bytes[i + 2]) == Some(low));
            assert(high * 16 == 16 * high);
        }
    }
}

} // verus!
