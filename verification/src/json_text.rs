//! Values as they are written: what `serde_json` reads of a text, and how it
//! writes a value.
use crate::json;
use crate::json::JsonModel;
use crate::text_order;
use crate::text_order::Named;
use serde_json::{Number, Value};
use vstd::prelude::*;

verus! {

/// A digit of a number to the base sixteen.
pub open spec fn hex_digit(n: int) -> char {
    if n < 10 {
        ('0' as int + n) as char
    } else {
        ('a' as int + n - 10) as char
    }
}

/// A character of a text between quotes.
pub open spec fn escaped(c: char) -> Seq<char> {
    if c == '"' || c == '\\' {
        seq!['\\', c]
    } else if c as int == 0x08 {
        seq!['\\', 'b']
    } else if c as int == 0x09 {
        seq!['\\', 't']
    } else if c as int == 0x0a {
        seq!['\\', 'n']
    } else if c as int == 0x0c {
        seq!['\\', 'f']
    } else if c as int == 0x0d {
        seq!['\\', 'r']
    } else if (c as int) < 0x20 {
        seq!['\\', 'u', '0', '0', hex_digit(c as int / 16), hex_digit(c as int % 16)]
    } else {
        seq![c]
    }
}

/// The characters of a text between quotes.
pub open spec fn escaped_text(text: Seq<char>) -> Seq<char>
    decreases text.len(),
{
    if text.len() == 0 {
        Seq::empty()
    } else {
        escaped_text(text.drop_last()) + escaped(text.last())
    }
}

/// A text as it is written in JSON: between quotes, with quotes, backslashes
/// and control characters escaped.
pub open spec fn quoted(text: Seq<char>) -> Seq<char> {
    seq!['"'] + escaped_text(text) + seq!['"']
}

/// `serde_json::Value::from` for a text and its `to_string`: the text as it is
/// written in JSON.
#[verifier::external_body]
pub(crate) fn quote(text: &str) -> (written: String)
    ensures
        written@ == quoted(text@),
{
    serde_json::Value::from(text).to_string()
}

/// `serde_json::Value`: a value as it is read and before it is written.
#[verifier::external_type_specification]
#[verifier::external_body]
pub struct ExValue(serde_json::Value);

/// `serde_json::Number`: a number of any kind.
#[verifier::external_type_specification]
#[verifier::external_body]
pub struct ExNumber(serde_json::Number);

/// How a number is written.
pub uninterp spec fn number_text(number: Number) -> Seq<char>;

/// What a value holds; the members of an object in the order of their keys.
pub uninterp spec fn value_held(value: Value) -> JsonModel;

/// A value that is read.
pub open spec fn reads(json: JsonModel) -> Result<JsonModel, Seq<char>> {
    Ok(json)
}

/// What is said where nothing can be read.
pub open spec fn refuses(detail: Seq<char>) -> Result<JsonModel, Seq<char>> {
    Err(detail)
}

/// What a text writes, or what is said of it where it is no JSON.
pub uninterp spec fn json_written(text: Seq<char>) -> Result<JsonModel, Seq<char>>;

/// What bytes write, or what is said of them where they are no JSON.
pub uninterp spec fn json_in_bytes(bytes: Seq<u8>) -> Result<JsonModel, Seq<char>>;

/// A value as it is written on one line.
pub uninterp spec fn compact_text(json: JsonModel) -> Seq<char>;

/// A value as it is written over many lines.
pub uninterp spec fn pretty_text(json: JsonModel) -> Seq<char>;

impl Named for (Seq<char>, JsonModel) {
    open spec fn key(&self) -> Seq<char> {
        self.0
    }
}

/// A value with the lists and objects in it still closed.
pub enum Opened {
    Null,
    Bool(bool),
    Whole(u64),
    Negative(i64),
    Real(Number),
    Text(String),
    List(Vec<Value>),
    Object(Vec<(String, Value)>),
}

impl Opened {
    pub open spec fn model(self) -> JsonModel {
        match self {
            Opened::Null => JsonModel::Null,
            Opened::Bool(flag) => JsonModel::Bool(flag),
            Opened::Whole(number) => JsonModel::Whole(number),
            Opened::Negative(number) => JsonModel::Negative(number),
            Opened::Real(number) => JsonModel::Real(number_text(number)),
            Opened::Text(text) => JsonModel::Text(text@),
            Opened::List(items) => JsonModel::List(items@.map_values(|v: Value| value_held(v))),
            Opened::Object(members) => JsonModel::Object(
                members@.map_values(|m: (String, Value)| (m.0@, value_held(m.1))),
            ),
        }
    }

    /// Whether this is how a value looks: a number is in the form that it
    /// belongs to, and no object has a key twice.
    pub open spec fn sound(self) -> bool {
        match self.model() {
            JsonModel::Negative(number) => number < 0,
            JsonModel::Real(text) => json::is_real(text),
            JsonModel::Object(members) => json::no_key_twice(members),
            _ => true,
        }
    }
}

/// `Clone` of a number: it is written as the other one.
#[verifier::external_body]
pub(crate) fn copy_number(number: &Number) -> (copy: Number)
    ensures
        number_text(copy) == number_text(*number),
{
    number.clone()
}

/// `serde_json::from_str`: the value that a text writes, or the text of the
/// error. What makes a text JSON is not stated.
#[verifier::external_body]
pub(crate) fn read_value(text: &str) -> (read: Result<Value, String>)
    ensures
        match read {
            Ok(value) => json_written(text@) == reads(value_held(value)),
            Err(detail) => json_written(text@) == refuses(detail@),
        },
{
    serde_json::from_str(text).map_err(|error: serde_json::Error| error.to_string())
}

/// `serde_json::from_slice`: the value that bytes write, or the text of the
/// error. Bytes that are valid UTF-8 are read as their text is. What makes
/// bytes JSON is not stated.
#[verifier::external_body]
pub(crate) fn read_value_of_bytes(bytes: &Vec<u8>) -> (read: Result<Value, String>)
    ensures
        match read {
            Ok(value) => json_in_bytes(bytes@) == reads(value_held(value)),
            Err(detail) => json_in_bytes(bytes@) == refuses(detail@),
        },
        vstd::utf8::valid_utf8(bytes@) ==> match read {
            Ok(value) => json_written(vstd::utf8::decode_utf8(bytes@)) == reads(
                value_held(value),
            ),
            Err(detail) => json_written(vstd::utf8::decode_utf8(bytes@)) == refuses(
                detail@,
            ),
        },
{
    serde_json::from_slice(bytes).map_err(|error: serde_json::Error| error.to_string())
}

/// The variants of `serde_json::Value`, with `Number::as_u64` and
/// `Number::as_i64` to tell those of a number apart: what a value is, and what
/// the lists and objects in it hold. No object has a key twice, a number that
/// `as_i64` alone gives is negative, and one that neither gives is written with
/// a point or an exponent.
#[verifier::external_body]
pub(crate) fn opened(value: Value) -> (opened: Opened)
    ensures
        opened.model() == value_held(value),
        opened.sound(),
{
    match value {
        Value::Null => Opened::Null,
        Value::Bool(flag) => Opened::Bool(flag),
        Value::Number(number) => match (number.as_u64(), number.as_i64()) {
            (Some(whole), _) => Opened::Whole(whole),
            (None, Some(negative)) => Opened::Negative(negative),
            (None, None) => Opened::Real(number),
        },
        Value::String(text) => Opened::Text(text),
        Value::Array(items) => Opened::List(items),
        Value::Object(members) => Opened::Object(members.into_iter().collect()),
    }
}

/// The variants of `serde_json::Value`, with `Value::from` for whole numbers
/// and `Map::from_iter` for objects: the value that is made of what it is to
/// hold. The members of an object are put in the order of their keys.
#[verifier::external_body]
pub(crate) fn closed(opened: Opened) -> (value: Value)
    requires
        opened.sound(),
    ensures
        opened.model() is Object ==> value_held(value) == JsonModel::Object(
            text_order::by_key(opened.model()->Object_0),
        ),
        !(opened.model() is Object) ==> value_held(value) == opened.model(),
{
    match opened {
        Opened::Null => Value::Null,
        Opened::Bool(flag) => Value::Bool(flag),
        Opened::Whole(number) => Value::from(number),
        Opened::Negative(number) => Value::from(number),
        Opened::Real(number) => Value::Number(number),
        Opened::Text(text) => Value::String(text),
        Opened::List(items) => Value::Array(items),
        Opened::Object(members) => Value::Object(members.into_iter().collect()),
    }
}

/// `Display` of a value: how it is written on one line.
#[verifier::external_body]
pub(crate) fn compact(value: &Value) -> (text: String)
    ensures
        text@ == compact_text(value_held(*value)),
{
    value.to_string()
}

/// `Display` of a value in the alternate form: how it is written over many
/// lines. A value without reals, in which at most 127 lists and objects lie
/// within one another, is what `serde_json::from_str` reads of that.
#[verifier::external_body]
pub(crate) fn pretty(value: &Value) -> (text: String)
    ensures
        text@ == pretty_text(value_held(*value)),
        json::fits_within(value_held(*value), 127) ==> json_written(text@) == reads(value_held(*value)),
{
    format!("{:#}", value)
}

} // verus!
