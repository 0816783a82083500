//! Bytes as text.
use vstd::prelude::*;

verus! {

/// `std::str::from_utf8`: the text of bytes that are valid UTF-8, and nothing
/// for others.
#[verifier::external_body]
pub(crate) fn text_of_bytes(bytes: &[u8]) -> (text: Option<String>)
    ensures
        text is Some == vstd::utf8::valid_utf8(bytes@),
        text is Some ==> text->0@ == vstd::utf8::decode_utf8(bytes@),
{
    match std::str::from_utf8(bytes) {
        Ok(text) => Some(text.to_owned()),
        Err(_) => None,
    }
}

/// The text of bytes, with a replacement character where they are not valid
/// UTF-8.
pub uninterp spec fn lossy_text(bytes: Seq<u8>) -> Seq<char>;

/// `String::from_utf8_lossy`: the text of bytes; what is not valid UTF-8 in
/// them is replaced, and bytes that are valid throughout are kept.
#[verifier::external_body]
pub(crate) fn text_of_bytes_lossy(bytes: &Vec<u8>) -> (text: String)
    ensures
        text@ == lossy_text(bytes@),
        vstd::utf8::valid_utf8(bytes@) ==> text@ == vstd::utf8::decode_utf8(bytes@),
{
    String::from_utf8_lossy(bytes).into_owned()
}

} // verus!
