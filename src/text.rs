//! Text helpers shared by the library: UTF-8 decoding and joining rendered
//! cells with the reserved delimiter token.
use vstd::prelude::*;
use vstd::string::StringSliceAdditionalSpecFns;
use vstd::utf8::{decode_utf8, valid_utf8};

use crate::csv_parser::field_text;

verus! {

/// Relies on `std::str::from_utf8`: it succeeds exactly on valid UTF-8, and
/// the text it returns is the decoding of the bytes.
#[verifier::external_body]
pub(crate) fn utf8_str<'a>(bytes: &'a [u8]) -> (r: Option<&'a str>)
    ensures
        r is Some <==> valid_utf8(bytes@),
        r matches Some(s) ==> s@ == decode_utf8(bytes@) && s.spec_bytes() == bytes@,
{
    std::str::from_utf8(bytes).ok()
}

/// The bytes decoded as UTF-8 into an owned string; `None` when they are
/// not valid UTF-8.
pub fn utf8_string(bytes: &[u8]) -> (r: Option<String>)
    ensures
        r is Some <==> valid_utf8(bytes@),
        r matches Some(s) ==> s@ == decode_utf8(bytes@),
{
    match utf8_str(bytes) {
        Some(s) => Some(s.to_owned()),
        None => None,
    }
}

/// The text of some bytes, or empty text where they are not valid UTF-8.
pub fn text_or_empty(b: &[u8]) -> (r: String)
    ensures
        r@ == field_text(b@),
{
    match utf8_string(b) {
        Some(s) => s,
        None => String::new(),
    }
}

} // verus!
