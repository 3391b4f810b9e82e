//! Text conversions that the standard library performs.

use vstd::prelude::*;
use vstd::utf8::decode_utf8;
use vstd::utf8::is_ascii_chars;
use vstd::utf8::valid_utf8;

verus! {

/// The uppercase form of a text, as Unicode defines it.
pub uninterp spec fn uppercase_of(text: Seq<char>) -> Seq<char>;

/// The uppercase form of an ASCII character: a small letter becomes the
/// capital letter, every other character stays.
pub open spec fn ascii_upper_char(c: char) -> char {
    if 'a' <= c <= 'z' {
        ((c as u8) - 32) as char
    } else {
        c
    }
}

/// The uppercase form of an ASCII text, character by character.
pub open spec fn ascii_upper(text: Seq<char>) -> Seq<char> {
    text.map_values(|c: char| ascii_upper_char(c))
}

/// The uppercase form of `text`, with `str::to_uppercase`.
///
/// The result depends on the characters of `text` alone, and the contract
/// gives it its name. Of a text that is all ASCII it also claims what
/// Unicode's mapping is there: small letters become capital letters and
/// nothing else changes.
#[verifier::external_body]
pub(crate) fn to_upper(text: &str) -> (upper: String)
    ensures
        upper@ == uppercase_of(text@),
        is_ascii_chars(text@) ==> upper@ == ascii_upper(text@),
{
    text.to_uppercase()
}

/// The text that `bytes` encode, with `String::from_utf8`.
///
/// `String::from_utf8` succeeds exactly on well-formed UTF-8 and then holds
/// the characters that the bytes encode.
#[verifier::external_body]
pub(crate) fn text_from_utf8(bytes: Vec<u8>) -> (text: Option<String>)
    ensures
        text is Some <==> valid_utf8(bytes@),
        text matches Some(decoded) ==> decoded@ == decode_utf8(bytes@),
{
    match String::from_utf8(bytes) {
        Ok(decoded) => Some(decoded),
        Err(_) => None,
    }
}

} // verus!
