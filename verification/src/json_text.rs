//! JSON strings and values as text, by way of `serde_json`.

use vstd::prelude::*;
use vstd::utf8::{decode_utf8, encode_utf8, valid_utf8};

use crate::json_body::grammar::is_value;
use crate::text::opt_text;

verus! {

/// A lowercase hexadecimal digit.
pub open spec fn hex_char(n: int) -> char {
    if n < 10 {
        ('0' as int + n) as char
    } else {
        ('a' as int + n - 10) as char
    }
}

/// How one character is written inside a JSON string.
pub open spec fn json_escape(c: char) -> Seq<char> {
    if c == '"' || c == '\\' {
        seq!['\\', c]
    } else if c as int == 0x08 {
        seq!['\\', 'b']
    } else if c as int == 0x09 {
        seq!['\\', 't']
    } else if c as int == 0x0A {
        seq!['\\', 'n']
    } else if c as int == 0x0C {
        seq!['\\', 'f']
    } else if c as int == 0x0D {
        seq!['\\', 'r']
    } else if (c as int) < 0x20 {
        seq!['\\', 'u', '0', '0', hex_char(c as int / 16), hex_char(c as int % 16)]
    } else {
        seq![c]
    }
}

/// The text `t` as a JSON string, quotes included.
pub open spec fn json_string(t: Seq<char>) -> Seq<u8> {
    encode_utf8(seq!['"'] + t.flat_map(|c: char| json_escape(c)) + seq!['"'])
}

/// What `serde_json::from_slice` reads from `json` as a string.
pub uninterp spec fn json_string_decoded(json: Seq<u8>) -> Option<Seq<char>>;

/// The compact text of the JSON value that `json` writes.
pub uninterp spec fn json_compact(json: Seq<u8>) -> Option<Seq<u8>>;

/// Bytes that may be absent, as mathematical data.
pub open spec fn byte_view(b: Option<Vec<u8>>) -> Option<Seq<u8>> {
    match b {
        Some(v) => Some(v@),
        None => None,
    }
}

/// `serde_json::from_slice` into a `String`: the text of a JSON string, or
/// `None` when `json` is not one JSON string.
#[verifier::external_body]
pub(crate) fn decode_json_string(json: &[u8]) -> (r: Option<String>)
    ensures
        opt_text(r) == json_string_decoded(json@),
{
    serde_json::from_slice(json).ok()
}

/// `serde_json::to_vec` of a text: the text as a JSON string, which
/// `serde_json::from_slice` reads back.
#[verifier::external_body]
pub(crate) fn encode_json_string(text: &str) -> (r: Option<Vec<u8>>)
    ensures
        byte_view(r) == Some(json_string(text@)),
        json_string_decoded(r->0@) == Some(text@),
{
    serde_json::to_vec(text).ok()
}

/// `serde_json::from_slice` into a `Value`, written out again by
/// `serde_json::to_vec`, which writes one JSON value; `None` when `json` is
/// not one JSON value.
#[verifier::external_body]
pub(crate) fn compact_json(json: &[u8]) -> (r: Option<Vec<u8>>)
    ensures
        byte_view(r) == json_compact(json@),
        r matches Some(b) ==> is_value(b@),
{
    let value: serde_json::Value = serde_json::from_slice(json).ok()?;
    serde_json::to_vec(&value).ok()
}

/// `str::from_utf8`: whether bytes are valid UTF-8.
#[verifier::external_body]
pub(crate) fn is_utf8(bytes: &[u8]) -> (r: bool)
    ensures
        r == valid_utf8(bytes@),
{
    std::str::from_utf8(bytes).is_ok()
}

/// `String::from_utf8`: the text that `bytes` encode, or `None` when they are
/// not valid UTF-8.
#[verifier::external_body]
pub(crate) fn utf8_text(bytes: Vec<u8>) -> (r: Option<String>)
    ensures
        opt_text(r) == (if valid_utf8(bytes@) {
            Some(decode_utf8(bytes@))
        } else {
            None
        }),
{
    String::from_utf8(bytes).ok()
}

} // verus!
