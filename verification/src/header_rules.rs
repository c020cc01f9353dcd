//! Which texts are valid HTTP header names and values.

use vstd::prelude::*;

verus! {

/// Longest header name.
pub const MAX_HEADER_NAME_LEN: usize = 65535;

/// A character of a header name.
pub open spec fn is_name_char(c: char) -> bool {
    ||| 'a' <= c <= 'z'
    ||| 'A' <= c <= 'Z'
    ||| '0' <= c <= '9'
    ||| c == '!' || c == '#' || c == '$' || c == '%' || c == '&' || c == '\'' || c == '*' || c == '+'
    ||| c == '-' || c == '.' || c == '^' || c == '_' || c == '`' || c == '|' || c == '~'
}

/// Whether a text is a header name.
pub open spec fn is_header_name(s: Seq<char>) -> bool {
    0 < s.len() <= MAX_HEADER_NAME_LEN && forall|i: int|
        0 <= i < s.len() ==> is_name_char(#[trigger] s[i])
}

/// A character of a header value: any but control characters other than the tab.
pub open spec fn is_value_char(c: char) -> bool {
    (c >= ' ' && c as u32 != 127) || c == '\t'
}

/// Whether a text is a header value.
pub open spec fn is_header_value(s: Seq<char>) -> bool {
    forall|i: int| 0 <= i < s.len() ==> is_value_char(#[trigger] s[i])
}

/// `http::header::HeaderName::from_bytes`: whether it takes the bytes of `s`. A
/// name has at least one and at most 65535 bytes, all of them token characters.
#[verifier::external_body]
pub(crate) fn valid_header_name(s: &str) -> (r: bool)
    ensures
        r == is_header_name(s@),
{
    http::header::HeaderName::from_bytes(s.as_bytes()).is_ok()
}

/// `http::header::HeaderValue::from_str`: whether it takes `s`. Every byte of a
/// value is a tab, or is not below 32 and not 127.
#[verifier::external_body]
pub(crate) fn valid_header_value(s: &str) -> (r: bool)
    ensures
        r == is_header_value(s@),
{
    http::header::HeaderValue::from_str(s).is_ok()
}

} // verus!
