//! Percent coding.

use vstd::prelude::*;
use vstd::utf8::{decode_utf8, encode_utf8, valid_utf8};

use crate::text::opt_text;

verus! {

/// The value of a byte as a hexadecimal digit.
pub open spec fn hex_value(b: u8) -> Option<u8> {
    if 48 <= b <= 57 {
        Some((b - 48) as u8)
    } else if 97 <= b <= 102 {
        Some((b - 87) as u8)
    } else if 65 <= b <= 70 {
        Some((b - 55) as u8)
    } else {
        None
    }
}

/// Bytes with every percent sign that two hexadecimal digits follow replaced,
/// together with these, by the byte that they write.
pub open spec fn percent_decoded(bytes: Seq<u8>) -> Seq<u8>
    decreases bytes.len(),
{
    if bytes.len() == 0 {
        Seq::empty()
    } else if bytes[0] == 37 && bytes.len() >= 3 && hex_value(bytes[1]) is Some && hex_value(
        bytes[2],
    ) is Some {
        seq![(hex_value(bytes[1])->0 * 16 + hex_value(bytes[2])->0) as u8] + percent_decoded(
            bytes.skip(3),
        )
    } else {
        seq![bytes[0]] + percent_decoded(bytes.skip(1))
    }
}

/// The text that a percent-coded text stands for, if it is valid UTF-8.
pub open spec fn decoded_text(s: Seq<char>) -> Option<Seq<char>> {
    let bytes = percent_decoded(encode_utf8(s));
    if valid_utf8(bytes) {
        Some(decode_utf8(bytes))
    } else {
        None
    }
}

/// `percent_encoding::percent_decode_str` with `decode_utf8`: the bytes of `s`
/// with each percent sign before two hexadecimal digits decoded, as text.
#[verifier::external_body]
pub(crate) fn percent_decode(s: &str) -> (r: Option<String>)
    ensures
        opt_text(r) == decoded_text(s@),
{
    percent_encoding::percent_decode_str(s).decode_utf8().ok().map(|t| t.into_owned())
}

/// Whether a byte of a query value is written as it is: an ASCII character that
/// is no control character and none of space, `"`, `#`, `&`, `+` and `=`.
pub open spec fn is_plain(b: u8) -> bool {
    32 < b < 127 && b != 34 && b != 35 && b != 38 && b != 43 && b != 61
}

/// The uppercase hexadecimal digit of a value below 16.
pub open spec fn upper_digit(n: u8) -> char {
    if n < 10 {
        (48 + n) as char
    } else {
        (55 + n) as char
    }
}

/// How a byte of a query value is written.
pub open spec fn byte_text(b: u8) -> Seq<char> {
    if is_plain(b) {
        seq![b as char]
    } else {
        seq!['%', upper_digit((b / 16) as u8), upper_digit((b % 16) as u8)]
    }
}

/// How the bytes of a query value are written.
pub open spec fn bytes_text(bytes: Seq<u8>) -> Seq<char>
    decreases bytes.len(),
{
    if bytes.len() == 0 {
        Seq::empty()
    } else {
        bytes_text(bytes.drop_last()) + byte_text(bytes.last())
    }
}

fn to_upper_digit(n: u8) -> (r: char)
    requires
        n < 16,
    ensures
        r == upper_digit(n),
{
    if n < 10 {
        (48 + n) as char
    } else {
        (55 + n) as char
    }
}

/// Percent-encode a query value.
pub fn percent_encode_query_value(value: &str) -> (r: String)
    ensures
        r@ == bytes_text(encode_utf8(value@)),
{
    let bytes = value.as_bytes();
    let n: usize = bytes.len();
    let mut out = String::new();
    let mut i: usize = 0;
    assert(bytes@.take(0) =~= Seq::<u8>::empty());
    assert(out@ =~= Seq::<char>::empty());
    while i < n
        invariant
            n == bytes@.len(),
            i <= n,
            out@ == bytes_text(bytes@.take(i as int)),
        decreases n - i,
    {
        let b: u8 = bytes[i];
        let ghost step = bytes@.take(i + 1);
        let ghost before = out@;
        assert(step.drop_last() =~= bytes@.take(i as int));
        if 32 < b && b < 127 && b != 34 && b != 35 && b != 38 && b != 43 && b != 61 {
            out.push(b as char);
            assert(out@ =~= before + byte_text(b));
        } else {
            out.push('%');
            out.push(to_upper_digit(b / 16));
            out.push(to_upper_digit(b % 16));
            assert(out@ =~= before + byte_text(b));
        }
        i = i + 1;
    }
    assert(bytes@.take(n as int) =~= bytes@);
    out
}

} // verus!
