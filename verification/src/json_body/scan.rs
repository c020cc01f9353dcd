//! The JSON grammar as positions in a byte sequence, and scanners that follow it.

use vstd::prelude::*;
use vstd::slice::slice_subrange;
use vstd::utf8::valid_utf8;

use crate::json_body::error::{RewriteError, MAX_JSON_DEPTH};
use crate::json_text::is_utf8;
use crate::string_scan::find_special;

verus! {

/// JSON insignificant whitespace: space, tab, line feed, carriage return.
pub open spec fn is_ws(b: u8) -> bool {
    b == 0x20 || b == 0x09 || b == 0x0A || b == 0x0D
}

pub open spec fn is_digit(b: u8) -> bool {
    0x30 <= b <= 0x39
}

pub open spec fn is_hex_digit(b: u8) -> bool {
    is_digit(b) || 0x41 <= b <= 0x46 || 0x61 <= b <= 0x66
}

/// The byte at `i`, if `i` is a position of `s`.
pub open spec fn byte_at(s: Seq<u8>, i: int) -> Option<u8> {
    if 0 <= i < s.len() {
        Some(s[i])
    } else {
        None
    }
}

/// The first position at or after `i` that does not hold whitespace.
pub open spec fn ws_end(s: Seq<u8>, i: int) -> int
    decreases s.len() - i,
{
    if 0 <= i < s.len() && is_ws(s[i]) {
        ws_end(s, i + 1)
    } else {
        i
    }
}

/// The first position at or after `i` that does not hold a digit.
pub open spec fn digits_end(s: Seq<u8>, i: int) -> int
    decreases s.len() - i,
{
    if 0 <= i < s.len() && is_digit(s[i]) {
        digits_end(s, i + 1)
    } else {
        i
    }
}

/// A byte that may follow a backslash by itself: `"`, `\`, `/`, `b`, `f`, `n`, `r` or `t`.
pub open spec fn is_escape(b: u8) -> bool {
    b == 0x22 || b == 0x5C || b == 0x2F || b == 0x62 || b == 0x66 || b == 0x6E || b == 0x72 || b
        == 0x74
}

/// The position behind the quote that ends the string whose bytes after the
/// opening quote start at `i`.
pub open spec fn string_rest_end(s: Seq<u8>, i: int) -> Option<int>
    decreases s.len() - i,
{
    if !(0 <= i < s.len()) {
        None
    } else if s[i] == 0x22 {
        Some(i + 1)
    } else if s[i] == 0x5C {
        if i + 1 >= s.len() {
            None
        } else if s[i + 1] == 0x75 {
            if i + 5 < s.len() && is_hex_digit(s[i + 2]) && is_hex_digit(s[i + 3]) && is_hex_digit(
                s[i + 4],
            ) && is_hex_digit(s[i + 5]) {
                string_rest_end(s, i + 6)
            } else {
                None
            }
        } else if is_escape(s[i + 1]) {
            string_rest_end(s, i + 2)
        } else {
            None
        }
    } else if s[i] < 0x20 {
        None
    } else {
        string_rest_end(s, i + 1)
    }
}

/// Whether bytes are the UTF-8 of a text.
#[verifier::opaque]
pub open spec fn is_text(bytes: Seq<u8>) -> bool {
    valid_utf8(bytes)
}

/// The position behind the string that starts at `i`. What stands between the
/// quotes is valid UTF-8.
pub open spec fn string_end(s: Seq<u8>, i: int) -> Option<int> {
    if byte_at(s, i) == Some(0x22u8) {
        match string_rest_end(s, i + 1) {
            Some(e) => if is_text(s.subrange(i + 1, e - 1)) {
                Some(e)
            } else {
                None
            },
            None => None,
        }
    } else {
        None
    }
}

/// The position behind an optional fraction at `i`.
pub open spec fn fraction_end(s: Seq<u8>, i: int) -> Option<int> {
    if byte_at(s, i) == Some(0x2Eu8) {
        if 0 <= i + 1 < s.len() && is_digit(s[i + 1]) {
            Some(digits_end(s, i + 1))
        } else {
            None
        }
    } else {
        Some(i)
    }
}

/// The position behind an optional exponent at `i`.
pub open spec fn exponent_end(s: Seq<u8>, i: int) -> Option<int> {
    if byte_at(s, i) == Some(0x65u8) || byte_at(s, i) == Some(0x45u8) {
        let k = if byte_at(s, i + 1) == Some(0x2Bu8) || byte_at(s, i + 1) == Some(0x2Du8) {
            i + 2
        } else {
            i + 1
        };
        if 0 <= k < s.len() && is_digit(s[k]) {
            Some(digits_end(s, k))
        } else {
            None
        }
    } else {
        Some(i)
    }
}

/// The position behind the integer part at `i`: a single zero, or digits without a leading zero.
pub open spec fn integer_end(s: Seq<u8>, i: int) -> Option<int> {
    if byte_at(s, i) == Some(0x30u8) {
        Some(i + 1)
    } else if 0 <= i < s.len() && is_digit(s[i]) {
        Some(digits_end(s, i))
    } else {
        None
    }
}

/// The position behind the number that starts at `i`.
pub open spec fn number_end(s: Seq<u8>, i: int) -> Option<int> {
    let k = if byte_at(s, i) == Some(0x2Du8) {
        i + 1
    } else {
        i
    };
    match integer_end(s, k) {
        None => None,
        Some(a) => match fraction_end(s, a) {
            None => None,
            Some(b) => exponent_end(s, b),
        },
    }
}

/// Whether the bytes of `lit` stand at `i`.
pub open spec fn stands_at(s: Seq<u8>, i: int, lit: Seq<u8>) -> bool {
    0 <= i && i + lit.len() <= s.len() && s.subrange(i, i + lit.len()) == lit
}

pub open spec fn lit_true() -> Seq<u8> {
    seq![0x74u8, 0x72u8, 0x75u8, 0x65u8]
}

pub open spec fn lit_false() -> Seq<u8> {
    seq![0x66u8, 0x61u8, 0x6Cu8, 0x73u8, 0x65u8]
}

pub open spec fn lit_null() -> Seq<u8> {
    seq![0x6Eu8, 0x75u8, 0x6Cu8, 0x6Cu8]
}

/// The position behind the literal `lit` at `i`.
pub open spec fn literal_end(s: Seq<u8>, i: int, lit: Seq<u8>) -> Option<int> {
    if stands_at(s, i, lit) {
        Some(i + lit.len())
    } else {
        None
    }
}

/// The position behind the string, literal or number that starts at `i`.
pub open spec fn scalar_end(s: Seq<u8>, i: int) -> Option<int> {
    match byte_at(s, i) {
        None => None,
        Some(b) => if b == 0x22 {
            string_end(s, i)
        } else if b == 0x74 {
            literal_end(s, i, lit_true())
        } else if b == 0x66 {
            literal_end(s, i, lit_false())
        } else if b == 0x6E {
            literal_end(s, i, lit_null())
        } else if b == 0x2D || is_digit(b) {
            number_end(s, i)
        } else {
            None
        },
    }
}

/// What follows inside an object or array.
pub enum Next {
    /// The container ends; the position behind its closing byte.
    Close(int),
    /// One more member or element starts at this position.
    Item(int),
    /// Neither: the text is not JSON.
    Bad,
}

/// What follows at `i` inside a container closed by `close`; `first` when no
/// member or element has been read yet.
pub open spec fn next_item(s: Seq<u8>, i: int, first: bool, close: u8) -> Next {
    let k = ws_end(s, i);
    if !(0 <= k < s.len()) {
        Next::Bad
    } else if s[k] == close {
        Next::Close(k + 1)
    } else if first {
        Next::Item(k)
    } else if s[k] == 0x2C {
        let n = ws_end(s, k + 1);
        if 0 <= n < s.len() && s[n] != close {
            Next::Item(n)
        } else {
            Next::Bad
        }
    } else {
        Next::Bad
    }
}

/// The position behind the colon of the member whose key string ends at `e`.
pub open spec fn colon_end(s: Seq<u8>, e: int) -> Option<int> {
    if byte_at(s, ws_end(s, e)) == Some(0x3Au8) {
        Some(ws_end(s, e) + 1)
    } else {
        None
    }
}

/// The position behind the value at `i`, which stands inside `depth` containers.
pub open spec fn value_end(s: Seq<u8>, i: int, depth: int) -> Result<int, RewriteError>
    decreases s.len() - i, 0int,
{
    let k = ws_end(s, i);
    proof {
        lemma_ws_end(s, i);
    }
    if byte_at(s, k) == Some(0x7Bu8) {
        if depth + 1 > MAX_JSON_DEPTH {
            Err(RewriteError::Depth)
        } else {
            members_end(s, k + 1, depth + 1, true)
        }
    } else if byte_at(s, k) == Some(0x5Bu8) {
        if depth + 1 > MAX_JSON_DEPTH {
            Err(RewriteError::Depth)
        } else {
            elements_end(s, k + 1, depth + 1, true)
        }
    } else {
        match scalar_end(s, k) {
            Some(e) => Ok(e),
            None => Err(RewriteError::InvalidJson),
        }
    }
}

/// The position behind the object whose remaining members start at `i`.
pub open spec fn members_end(s: Seq<u8>, i: int, depth: int, first: bool) -> Result<int, RewriteError>
    decreases s.len() - i, 2int,
{
    proof {
        lemma_next_item(s, i, first, 0x7D);
    }
    match next_item(s, i, first, 0x7D) {
        Next::Bad => Err(RewriteError::InvalidJson),
        Next::Close(e) => Ok(e),
        Next::Item(q) => {
            proof {
                lemma_string_end(s, q);
            }
            match string_end(s, q) {
                None => Err(RewriteError::InvalidJson),
                Some(e) => {
                    proof {
                        lemma_ws_end(s, e);
                    }
                    match colon_end(s, e) {
                        None => Err(RewriteError::InvalidJson),
                        Some(c) => match value_end(s, c, depth) {
                            Err(err) => Err(err),
                            Ok(v) => if c < v <= s.len() {
                                members_end(s, v, depth, false)
                            } else {
                                Err(RewriteError::InvalidJson)
                            },
                        },
                    }
                },
            }
        },
    }
}

/// The position behind the array whose remaining elements start at `i`.
pub open spec fn elements_end(s: Seq<u8>, i: int, depth: int, first: bool) -> Result<int, RewriteError>
    decreases s.len() - i, 2int,
{
    proof {
        lemma_next_item(s, i, first, 0x5D);
    }
    match next_item(s, i, first, 0x5D) {
        Next::Bad => Err(RewriteError::InvalidJson),
        Next::Close(e) => Ok(e),
        Next::Item(q) => match value_end(s, q, depth) {
            Err(err) => Err(err),
            Ok(v) => if q < v <= s.len() {
                elements_end(s, v, depth, false)
            } else {
                Err(RewriteError::InvalidJson)
            },
        },
    }
}


pub proof fn lemma_ws_end(s: Seq<u8>, i: int)
    ensures
        i <= ws_end(s, i),
        i <= s.len() ==> ws_end(s, i) <= s.len(),
        0 <= i && ws_end(s, i) < s.len() ==> !is_ws(s[ws_end(s, i)]),
    decreases s.len() - i,
{
    if 0 <= i < s.len() && is_ws(s[i]) {
        lemma_ws_end(s, i + 1);
    }
}

pub proof fn lemma_digits_end(s: Seq<u8>, i: int)
    ensures
        i <= digits_end(s, i),
        i <= s.len() ==> digits_end(s, i) <= s.len(),
        0 <= i < s.len() && is_digit(s[i]) ==> i < digits_end(s, i),
    decreases s.len() - i,
{
    if 0 <= i < s.len() && is_digit(s[i]) {
        lemma_digits_end(s, i + 1);
    }
}

pub proof fn lemma_string_rest_end(s: Seq<u8>, i: int)
    ensures
        string_rest_end(s, i) matches Some(e) ==> i < e <= s.len() && s[e - 1] == 0x22,
    decreases s.len() - i,
{
    if 0 <= i < s.len() && s[i] != 0x22 {
        if s[i] == 0x5C {
            if i + 1 < s.len() {
                if s[i + 1] == 0x75 {
                    if i + 5 < s.len() {
                        lemma_string_rest_end(s, i + 6);
                    }
                } else {
                    lemma_string_rest_end(s, i + 2);
                }
            }
        } else {
            lemma_string_rest_end(s, i + 1);
        }
    }
}

pub proof fn lemma_string_end(s: Seq<u8>, i: int)
    ensures
        string_end(s, i) matches Some(e) ==> 0 <= i && i + 2 <= e <= s.len() && s[i] == 0x22
            && s[e - 1] == 0x22,
{
    lemma_string_rest_end(s, i + 1);
}

pub proof fn lemma_scalar_end(s: Seq<u8>, i: int)
    ensures
        scalar_end(s, i) matches Some(e) ==> 0 <= i < e <= s.len(),
{
    lemma_string_end(s, i);
    let k = if byte_at(s, i) == Some(0x2Du8) {
        i + 1
    } else {
        i
    };
    lemma_digits_end(s, k);
    if let Some(a) = integer_end(s, k) {
        lemma_digits_end(s, a + 1);
        if let Some(b) = fraction_end(s, a) {
            lemma_digits_end(s, b + 1);
            lemma_digits_end(s, b + 2);
        }
    }
}

pub proof fn lemma_next_item(s: Seq<u8>, i: int, first: bool, close: u8)
    ensures
        match next_item(s, i, first, close) {
            Next::Close(e) => i < e <= s.len(),
            Next::Item(q) => i <= q < s.len(),
            Next::Bad => true,
        },
{
    lemma_ws_end(s, i);
    lemma_ws_end(s, ws_end(s, i) + 1);
}

/// A value takes at least one byte and ends inside the text.
pub proof fn lemma_value_end(s: Seq<u8>, i: int, depth: int)
    ensures
        value_end(s, i, depth) matches Ok(e) ==> i < e <= s.len(),
    decreases s.len() - i, 0int,
{
    let k = ws_end(s, i);
    lemma_ws_end(s, i);
    if byte_at(s, k) == Some(0x7Bu8) {
        if depth + 1 <= MAX_JSON_DEPTH {
            lemma_members_end(s, k + 1, depth + 1, true);
        }
    } else if byte_at(s, k) == Some(0x5Bu8) {
        if depth + 1 <= MAX_JSON_DEPTH {
            lemma_elements_end(s, k + 1, depth + 1, true);
        }
    } else {
        lemma_scalar_end(s, k);
    }
}

pub proof fn lemma_members_end(s: Seq<u8>, i: int, depth: int, first: bool)
    ensures
        members_end(s, i, depth, first) matches Ok(e) ==> i < e <= s.len(),
    decreases s.len() - i, 2int,
{
    lemma_next_item(s, i, first, 0x7D);
    if let Next::Item(q) = next_item(s, i, first, 0x7D) {
        lemma_string_end(s, q);
        if let Some(e) = string_end(s, q) {
            lemma_ws_end(s, e);
            if let Some(c) = colon_end(s, e) {
                lemma_value_end(s, c, depth);
                if let Ok(v) = value_end(s, c, depth) {
                    lemma_members_end(s, v, depth, false);
                }
            }
        }
    }
}

pub proof fn lemma_elements_end(s: Seq<u8>, i: int, depth: int, first: bool)
    ensures
        elements_end(s, i, depth, first) matches Ok(e) ==> i < e <= s.len(),
    decreases s.len() - i, 2int,
{
    lemma_next_item(s, i, first, 0x5D);
    if let Next::Item(q) = next_item(s, i, first, 0x5D) {
        lemma_value_end(s, q, depth);
        if let Ok(v) = value_end(s, q, depth) {
            lemma_elements_end(s, v, depth, false);
        }
    }
}

/// The number of bytes of a leading byte order mark.
pub open spec fn bom_len(s: Seq<u8>) -> int {
    if s.len() >= 3 && s[0] == 0xEF && s[1] == 0xBB && s[2] == 0xBF {
        3
    } else {
        0
    }
}

/// Skip a leading byte order mark.
pub fn skip_bom(input: &[u8]) -> (r: usize)
    ensures
        r == bom_len(input@),
        r <= input@.len(),
{
    if input.len() >= 3 && input[0] == 0xEF && input[1] == 0xBB && input[2] == 0xBF {
        3
    } else {
        0
    }
}

/// Advance past insignificant whitespace.
pub fn skip_ws(input: &[u8], i: usize) -> (r: usize)
    requires
        i <= input@.len(),
    ensures
        r == ws_end(input@, i as int),
        i <= r <= input@.len(),
{
    let mut k: usize = i;
    while k < input.len() && (input[k] == 0x20 || input[k] == 0x09 || input[k] == 0x0A || input[k]
        == 0x0D)
        invariant
            i <= k <= input@.len(),
            ws_end(input@, i as int) == ws_end(input@, k as int),
        decreases input@.len() - k,
    {
        k = k + 1;
    }
    k
}

/// The byte at `i`, or invalid JSON past the end.
pub fn next_byte(input: &[u8], i: usize) -> (r: Result<u8, RewriteError>)
    ensures
        r == (match byte_at(input@, i as int) {
            Some(b) => Ok::<u8, RewriteError>(b),
            None => Err(RewriteError::InvalidJson),
        }),
{
    if i < input.len() {
        Ok(input[i])
    } else {
        Err(RewriteError::InvalidJson)
    }
}

/// Consume `expected` at `i`.
pub fn expect_byte(input: &[u8], i: usize, expected: u8) -> (r: Result<usize, RewriteError>)
    ensures
        match r {
            Ok(e) => byte_at(input@, i as int) == Some(expected) && e == i + 1,
            Err(err) => byte_at(input@, i as int) != Some(expected) && err
                == RewriteError::InvalidJson,
        },
{
    if i < input.len() && input[i] == expected {
        Ok(i + 1)
    } else {
        Err(RewriteError::InvalidJson)
    }
}

/// Advance past consecutive digits.
pub fn skip_digits(input: &[u8], i: usize) -> (r: usize)
    requires
        i <= input@.len(),
    ensures
        r == digits_end(input@, i as int),
        i <= r <= input@.len(),
{
    let mut k: usize = i;
    while k < input.len() && 0x30 <= input[k] && input[k] <= 0x39
        invariant
            i <= k <= input@.len(),
            digits_end(input@, i as int) == digits_end(input@, k as int),
        decreases input@.len() - k,
    {
        k = k + 1;
    }
    k
}

/// The outcome `found` as a result: nothing found is invalid JSON.
pub open spec fn or_invalid(found: Option<int>) -> Result<int, RewriteError> {
    match found {
        Some(e) => Ok(e),
        None => Err(RewriteError::InvalidJson),
    }
}

/// A scanner's position as a mathematical result.
pub open spec fn pos_of(r: Result<usize, RewriteError>) -> Result<int, RewriteError> {
    match r {
        Ok(e) => Ok(e as int),
        Err(err) => Err(err),
    }
}

/// Skip one of the literals `true`, `false` and `null`.
pub fn skip_literal(input: &[u8], i: usize, lit: &[u8]) -> (r: Result<usize, RewriteError>)
    requires
        i <= input@.len(),
    ensures
        pos_of(r) == or_invalid(literal_end(input@, i as int, lit@)),
{
    let n: usize = input.len();
    if n - i < lit.len() {
        return Err(RewriteError::InvalidJson);
    }
    let mut k: usize = 0;
    while k < lit.len()
        invariant
            n == input@.len(),
            k <= lit@.len(),
            i + lit@.len() <= input@.len(),
            forall|j: int| 0 <= j < k ==> input@[i + j] == lit@[j],
        decreases lit@.len() - k,
    {
        if input[i + k] != lit[k] {
            assert(input@.subrange(i as int, i + lit@.len())[k as int] != lit@[k as int]);
            return Err(RewriteError::InvalidJson);
        }
        k = k + 1;
    }
    assert(input@.subrange(i as int, i + lit@.len()) =~= lit@);
    Ok(i + lit.len())
}

/// Skip an optional fraction and an optional exponent.
pub fn skip_number_frac_exp(input: &[u8], i: usize) -> (r: Result<usize, RewriteError>)
    requires
        i <= input@.len(),
    ensures
        pos_of(r) == (match fraction_end(input@, i as int) {
            None => Err(RewriteError::InvalidJson),
            Some(b) => or_invalid(exponent_end(input@, b)),
        }),
{
    let mut k: usize = i;
    if k < input.len() && input[k] == 0x2E {
        if !(k + 1 < input.len() && 0x30 <= input[k + 1] && input[k + 1] <= 0x39) {
            return Err(RewriteError::InvalidJson);
        }
        k = skip_digits(input, k + 1);
    }
    if k < input.len() && (input[k] == 0x65 || input[k] == 0x45) {
        k = k + 1;
        if k < input.len() && (input[k] == 0x2B || input[k] == 0x2D) {
            k = k + 1;
        }
        if !(k < input.len() && 0x30 <= input[k] && input[k] <= 0x39) {
            return Err(RewriteError::InvalidJson);
        }
        k = skip_digits(input, k);
    }
    Ok(k)
}

/// Skip a number.
pub fn skip_number(input: &[u8], i: usize) -> (r: Result<usize, RewriteError>)
    requires
        i <= input@.len(),
    ensures
        pos_of(r) == or_invalid(number_end(input@, i as int)),
{
    let mut k: usize = i;
    if k < input.len() && input[k] == 0x2D {
        k = k + 1;
    }
    if !(k < input.len()) {
        return Err(RewriteError::InvalidJson);
    }
    if input[k] == 0x30 {
        k = k + 1;
    } else if 0x31 <= input[k] && input[k] <= 0x39 {
        k = skip_digits(input, k);
    } else {
        return Err(RewriteError::InvalidJson);
    }
    skip_number_frac_exp(input, k)
}

/// Whether `b` is a hexadecimal digit.
pub fn hex_digit(b: u8) -> (r: bool)
    ensures
        r == is_hex_digit(b),
{
    (0x30 <= b && b <= 0x39) || (0x41 <= b && b <= 0x46) || (0x61 <= b && b <= 0x66)
}

/// Whether `b` may follow a backslash by itself.
pub fn escape_byte(b: u8) -> (r: bool)
    ensures
        r == is_escape(b),
{
    b == 0x22 || b == 0x5C || b == 0x2F || b == 0x62 || b == 0x66 || b == 0x6E || b == 0x72 || b
        == 0x74
}

/// Whether `s[i..e]` holds an escape character.
pub open spec fn has_escape(s: Seq<u8>, i: int, e: int) -> bool {
    exists|k: int| i <= k < e && #[trigger] s[k] == 0x5C
}

proof fn lemma_plain_run(s: Seq<u8>, i: int, k: int)
    requires
        0 <= i <= k <= s.len(),
        forall|j: int| i <= j < k ==> !crate::string_scan::is_special(#[trigger] s[j]),
    ensures
        string_rest_end(s, i) == string_rest_end(s, k),
    decreases k - i,
{
    if i < k {
        assert(!crate::string_scan::is_special(s[i]));
        lemma_plain_run(s, i + 1, k);
    }
}

/// Skip a string; tells in addition whether it holds an escape.
pub fn skip_string_with_meta(input: &[u8], i: usize) -> (r: Result<(usize, bool), RewriteError>)
    requires
        i <= input@.len(),
    ensures
        match r {
            Ok((e, escaped)) => string_end(input@, i as int) == Some(e as int) && escaped
                == has_escape(input@, i as int, e as int),
            Err(err) => string_end(input@, i as int) is None && err == RewriteError::InvalidJson,
        },
{
    let n: usize = input.len();
    let mut k: usize = expect_byte(input, i, 0x22)?;
    let mut escaped: bool = false;
    loop
        invariant
            n == input@.len(),
            i < k <= input@.len(),
            input@[i as int] == 0x22,
            string_rest_end(input@, i + 1) == string_rest_end(input@, k as int),
            escaped == has_escape(input@, i as int, k as int),
        decreases input@.len() - k,
    {
        let (at, b) = match find_special(input, k) {
            Some(hit) => hit,
            None => {
                proof {
                    lemma_plain_run(input@, k as int, input@.len() as int);
                }
                return Err(RewriteError::InvalidJson);
            },
        };
        proof {
            lemma_plain_run(input@, k as int, at as int);
        }
        if b == 0x22 {
            assert(escaped == has_escape(input@, i as int, at + 1)) by {
                if has_escape(input@, i as int, at + 1) {
                    let w = choose|w: int| i <= w < at + 1 && #[trigger] input@[w] == 0x5C;
                    assert(w < k);
                }
            }
            proof {
                reveal(is_text);
            }
            if !is_utf8(slice_subrange(input, i + 1, at)) {
                return Err(RewriteError::InvalidJson);
            }
            return Ok((at + 1, escaped));
        }
        if b != 0x5C {
            return Err(RewriteError::InvalidJson);
        }
        if at + 1 >= input.len() {
            return Err(RewriteError::InvalidJson);
        }
        if input[at + 1] == 0x75 {
            if input.len() - at < 6 {
                return Err(RewriteError::InvalidJson);
            }
            if !(hex_digit(input[at + 2]) && hex_digit(input[at + 3]) && hex_digit(input[at + 4])
                && hex_digit(input[at + 5])) {
                return Err(RewriteError::InvalidJson);
            }
            k = at + 6;
        } else if escape_byte(input[at + 1]) {
            k = at + 2;
        } else {
            return Err(RewriteError::InvalidJson);
        }
        escaped = true;
        assert(input@[at as int] == 0x5C);
    }
}

/// Skip a string, including its escapes.
pub fn skip_string(input: &[u8], i: usize) -> (r: Result<usize, RewriteError>)
    requires
        i <= input@.len(),
    ensures
        pos_of(r) == or_invalid(string_end(input@, i as int)),
{
    match skip_string_with_meta(input, i) {
        Ok((e, _)) => Ok(e),
        Err(err) => Err(err),
    }
}

/// What follows inside a container, as positions of a byte slice.
pub enum Step {
    /// The container ends behind this position.
    Close(usize),
    /// One more member or element starts here.
    Item(usize),
}

/// Read the separator at `i` inside a container closed by `close`.
pub fn read_separator(input: &[u8], i: usize, first: bool, close: u8) -> (r: Result<
    Step,
    RewriteError,
>)
    requires
        i <= input@.len(),
    ensures
        match next_item(input@, i as int, first, close) {
            Next::Bad => r == Err::<Step, RewriteError>(RewriteError::InvalidJson),
            Next::Close(e) => r is Ok && r->Ok_0 is Close && r->Ok_0->Close_0 == e && i < e
                <= input@.len(),
            Next::Item(q) => r is Ok && r->Ok_0 is Item && r->Ok_0->Item_0 == q && i <= q
                < input@.len(),
        },
{
    let k = skip_ws(input, i);
    if k >= input.len() {
        return Err(RewriteError::InvalidJson);
    }
    if input[k] == close {
        return Ok(Step::Close(k + 1));
    }
    if first {
        return Ok(Step::Item(k));
    }
    if input[k] != 0x2C {
        return Err(RewriteError::InvalidJson);
    }
    let n = skip_ws(input, k + 1);
    if n >= input.len() || input[n] == close {
        return Err(RewriteError::InvalidJson);
    }
    Ok(Step::Item(n))
}

/// Enter one more container, unless nesting would exceed the limit.
pub fn bump_depth(depth: u32) -> (r: Result<u32, RewriteError>)
    ensures
        match r {
            Ok(d) => depth + 1 <= MAX_JSON_DEPTH && d == depth + 1,
            Err(err) => depth + 1 > MAX_JSON_DEPTH && err == RewriteError::Depth,
        },
{
    if depth >= MAX_JSON_DEPTH {
        Err(RewriteError::Depth)
    } else {
        Ok(depth + 1)
    }
}

/// Skip one JSON value without copying it.
pub fn skip_value(input: &[u8], i: usize, depth: u32) -> (r: Result<usize, RewriteError>)
    requires
        i <= input@.len(),
    ensures
        pos_of(r) == value_end(input@, i as int, depth as int),
        r matches Ok(e) ==> i < e <= input@.len(),
    decreases input@.len() - i, 0int,
{
    let k = skip_ws(input, i);
    proof {
        lemma_value_end(input@, i as int, depth as int);
    }
    if k >= input.len() {
        return Err(RewriteError::InvalidJson);
    }
    let b: u8 = input[k];
    if b == 0x7B {
        let inner: u32 = bump_depth(depth)?;
        skip_object(input, k + 1, inner)
    } else if b == 0x5B {
        let inner: u32 = bump_depth(depth)?;
        skip_array(input, k + 1, inner)
    } else if b == 0x22 {
        skip_string(input, k)
    } else if b == 0x74 {
        let lit: [u8; 4] = [0x74, 0x72, 0x75, 0x65];
        assert(lit@ =~= lit_true());
        skip_literal(input, k, &lit)
    } else if b == 0x66 {
        let lit: [u8; 5] = [0x66, 0x61, 0x6C, 0x73, 0x65];
        assert(lit@ =~= lit_false());
        skip_literal(input, k, &lit)
    } else if b == 0x6E {
        let lit: [u8; 4] = [0x6E, 0x75, 0x6C, 0x6C];
        assert(lit@ =~= lit_null());
        skip_literal(input, k, &lit)
    } else if b == 0x2D || (0x30 <= b && b <= 0x39) {
        skip_number(input, k)
    } else {
        Err(RewriteError::InvalidJson)
    }
}

/// Skip the members of an object, behind its opening brace.
pub fn skip_object(input: &[u8], i: usize, depth: u32) -> (r: Result<usize, RewriteError>)
    requires
        i <= input@.len(),
    ensures
        pos_of(r) == members_end(input@, i as int, depth as int, true),
    decreases input@.len() - i, 2int,
{
    let mut k: usize = i;
    let mut first: bool = true;
    loop
        invariant
            i <= k <= input@.len(),
            members_end(input@, i as int, depth as int, true) == members_end(
                input@,
                k as int,
                depth as int,
                first,
            ),
        decreases input@.len() - k,
    {
        match read_separator(input, k, first, 0x7D)? {
            Step::Close(e) => {
                return Ok(e);
            },
            Step::Item(q) => {
                proof {
                    lemma_string_end(input@, q as int);
                }
                let e = skip_string(input, q)?;
                let c = expect_byte(input, skip_ws(input, e), 0x3A)?;
                k = skip_value(input, c, depth)?;
                first = false;
            },
        }
    }
}

/// Skip the elements of an array, behind its opening bracket.
pub fn skip_array(input: &[u8], i: usize, depth: u32) -> (r: Result<usize, RewriteError>)
    requires
        i <= input@.len(),
    ensures
        pos_of(r) == elements_end(input@, i as int, depth as int, true),
    decreases input@.len() - i, 2int,
{
    let mut k: usize = i;
    let mut first: bool = true;
    loop
        invariant
            i <= k <= input@.len(),
            elements_end(input@, i as int, depth as int, true) == elements_end(
                input@,
                k as int,
                depth as int,
                first,
            ),
        decreases input@.len() - k,
    {
        match read_separator(input, k, first, 0x5D)? {
            Step::Close(e) => {
                return Ok(e);
            },
            Step::Item(q) => {
                k = skip_value(input, q, depth)?;
                first = false;
            },
        }
    }
}

} // verus!
