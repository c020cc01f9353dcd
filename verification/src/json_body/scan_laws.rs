//! Which bytes are JSON.

use vstd::prelude::*;

use crate::json_body::error::RewriteError;
use crate::json_body::scan::{bom_len, colon_end, digits_end, integer_end, is_ws, next_item, number_end, scalar_end, string_rest_end, value_end, ws_end, Next};

verus! {

/// Whether bytes are one or more digits.
pub open spec fn are_digits(d: Seq<u8>) -> bool {
    d.len() > 0 && forall|k: int| 0 <= k < d.len() ==> 0x30 <= #[trigger] d[k] <= 0x39
}

/// Whether bytes are digits without a leading zero, or a zero.
pub open spec fn are_integer(d: Seq<u8>) -> bool {
    are_digits(d) && (d.len() == 1 || d[0] != 0x30)
}

proof fn lemma_digits(front: Seq<u8>, d: Seq<u8>, rest: Seq<u8>, i: int)
    requires
        are_digits(d),
        rest.len() == 0 || !(0x30 <= rest[0] <= 0x39),
        0 <= i <= d.len(),
    ensures
        digits_end(front + d + rest, front.len() + i) == front.len() + d.len(),
    decreases d.len() - i,
{
    let all = front + d + rest;
    let k = front.len() + i;
    if i < d.len() {
        assert(all[k] == d[i]);
        lemma_digits(front, d, rest, i + 1);
    } else if rest.len() > 0 {
        assert(all[k] == rest[0]);
    }
}

/// A number is an integer without leading zeros, with a minus sign before it or
/// not, and with a fraction and an exponent behind it or not.
pub proof fn law_number(d: Seq<u8>, f: Seq<u8>, e: Seq<u8>)
    requires
        are_integer(d),
        are_digits(f),
        are_digits(e),
    ensures
        number_end(d, 0) == Some(d.len() as int),
        number_end(seq![0x2Du8] + d, 0) == Some(d.len() as int + 1),
        number_end(d + seq![0x2Eu8] + f, 0) == Some((d + seq![0x2Eu8] + f).len() as int),
        number_end(d + seq![0x65u8] + e, 0) == Some((d + seq![0x65u8] + e).len() as int),
        number_end(d + seq![0x2Eu8] + f + seq![0x45u8, 0x2Du8] + e, 0) == Some(
            (d + seq![0x2Eu8] + f + seq![0x45u8, 0x2Du8] + e).len() as int,
        ),
{
    let none = Seq::<u8>::empty();
    lemma_integer(none, d, none);
    assert(none + d + none =~= d);
    lemma_integer(seq![0x2Du8], d, none);
    assert(seq![0x2Du8] + d + none =~= seq![0x2Du8] + d);
    let fraction = seq![0x2Eu8] + f;
    lemma_integer(none, d, fraction);
    assert(none + d + fraction =~= d + seq![0x2Eu8] + f);
    lemma_digits(d + seq![0x2Eu8], f, none, 0);
    assert(d + seq![0x2Eu8] + f + none =~= d + seq![0x2Eu8] + f);
    assert((d + seq![0x2Eu8] + f)[d.len() as int + 1] == f[0]);
    let exponent = seq![0x65u8] + e;
    lemma_integer(none, d, exponent);
    assert(none + d + exponent =~= d + seq![0x65u8] + e);
    lemma_digits(d + seq![0x65u8], e, none, 0);
    assert(d + seq![0x65u8] + e + none =~= d + seq![0x65u8] + e);
    assert((d + seq![0x65u8] + e)[d.len() as int + 1] == e[0]);
    let power = seq![0x45u8, 0x2Du8] + e;
    let all = d + seq![0x2Eu8] + f + seq![0x45u8, 0x2Du8] + e;
    lemma_integer(none, d, fraction + power);
    assert(none + d + (fraction + power) =~= all);
    lemma_digits(d + seq![0x2Eu8], f, power, 0);
    assert(d + seq![0x2Eu8] + f + power =~= all);
    lemma_digits(d + seq![0x2Eu8] + f + seq![0x45u8, 0x2Du8], e, none, 0);
    assert(all + none =~= all);
    let k = (d + seq![0x2Eu8] + f).len() as int;
    assert(all[d.len() as int] == 0x2E && all[d.len() as int + 1] == f[0]);
    assert(all[k] == 0x45 && all[k + 1] == 0x2D && all[k + 2] == e[0]);
}

proof fn lemma_integer(sign: Seq<u8>, d: Seq<u8>, rest: Seq<u8>)
    requires
        are_integer(d),
        rest.len() == 0 || !(0x30 <= rest[0] <= 0x39),
    ensures
        integer_end(sign + d + rest, sign.len() as int) == Some(
            (sign.len() + d.len()) as int,
        ),
        (sign + d + rest)[sign.len() as int] == d[0],
        rest.len() > 0 ==> (sign + d + rest)[(sign.len() + d.len()) as int] == rest[0],
{
    lemma_digits(sign, d, rest, 0);
}

/// A leading zero ends an integer, and no number lacks a digit before or behind
/// its point or in its exponent.
pub proof fn law_no_number(d: Seq<u8>, rest: Seq<u8>)
    requires
        are_integer(d),
        rest.len() == 0 || !(0x30 <= rest[0] <= 0x39),
        rest.len() > 0 ==> rest[0] != 0x2B && rest[0] != 0x2D,
    ensures
        number_end(seq![0x30u8] + d, 0) == Some(1int),
        number_end(d + seq![0x2Eu8] + rest, 0) is None,
        number_end(d + seq![0x65u8] + rest, 0) is None,
        number_end(seq![0x2Du8] + rest, 0) is None,
        scalar_end(seq![0x2Bu8] + d, 0) is None,
        scalar_end(seq![0x2Eu8] + d, 0) is None,
{
    let none = Seq::<u8>::empty();
    let zero = seq![0x30u8] + d;
    assert(zero[0] == 0x30 && zero[1] == d[0]);
    assert(0x30 <= d[0] <= 0x39);
    let a = d + seq![0x2Eu8] + rest;
    lemma_integer(none, d, seq![0x2Eu8] + rest);
    assert(none + d + (seq![0x2Eu8] + rest) =~= a);
    if rest.len() > 0 {
        assert(a[d.len() as int + 1] == rest[0]);
    }
    let b = d + seq![0x65u8] + rest;
    lemma_integer(none, d, seq![0x65u8] + rest);
    assert(none + d + (seq![0x65u8] + rest) =~= b);
    if rest.len() > 0 {
        assert(b[d.len() as int + 1] == rest[0]);
    }
    let c = seq![0x2Du8] + rest;
    assert(c[0] == 0x2D);
    if rest.len() > 0 {
        assert(c[1] == rest[0]);
    }
    assert((seq![0x2Bu8] + d)[0] == 0x2B);
    assert((seq![0x2Eu8] + d)[0] == 0x2E);
}

/// The literals are `true`, `false` and `null`, and no other word.
pub proof fn law_literals(rest: Seq<u8>, word: Seq<u8>)
    ensures
        scalar_end(seq![0x74u8, 0x72u8, 0x75u8, 0x65u8] + rest, 0) == Some(4int),
        scalar_end(seq![0x66u8, 0x61u8, 0x6Cu8, 0x73u8, 0x65u8] + rest, 0) == Some(5int),
        scalar_end(seq![0x6Eu8, 0x75u8, 0x6Cu8, 0x6Cu8] + rest, 0) == Some(4int),
        word.len() > 0 && word[0] != 0x22 && word[0] != 0x74 && word[0] != 0x66 && word[0] != 0x6E && word[0]
            != 0x2D && !(0x30 <= word[0] <= 0x39) ==> scalar_end(word, 0) is None,
        word.len() >= 4 && word[0] == 0x74 && word.take(4) != seq![0x74u8, 0x72u8, 0x75u8, 0x65u8] ==> scalar_end(
            word,
            0,
        ) is None,
        word.len() == 0 ==> scalar_end(word, 0) is None,
{
    let t = seq![0x74u8, 0x72u8, 0x75u8, 0x65u8] + rest;
    let f = seq![0x66u8, 0x61u8, 0x6Cu8, 0x73u8, 0x65u8] + rest;
    let n = seq![0x6Eu8, 0x75u8, 0x6Cu8, 0x6Cu8] + rest;
    assert(t.subrange(0, 4) =~= seq![0x74u8, 0x72u8, 0x75u8, 0x65u8]);
    assert(f.subrange(0, 5) =~= seq![0x66u8, 0x61u8, 0x6Cu8, 0x73u8, 0x65u8]);
    assert(n.subrange(0, 4) =~= seq![0x6Eu8, 0x75u8, 0x6Cu8, 0x6Cu8]);
    if word.len() >= 4 {
        assert(word.subrange(0, 4) =~= word.take(4));
    }
}

/// A string ends at its first quote that no backslash stands before. It holds no
/// control characters, and a backslash stands before one of eight characters, or
/// before a `u` and four hexadecimal digits.
pub proof fn law_string(s: Seq<u8>, i: int)
    requires
        0 <= i < s.len(),
    ensures
        s[i] == 0x22 ==> string_rest_end(s, i) == Some(i + 1),
        s[i] < 0x20 ==> string_rest_end(s, i) is None,
        s[i] >= 0x20 && s[i] != 0x22 && s[i] != 0x5C ==> string_rest_end(s, i) == string_rest_end(s, i + 1),
        s[i] == 0x5C && i + 1 == s.len() ==> string_rest_end(s, i) is None,
        s[i] == 0x5C && i + 1 < s.len() ==> {
            let b = s[i + 1];
            &&& b == 0x22 || b == 0x5C || b == 0x2F || b == 0x62 || b == 0x66 || b == 0x6E || b == 0x72 || b
                == 0x74 ==> string_rest_end(s, i) == string_rest_end(s, i + 2)
            &&& b == 0x61 || b == 0x30 || b == 0x78 || b == 0x27 || b == 0x76 ==> string_rest_end(s, i) is None
            &&& b == 0x75 && i + 5 < s.len() && (0x30 <= s[i + 2] <= 0x39) && (0x61 <= s[i + 3] <= 0x66) && (
            0x41 <= s[i + 4] <= 0x46) && (0x30 <= s[i + 5] <= 0x39) ==> string_rest_end(s, i)
                == string_rest_end(s, i + 6)
            &&& b == 0x75 && i + 5 < s.len() && s[i + 5] == 0x67 ==> string_rest_end(s, i) is None
        },
        string_rest_end(s, s.len() as int) is None,
{
}

/// Whitespace is the space, the tab, the line feed and the carriage return.
pub proof fn law_whitespace(b: u8, s: Seq<u8>, i: int)
    ensures
        is_ws(b) <==> b == 0x20 || b == 0x09 || b == 0x0A || b == 0x0D,
        0 <= i < s.len() && is_ws(s[i]) ==> ws_end(s, i) == ws_end(s, i + 1),
        0 <= i < s.len() && !is_ws(s[i]) ==> ws_end(s, i) == i,
{
}

/// Members and elements are separated by one comma, with none before the first
/// and none behind the last; a colon stands behind a key.
pub proof fn law_separators(s: Seq<u8>, i: int, close: u8)
    requires
        0 <= i < s.len(),
        !is_ws(s[i]),
        close == 0x7D || close == 0x5D,
    ensures
        s[i] == close ==> next_item(s, i, true, close) == Next::Close(i + 1) && next_item(s, i, false, close)
            == Next::Close(i + 1),
        s[i] != close ==> next_item(s, i, true, close) == Next::Item(i),
        s[i] != close && s[i] != 0x2C ==> next_item(s, i, false, close) == Next::Bad,
        s[i] == 0x2C && i + 1 < s.len() && !is_ws(s[i + 1]) && s[i + 1] != close ==> next_item(
            s,
            i,
            false,
            close,
        ) == Next::Item(i + 1),
        s[i] == 0x2C && i + 1 < s.len() && s[i + 1] == close ==> next_item(s, i, false, close) == Next::Bad,
        s[i] == 0x3A ==> colon_end(s, i) == Some(i + 1),
        s[i] != 0x3A ==> colon_end(s, i) is None,
{
}

/// Containers nest up to a depth of 128, and no deeper.
pub proof fn law_depth(s: Seq<u8>, i: int, depth: int)
    requires
        0 <= i < s.len(),
        s[i] == 0x7B || s[i] == 0x5B,
    ensures
        depth >= 128 ==> value_end(s, i, depth) == Err::<int, RewriteError>(RewriteError::Depth),
        depth < 128 && i + 1 < s.len() && s[i] == 0x5B && s[i + 1] == 0x5D ==> value_end(s, i, depth) == Ok::<
            int,
            RewriteError,
        >(i + 2),
        depth < 128 && i + 1 < s.len() && s[i] == 0x7B && s[i + 1] == 0x7D ==> value_end(s, i, depth) == Ok::<
            int,
            RewriteError,
        >(i + 2),
{
    assert(ws_end(s, i) == i);
}

/// A byte order mark may stand before a document.
pub proof fn law_byte_order_mark(rest: Seq<u8>)
    ensures
        bom_len(seq![0xEFu8, 0xBBu8, 0xBFu8] + rest) == 3,
        rest.len() > 0 && rest[0] != 0xEF ==> bom_len(rest) == 0,
        bom_len(Seq::empty()) == 0,
{
    let s = seq![0xEFu8, 0xBBu8, 0xBFu8] + rest;
    assert(s[0] == 0xEF && s[1] == 0xBB && s[2] == 0xBF);
    assert(s.subrange(0, 3) =~= seq![0xEFu8, 0xBBu8, 0xBFu8]);
    assert(s.take(3) =~= seq![0xEFu8, 0xBBu8, 0xBFu8]);
}

} // verus!
