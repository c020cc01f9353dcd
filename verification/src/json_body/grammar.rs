//! JSON values as texts of their own: what a scan of one text says about another
//! that holds the same bytes.

use vstd::prelude::*;

use crate::json_body::error::RewriteError;
use crate::json_body::scan::{byte_at, colon_end, digits_end, elements_end, exponent_end, fraction_end, integer_end, is_digit, is_ws, lemma_digits_end, lemma_elements_end, lemma_members_end, lemma_next_item, lemma_scalar_end, lemma_string_end, lemma_string_rest_end, lemma_value_end, lemma_ws_end, lit_false, lit_null, lit_true, members_end, next_item, number_end, scalar_end, stands_at, string_end, string_rest_end, value_end, ws_end, Next};
use crate::json_body::walk::comma;

verus! {

/// A byte that ends a value.
pub open spec fn is_delimiter(b: u8) -> bool {
    b == 0x2C || b == 0x5D || b == 0x7D || is_ws(b)
}

/// Whether `part` stands in `whole` at `o`.
pub open spec fn stands_in(part: Seq<u8>, whole: Seq<u8>, o: int) -> bool {
    &&& 0 <= o
    &&& part.len() + o <= whole.len()
    &&& forall|k: int| 0 <= k < part.len() ==> whole[k + o] == #[trigger] part[k]
}

/// Whether `part` stands in `whole` at `o`, and a delimiter or nothing follows.
pub open spec fn delimited(part: Seq<u8>, whole: Seq<u8>, o: int) -> bool {
    &&& stands_in(part, whole, o)
    &&& part.len() + o == whole.len() || is_delimiter(whole[part.len() + o])
}

proof fn lemma_wider_ws(part: Seq<u8>, whole: Seq<u8>, o: int, i: int)
    requires
        stands_in(part, whole, o),
        0 <= i,
        ws_end(part, i) < part.len(),
    ensures
        ws_end(whole, i + o) == ws_end(part, i) + o,
    decreases part.len() - i,
{
    assert(whole[i + o] == part[i]);
    if is_ws(part[i]) {
        lemma_wider_ws(part, whole, o, i + 1);
    }
}

proof fn lemma_wider_digits(part: Seq<u8>, whole: Seq<u8>, o: int, i: int)
    requires
        delimited(part, whole, o),
        0 <= i <= part.len(),
    ensures
        digits_end(whole, i + o) == digits_end(part, i) + o,
    decreases part.len() - i,
{
    if i < part.len() && is_digit(part[i]) {
        lemma_wider_digits(part, whole, o, i + 1);
    }
}

/// A string ends at the same place in a text that holds more.
pub proof fn lemma_wider_string_rest(part: Seq<u8>, whole: Seq<u8>, o: int, i: int)
    requires
        stands_in(part, whole, o),
        0 <= i,
        string_rest_end(part, i) is Some,
    ensures
        string_rest_end(whole, i + o) == Some(string_rest_end(part, i)->0 + o),
    decreases part.len() - i,
{
    if part[i] != 0x22 {
        if part[i] == 0x5C {
            assert(whole[i + 1 + o] == part[i + 1]);
            if part[i + 1] == 0x75 {
                assert(whole[i + 2 + o] == part[i + 2]);
                assert(whole[i + 3 + o] == part[i + 3]);
                assert(whole[i + 4 + o] == part[i + 4]);
                assert(whole[i + 5 + o] == part[i + 5]);
                lemma_wider_string_rest(part, whole, o, i + 6);
            } else {
                lemma_wider_string_rest(part, whole, o, i + 2);
            }
        } else {
            lemma_wider_string_rest(part, whole, o, i + 1);
        }
    }
}

pub proof fn lemma_wider_string(part: Seq<u8>, whole: Seq<u8>, o: int, i: int)
    requires
        stands_in(part, whole, o),
        string_end(part, i) is Some,
    ensures
        string_end(whole, i + o) == Some(string_end(part, i)->0 + o),
{
    assert(whole[i + o] == part[i]);
    lemma_wider_string_rest(part, whole, o, i + 1);
    lemma_string_rest_end(part, i + 1);
    let e = string_end(part, i)->0;
    assert(whole.subrange(i + o + 1, e + o - 1) =~= part.subrange(i + 1, e - 1)) by {
        let a = whole.subrange(i + o + 1, e + o - 1);
        let b = part.subrange(i + 1, e - 1);
        assert forall|k: int| 0 <= k < a.len() implies #[trigger] a[k] == b[k] by {
            assert(whole[i + 1 + k + o] == part[i + 1 + k]);
        }
    }
}

proof fn lemma_wider_number(part: Seq<u8>, whole: Seq<u8>, o: int, i: int)
    requires
        delimited(part, whole, o),
        0 <= i < part.len(),
        number_end(part, i) is Some,
    ensures
        number_end(whole, i + o) == Some(number_end(part, i)->0 + o),
{
    assert(whole[i + o] == part[i]);
    let k = if byte_at(part, i) == Some(0x2Du8) {
        i + 1
    } else {
        i
    };
    assert(whole[k + o] == part[k]);
    lemma_wider_digits(part, whole, o, k);
    lemma_digits_end(part, k);
    let a = integer_end(part, k)->0;
    assert(integer_end(whole, k + o) == Some(a + o));
    assert(byte_at(whole, a + o) == Some(0x2Eu8) <==> byte_at(part, a) == Some(0x2Eu8)) by {
        if a < part.len() {
            assert(whole[a + o] == part[a]);
        }
    }
    if byte_at(part, a) == Some(0x2Eu8) {
        assert(whole[a + 1 + o] == part[a + 1]);
        lemma_wider_digits(part, whole, o, a + 1);
        lemma_digits_end(part, a + 1);
    }
    let b = fraction_end(part, a)->0;
    assert(fraction_end(whole, a + o) == Some(b + o));
    if b < part.len() {
        assert(whole[b + o] == part[b]);
    }
    if byte_at(part, b) == Some(0x65u8) || byte_at(part, b) == Some(0x45u8) {
        if b + 1 < part.len() {
            assert(whole[b + 1 + o] == part[b + 1]);
        }
        let c = if byte_at(part, b + 1) == Some(0x2Bu8) || byte_at(part, b + 1) == Some(0x2Du8) {
            b + 2
        } else {
            b + 1
        };
        assert(whole[c + o] == part[c]);
        lemma_wider_digits(part, whole, o, c);
        lemma_digits_end(part, c);
    }
    assert(exponent_end(whole, b + o) == Some(exponent_end(part, b)->0 + o));
}

proof fn lemma_wider_literal(part: Seq<u8>, whole: Seq<u8>, o: int, i: int, lit: Seq<u8>)
    requires
        stands_in(part, whole, o),
        stands_at(part, i, lit),
    ensures
        stands_at(whole, i + o, lit),
{
    assert forall|k: int| 0 <= k < lit.len() implies whole.subrange(i + o, i + o + lit.len())[k]
        == lit[k] by {
        assert(part.subrange(i, i + lit.len())[k] == lit[k]);
        assert(whole[i + k + o] == part[i + k]);
    }
    assert(whole.subrange(i + o, i + o + lit.len()) =~= lit);
}

proof fn lemma_wider_scalar(part: Seq<u8>, whole: Seq<u8>, o: int, i: int)
    requires
        delimited(part, whole, o),
        scalar_end(part, i) is Some,
    ensures
        scalar_end(whole, i + o) == Some(scalar_end(part, i)->0 + o),
{
    assert(whole[i + o] == part[i]);
    let b = part[i];
    if b == 0x22 {
        lemma_wider_string(part, whole, o, i);
    } else if b == 0x74 {
        lemma_wider_literal(part, whole, o, i, lit_true());
    } else if b == 0x66 {
        lemma_wider_literal(part, whole, o, i, lit_false());
    } else if b == 0x6E {
        lemma_wider_literal(part, whole, o, i, lit_null());
    } else {
        lemma_wider_number(part, whole, o, i);
    }
}

/// What follows at `i` in `whole` when `n` follows in `part`.
pub open spec fn moved(n: Next, o: int) -> Next {
    match n {
        Next::Close(e) => Next::Close(e + o),
        Next::Item(q) => Next::Item(q + o),
        Next::Bad => Next::Bad,
    }
}

proof fn lemma_wider_next(part: Seq<u8>, whole: Seq<u8>, o: int, i: int, first: bool, close: u8)
    requires
        delimited(part, whole, o),
        0 <= i <= part.len(),
        !(next_item(part, i, first, close) is Bad),
    ensures
        next_item(whole, i + o, first, close) == moved(next_item(part, i, first, close), o),
{
    let k = ws_end(part, i);
    lemma_ws_end(part, i);
    lemma_wider_ws(part, whole, o, i);
    assert(whole[k + o] == part[k]);
    if part[k] != close && !first {
        let n = ws_end(part, k + 1);
        lemma_ws_end(part, k + 1);
        lemma_wider_ws(part, whole, o, k + 1);
        assert(whole[n + o] == part[n]);
    }
}

/// A value ends at the same place in a text that holds more, if a delimiter
/// follows it there.
pub proof fn lemma_wider_value(part: Seq<u8>, whole: Seq<u8>, o: int, i: int, depth: int)
    requires
        delimited(part, whole, o),
        0 <= i <= part.len(),
        value_end(part, i, depth) is Ok,
    ensures
        value_end(whole, i + o, depth) == Ok::<int, RewriteError>(
            value_end(part, i, depth)->Ok_0 + o,
        ),
    decreases part.len() - i, 0int,
{
    let k = ws_end(part, i);
    lemma_ws_end(part, i);
    lemma_wider_ws(part, whole, o, i);
    lemma_scalar_end(part, k);
    assert(k < part.len());
    assert(whole[k + o] == part[k]);
    if part[k] == 0x7B {
        lemma_wider_members(part, whole, o, k + 1, depth + 1, true);
    } else if part[k] == 0x5B {
        lemma_wider_elements(part, whole, o, k + 1, depth + 1, true);
    } else {
        lemma_wider_scalar(part, whole, o, k);
    }
}

pub proof fn lemma_wider_members(
    part: Seq<u8>,
    whole: Seq<u8>,
    o: int,
    i: int,
    depth: int,
    first: bool,
)
    requires
        delimited(part, whole, o),
        0 <= i <= part.len(),
        members_end(part, i, depth, first) is Ok,
    ensures
        members_end(whole, i + o, depth, first) == Ok::<int, RewriteError>(
            members_end(part, i, depth, first)->Ok_0 + o,
        ),
    decreases part.len() - i, 2int,
{
    lemma_next_item(part, i, first, 0x7D);
    lemma_wider_next(part, whole, o, i, first, 0x7D);
    if let Next::Item(q) = next_item(part, i, first, 0x7D) {
        lemma_string_end(part, q);
        lemma_wider_string(part, whole, o, q);
        let e = string_end(part, q)->0;
        let k = ws_end(part, e);
        lemma_ws_end(part, e);
        lemma_wider_ws(part, whole, o, e);
        assert(whole[k + o] == part[k]);
        let c = colon_end(part, e)->0;
        assert(colon_end(whole, e + o) == Some(c + o));
        lemma_value_end(part, c, depth);
        lemma_wider_value(part, whole, o, c, depth);
        let v = value_end(part, c, depth)->Ok_0;
        lemma_wider_members(part, whole, o, v, depth, false);
    }
}

pub proof fn lemma_wider_elements(
    part: Seq<u8>,
    whole: Seq<u8>,
    o: int,
    i: int,
    depth: int,
    first: bool,
)
    requires
        delimited(part, whole, o),
        0 <= i <= part.len(),
        elements_end(part, i, depth, first) is Ok,
    ensures
        elements_end(whole, i + o, depth, first) == Ok::<int, RewriteError>(
            elements_end(part, i, depth, first)->Ok_0 + o,
        ),
    decreases part.len() - i, 2int,
{
    lemma_next_item(part, i, first, 0x5D);
    lemma_wider_next(part, whole, o, i, first, 0x5D);
    if let Next::Item(q) = next_item(part, i, first, 0x5D) {
        lemma_value_end(part, q, depth);
        lemma_wider_value(part, whole, o, q, depth);
        let v = value_end(part, q, depth)->Ok_0;
        lemma_wider_elements(part, whole, o, v, depth, false);
    }
}

pub proof fn lemma_narrower_ws(part: Seq<u8>, whole: Seq<u8>, o: int, i: int)
    requires
        stands_in(part, whole, o),
        0 <= i <= part.len(),
        ws_end(whole, i + o) <= part.len() + o,
    ensures
        ws_end(part, i) == ws_end(whole, i + o) - o,
    decreases part.len() - i,
{
    lemma_ws_end(whole, i + o);
    if i < part.len() {
        assert(whole[i + o] == part[i]);
        if is_ws(part[i]) {
            lemma_narrower_ws(part, whole, o, i + 1);
        }
    }
}

proof fn lemma_narrower_digits(part: Seq<u8>, whole: Seq<u8>, o: int, i: int)
    requires
        stands_in(part, whole, o),
        0 <= i <= part.len(),
        digits_end(whole, i + o) <= part.len() + o,
    ensures
        digits_end(part, i) == digits_end(whole, i + o) - o,
    decreases part.len() - i,
{
    lemma_digits_end(whole, i + o);
    if i < part.len() {
        assert(whole[i + o] == part[i]);
        if is_digit(part[i]) {
            lemma_narrower_digits(part, whole, o, i + 1);
        }
    }
}

proof fn lemma_narrower_string_rest(part: Seq<u8>, whole: Seq<u8>, o: int, i: int)
    requires
        stands_in(part, whole, o),
        0 <= i,
        string_rest_end(whole, i + o) matches Some(e) && e <= part.len() + o,
    ensures
        string_rest_end(part, i) == Some(string_rest_end(whole, i + o)->0 - o),
    decreases part.len() - i,
{
    lemma_string_rest_end(whole, i + o);
    assert(whole[i + o] == part[i]);
    if part[i] != 0x22 {
        if part[i] == 0x5C {
            if whole[i + o + 1] == 0x75 {
                lemma_string_rest_end(whole, i + o + 6);
                assert(whole[i + 1 + o] == part[i + 1]);
                assert(whole[i + 2 + o] == part[i + 2]);
                assert(whole[i + 3 + o] == part[i + 3]);
                assert(whole[i + 4 + o] == part[i + 4]);
                assert(whole[i + 5 + o] == part[i + 5]);
                lemma_narrower_string_rest(part, whole, o, i + 6);
            } else {
                lemma_string_rest_end(whole, i + o + 2);
                assert(whole[i + 1 + o] == part[i + 1]);
                lemma_narrower_string_rest(part, whole, o, i + 2);
            }
        } else {
            lemma_string_rest_end(whole, i + o + 1);
            lemma_narrower_string_rest(part, whole, o, i + 1);
        }
    }
}

/// A string that a part of a text holds is one in that part too.
pub proof fn lemma_narrower_string(part: Seq<u8>, whole: Seq<u8>, o: int, i: int)
    requires
        stands_in(part, whole, o),
        0 <= i,
        string_end(whole, i + o) matches Some(e) && e <= part.len() + o,
    ensures
        string_end(part, i) == Some(string_end(whole, i + o)->0 - o),
{
    lemma_string_end(whole, i + o);
    assert(whole[i + o] == part[i]);
    lemma_narrower_string_rest(part, whole, o, i + 1);
    lemma_string_rest_end(whole, i + o + 1);
    let e = string_end(whole, i + o)->0 - o;
    assert(whole.subrange(i + o + 1, e + o - 1) =~= part.subrange(i + 1, e - 1)) by {
        let a = whole.subrange(i + o + 1, e + o - 1);
        let b = part.subrange(i + 1, e - 1);
        assert forall|k: int| 0 <= k < a.len() implies #[trigger] a[k] == b[k] by {
            assert(whole[i + 1 + k + o] == part[i + 1 + k]);
        }
    }
}

proof fn lemma_narrower_number(part: Seq<u8>, whole: Seq<u8>, o: int, i: int)
    requires
        stands_in(part, whole, o),
        0 <= i,
        number_end(whole, i + o) matches Some(e) && e <= part.len() + o,
    ensures
        number_end(part, i) == Some(number_end(whole, i + o)->0 - o),
{
    let k2 = if byte_at(whole, i + o) == Some(0x2Du8) {
        i + o + 1
    } else {
        i + o
    };
    let k = k2 - o;
    lemma_digits_end(whole, k2);
    let a2 = integer_end(whole, k2)->0;
    lemma_digits_end(whole, a2 + 1);
    let b2 = fraction_end(whole, a2)->0;
    lemma_digits_end(whole, b2 + 1);
    lemma_digits_end(whole, b2 + 2);
    let e2 = exponent_end(whole, b2)->0;
    assert(k2 < a2 <= b2 <= e2);
    let a = a2 - o;
    let b = b2 - o;
    assert(whole[i + o] == part[i]);
    assert(whole[k + o] == part[k]);
    if whole[k2] != 0x30 {
        lemma_narrower_digits(part, whole, o, k);
    }
    assert(integer_end(part, k) == Some(a));
    if a < part.len() {
        assert(whole[a + o] == part[a]);
    }
    if byte_at(whole, a2) == Some(0x2Eu8) {
        assert(a2 + 1 < b2);
        assert(whole[a + 1 + o] == part[a + 1]);
        lemma_narrower_digits(part, whole, o, a + 1);
    }
    assert(fraction_end(part, a) == Some(b));
    if b < part.len() {
        assert(whole[b + o] == part[b]);
    }
    if byte_at(whole, b2) == Some(0x65u8) || byte_at(whole, b2) == Some(0x45u8) {
        let c2 = if byte_at(whole, b2 + 1) == Some(0x2Bu8) || byte_at(whole, b2 + 1) == Some(
            0x2Du8,
        ) {
            b2 + 2
        } else {
            b2 + 1
        };
        let c = c2 - o;
        assert(c2 < e2);
        assert(whole[b + 1 + o] == part[b + 1]);
        assert(whole[c + o] == part[c]);
        lemma_narrower_digits(part, whole, o, c);
    }
}

proof fn lemma_narrower_literal(part: Seq<u8>, whole: Seq<u8>, o: int, i: int, lit: Seq<u8>)
    requires
        stands_in(part, whole, o),
        0 <= i,
        i + lit.len() <= part.len(),
        stands_at(whole, i + o, lit),
    ensures
        stands_at(part, i, lit),
{
    assert forall|k: int| 0 <= k < lit.len() implies part.subrange(i, i + lit.len())[k] == lit[k] by {
        assert(whole.subrange(i + o, i + o + lit.len())[k] == lit[k]);
        assert(whole[i + k + o] == part[i + k]);
    }
    assert(part.subrange(i, i + lit.len()) =~= lit);
}

pub proof fn lemma_narrower_scalar(part: Seq<u8>, whole: Seq<u8>, o: int, i: int)
    requires
        stands_in(part, whole, o),
        0 <= i,
        scalar_end(whole, i + o) matches Some(e) && e <= part.len() + o,
    ensures
        scalar_end(part, i) == Some(scalar_end(whole, i + o)->0 - o),
{
    lemma_scalar_end(whole, i + o);
    assert(whole[i + o] == part[i]);
    let b = part[i];
    if b == 0x22 {
        lemma_narrower_string(part, whole, o, i);
    } else if b == 0x74 {
        lemma_narrower_literal(part, whole, o, i, lit_true());
    } else if b == 0x66 {
        lemma_narrower_literal(part, whole, o, i, lit_false());
    } else if b == 0x6E {
        lemma_narrower_literal(part, whole, o, i, lit_null());
    } else {
        lemma_narrower_number(part, whole, o, i);
    }
}

pub proof fn lemma_narrower_next(
    part: Seq<u8>,
    whole: Seq<u8>,
    o: int,
    i: int,
    first: bool,
    close: u8,
)
    requires
        stands_in(part, whole, o),
        0 <= i <= part.len(),
        match next_item(whole, i + o, first, close) {
            Next::Close(e) => e <= part.len() + o,
            Next::Item(q) => q < part.len() + o,
            Next::Bad => false,
        },
    ensures
        next_item(part, i, first, close) == moved(next_item(whole, i + o, first, close), -o),
{
    let k2 = ws_end(whole, i + o);
    let k = k2 - o;
    lemma_ws_end(whole, i + o);
    lemma_ws_end(whole, k2 + 1);
    lemma_narrower_ws(part, whole, o, i);
    assert(whole[k + o] == part[k]);
    if whole[k2] != close && !first {
        let n = ws_end(whole, k2 + 1) - o;
        lemma_narrower_ws(part, whole, o, k + 1);
        assert(whole[n + o] == part[n]);
    }
}

/// A value that a part of a text holds is one in that part too.
pub proof fn lemma_narrower_value(part: Seq<u8>, whole: Seq<u8>, o: int, i: int, depth: int)
    requires
        stands_in(part, whole, o),
        0 <= i <= part.len(),
        value_end(whole, i + o, depth) matches Ok(e) && e <= part.len() + o,
    ensures
        value_end(part, i, depth) == Ok::<int, RewriteError>(
            value_end(whole, i + o, depth)->Ok_0 - o,
        ),
    decreases part.len() - i, 0int,
{
    let k2 = ws_end(whole, i + o);
    let k = k2 - o;
    lemma_ws_end(whole, i + o);
    if byte_at(whole, k2) == Some(0x7Bu8) {
        lemma_members_end(whole, k2 + 1, depth + 1, true);
        lemma_narrower_ws(part, whole, o, i);
        assert(whole[k + o] == part[k]);
        lemma_narrower_members(part, whole, o, k + 1, depth + 1, true);
    } else if byte_at(whole, k2) == Some(0x5Bu8) {
        lemma_elements_end(whole, k2 + 1, depth + 1, true);
        lemma_narrower_ws(part, whole, o, i);
        assert(whole[k + o] == part[k]);
        lemma_narrower_elements(part, whole, o, k + 1, depth + 1, true);
    } else {
        lemma_scalar_end(whole, k2);
        lemma_narrower_ws(part, whole, o, i);
        assert(whole[k + o] == part[k]);
        lemma_narrower_scalar(part, whole, o, k);
    }
}

proof fn lemma_narrower_members(
    part: Seq<u8>,
    whole: Seq<u8>,
    o: int,
    i: int,
    depth: int,
    first: bool,
)
    requires
        stands_in(part, whole, o),
        0 <= i <= part.len(),
        members_end(whole, i + o, depth, first) matches Ok(e) && e <= part.len() + o,
    ensures
        members_end(part, i, depth, first) == Ok::<int, RewriteError>(
            members_end(whole, i + o, depth, first)->Ok_0 - o,
        ),
    decreases part.len() - i, 2int,
{
    lemma_next_item(whole, i + o, first, 0x7D);
    if let Next::Item(q2) = next_item(whole, i + o, first, 0x7D) {
        lemma_string_end(whole, q2);
        let e2 = string_end(whole, q2)->0;
        lemma_ws_end(whole, e2);
        let c2 = colon_end(whole, e2)->0;
        lemma_value_end(whole, c2, depth);
        let v2 = value_end(whole, c2, depth)->Ok_0;
        lemma_members_end(whole, v2, depth, false);
        lemma_narrower_next(part, whole, o, i, first, 0x7D);
        lemma_narrower_string(part, whole, o, q2 - o);
        lemma_narrower_ws(part, whole, o, e2 - o);
        let k = ws_end(whole, e2) - o;
        assert(whole[k + o] == part[k]);
        assert(colon_end(part, e2 - o) == Some(c2 - o));
        lemma_narrower_value(part, whole, o, c2 - o, depth);
        lemma_narrower_members(part, whole, o, v2 - o, depth, false);
    } else {
        lemma_narrower_next(part, whole, o, i, first, 0x7D);
    }
}

proof fn lemma_narrower_elements(
    part: Seq<u8>,
    whole: Seq<u8>,
    o: int,
    i: int,
    depth: int,
    first: bool,
)
    requires
        stands_in(part, whole, o),
        0 <= i <= part.len(),
        elements_end(whole, i + o, depth, first) matches Ok(e) && e <= part.len() + o,
    ensures
        elements_end(part, i, depth, first) == Ok::<int, RewriteError>(
            elements_end(whole, i + o, depth, first)->Ok_0 - o,
        ),
    decreases part.len() - i, 2int,
{
    lemma_next_item(whole, i + o, first, 0x5D);
    if let Next::Item(q2) = next_item(whole, i + o, first, 0x5D) {
        lemma_value_end(whole, q2, depth);
        let v2 = value_end(whole, q2, depth)->Ok_0;
        lemma_elements_end(whole, v2, depth, false);
        lemma_narrower_next(part, whole, o, i, first, 0x5D);
        lemma_narrower_value(part, whole, o, q2 - o, depth);
        lemma_narrower_elements(part, whole, o, v2 - o, depth, false);
    } else {
        lemma_narrower_next(part, whole, o, i, first, 0x5D);
    }
}

/// A value that is read inside some containers is read the same inside fewer.
pub proof fn lemma_value_depth(s: Seq<u8>, i: int, depth: int, less: int)
    requires
        less <= depth,
        value_end(s, i, depth) is Ok,
    ensures
        value_end(s, i, less) == value_end(s, i, depth),
    decreases s.len() - i, 0int,
{
    let k = ws_end(s, i);
    lemma_ws_end(s, i);
    if byte_at(s, k) == Some(0x7Bu8) {
        lemma_members_depth(s, k + 1, depth + 1, less + 1, true);
    } else if byte_at(s, k) == Some(0x5Bu8) {
        lemma_elements_depth(s, k + 1, depth + 1, less + 1, true);
    }
}

pub proof fn lemma_members_depth(s: Seq<u8>, i: int, depth: int, less: int, first: bool)
    requires
        less <= depth,
        members_end(s, i, depth, first) is Ok,
    ensures
        members_end(s, i, less, first) == members_end(s, i, depth, first),
    decreases s.len() - i, 2int,
{
    lemma_next_item(s, i, first, 0x7D);
    if let Next::Item(q) = next_item(s, i, first, 0x7D) {
        lemma_string_end(s, q);
        let e = string_end(s, q)->0;
        lemma_ws_end(s, e);
        let c = colon_end(s, e)->0;
        lemma_value_end(s, c, depth);
        lemma_value_depth(s, c, depth, less);
        lemma_members_depth(s, value_end(s, c, depth)->Ok_0, depth, less, false);
    }
}

pub proof fn lemma_elements_depth(s: Seq<u8>, i: int, depth: int, less: int, first: bool)
    requires
        less <= depth,
        elements_end(s, i, depth, first) is Ok,
    ensures
        elements_end(s, i, less, first) == elements_end(s, i, depth, first),
    decreases s.len() - i, 2int,
{
    lemma_next_item(s, i, first, 0x5D);
    if let Next::Item(q) = next_item(s, i, first, 0x5D) {
        lemma_value_end(s, q, depth);
        lemma_value_depth(s, q, depth, less);
        lemma_elements_depth(s, value_end(s, q, depth)->Ok_0, depth, less, false);
    }
}

/// A text that is one JSON value, behind whitespace or not, however deeply
/// nested.
pub open spec fn is_value(t: Seq<u8>) -> bool {
    exists|depth: int| #[trigger] value_end(t, 0, depth) == Ok::<int, RewriteError>(t.len() as int)
}

/// A text that is one JSON string.
pub open spec fn is_string(t: Seq<u8>) -> bool {
    string_end(t, 0) == Some(t.len() as int)
}

/// A text that is one member of a JSON object.
pub open spec fn is_member(t: Seq<u8>) -> bool {
    exists|key: Seq<u8>, value: Seq<u8>|
        is_string(key) && is_value(value) && #[trigger] member(key, value) == t
}

/// The member with a key and a value.
pub open spec fn member(key: Seq<u8>, value: Seq<u8>) -> Seq<u8> {
    key + seq![0x3Au8] + value
}

/// Items of a container with commas between them, and one before them where
/// other items precede.
pub open spec fn run(items: Seq<Seq<u8>>, first: bool) -> Seq<u8>
    decreases items.len(),
{
    if items.len() == 0 {
        Seq::empty()
    } else {
        comma(!first) + items[0] + run(items.skip(1), false)
    }
}

pub proof fn lemma_run_push(items: Seq<Seq<u8>>, first: bool, item: Seq<u8>)
    ensures
        run(items.push(item), first) == run(items, first) + comma(!first || items.len() > 0) + item,
    decreases items.len(),
{
    let more = items.push(item);
    assert(more.skip(1) =~= if items.len() == 0 {
        Seq::empty()
    } else {
        items.skip(1).push(item)
    });
    if items.len() == 0 {
        assert(run(more.skip(1), false) =~= Seq::empty());
        assert(run(more, first) =~= run(items, first) + comma(!first) + item);
    } else {
        lemma_run_push(items.skip(1), false, item);
        assert(run(more, first) =~= run(items, first) + comma(true) + item);
    }
}

/// A span of a text that is read as a value is a value of its own.
pub proof fn lemma_span_is_value(s: Seq<u8>, i: int, depth: int)
    requires
        0 <= i <= s.len(),
        value_end(s, i, depth) is Ok,
    ensures
        i <= ws_end(s, i) < value_end(s, i, depth)->Ok_0 <= s.len(),
        is_value(s.subrange(ws_end(s, i), value_end(s, i, depth)->Ok_0)),
{
    let k = ws_end(s, i);
    let e = value_end(s, i, depth)->Ok_0;
    lemma_ws_end(s, i);
    lemma_ws_stays(s, i);
    lemma_value_end(s, k, depth);
    let part = s.subrange(k, e);
    lemma_narrower_value(part, s, k, 0, depth);
    assert(value_end(part, 0, depth) == Ok::<int, RewriteError>(part.len() as int));
}

/// A value is read the same behind its whitespace.
pub proof fn lemma_ws_stays(s: Seq<u8>, i: int)
    ensures
        ws_end(s, ws_end(s, i)) == ws_end(s, i),
    decreases s.len() - i,
{
    if 0 <= i < s.len() && is_ws(s[i]) {
        lemma_ws_stays(s, i + 1);
    }
}

/// A span of a text that is read as a string is a string of its own.
pub proof fn lemma_span_is_string(s: Seq<u8>, i: int)
    requires
        string_end(s, i) is Some,
    ensures
        is_string(s.subrange(i, string_end(s, i)->0)),
{
    lemma_string_end(s, i);
    let part = s.subrange(i, string_end(s, i)->0);
    lemma_narrower_string(part, s, i, 0);
}

/// A string is a value.
pub proof fn lemma_string_is_value(t: Seq<u8>)
    requires
        is_string(t),
    ensures
        is_value(t),
{
    assert(ws_end(t, 0) == 0);
    assert(value_end(t, 0, 0) == Ok::<int, RewriteError>(t.len() as int));
}

/// The first byte of a value behind its whitespace closes no container.
pub proof fn lemma_value_opens(s: Seq<u8>, i: int, depth: int)
    requires
        0 <= i <= s.len(),
        value_end(s, i, depth) is Ok,
    ensures
        ws_end(s, i) < s.len(),
        s[ws_end(s, i)] != 0x5D,
        s[ws_end(s, i)] != 0x7D,
        s[ws_end(s, i)] != 0x2C,
        value_end(s, ws_end(s, i), depth) == value_end(s, i, depth),
{
    lemma_ws_end(s, i);
    lemma_ws_stays(s, i);
    lemma_scalar_end(s, ws_end(s, i));
}

/// An element and what follows it close an array together.
proof fn lemma_element_step(value: Seq<u8>, tail: Seq<u8>, first: bool, depth: int)
    requires
        value_end(value, 0, depth) == Ok::<int, RewriteError>(value.len() as int),
        elements_end(tail, 0, depth, false) == Ok::<int, RewriteError>(tail.len() as int),
        tail.len() > 0,
        is_delimiter(tail[0]),
    ensures
        elements_end(comma(!first) + value + tail, 0, depth, first) == Ok::<int, RewriteError>(
            (comma(!first) + value + tail).len() as int,
        ),
{
    let text = comma(!first) + value + tail;
    let c = comma(!first).len() as int;
    let v = c + value.len();
    assert(text[v] == tail[0]);
    assert(delimited(value, text, c));
    lemma_wider_value(value, text, c, 0, depth);
    lemma_value_opens(text, c, depth);
    let q = ws_end(text, c);
    if !first {
        assert(text[0] == 0x2C);
        assert(ws_end(text, 0) == 0);
    }
    assert(next_item(text, 0, first, 0x5D) == Next::Item(q));
    lemma_value_end(text, q, depth);
    assert(delimited(tail, text, v));
    lemma_wider_elements(tail, text, v, 0, depth, false);
}

/// The key of a member is read up to its colon.
pub proof fn lemma_key_step(key: Seq<u8>, rest: Seq<u8>, first: bool)
    requires
        is_string(key),
    ensures
        ({
            let text = comma(!first) + key + seq![0x3Au8] + rest;
            let q = comma(!first).len() as int;
            &&& next_item(text, 0, first, 0x7D) == Next::Item(q)
            &&& string_end(text, q) == Some(q + key.len())
            &&& colon_end(text, q + key.len()) == Some(q + key.len() + 1)
        }),
{
    let text = comma(!first) + key + seq![0x3Au8] + rest;
    let q = comma(!first).len() as int;
    let e = q + key.len();
    lemma_string_end(key, 0);
    assert(stands_in(key, text, q));
    lemma_wider_string(key, text, q, 0);
    assert(text[q] == key[0]);
    assert(ws_end(text, q) == q);
    if !first {
        assert(text[0] == 0x2C);
        assert(ws_end(text, 0) == 0);
    }
    assert(text[e] == 0x3A);
    assert(ws_end(text, e) == e);
}

/// A member that is read, and members that are read behind it.
proof fn lemma_members_read(text: Seq<u8>, q: int, e: int, c: int, v: int, first: bool, depth: int)
    requires
        next_item(text, 0, first, 0x7D) == Next::Item(q),
        string_end(text, q) == Some(e),
        colon_end(text, e) == Some(c),
        value_end(text, c, depth) == Ok::<int, RewriteError>(v),
        members_end(text, v, depth, false) is Ok,
    ensures
        members_end(text, 0, depth, first) == members_end(text, v, depth, false),
{
    lemma_next_item(text, 0, first, 0x7D);
    lemma_string_end(text, q);
    lemma_ws_end(text, e);
    lemma_value_end(text, c, depth);
}

/// A value, and members behind it, are read behind any text.
pub proof fn lemma_value_and_tail(front: Seq<u8>, value: Seq<u8>, tail: Seq<u8>, depth: int)
    requires
        value_end(value, 0, depth) == Ok::<int, RewriteError>(value.len() as int),
        members_end(tail, 0, depth, false) == Ok::<int, RewriteError>(tail.len() as int),
        tail.len() > 0,
        is_delimiter(tail[0]),
    ensures
        ({
            let text = front + value + tail;
            let v = (front.len() + value.len()) as int;
            &&& value_end(text, front.len() as int, depth) == Ok::<int, RewriteError>(v)
            &&& members_end(text, v, depth, false) == Ok::<int, RewriteError>(text.len() as int)
        }),
{
    let text = front + value + tail;
    let c = front.len() as int;
    let v = c + value.len();
    assert(text[v] == tail[0]);
    assert(delimited(value, text, c));
    lemma_wider_value(value, text, c, 0, depth);
    assert(delimited(tail, text, v));
    lemma_wider_members(tail, text, v, 0, depth, false);
}

/// A member and what follows it close an object together.
proof fn lemma_member_step(key: Seq<u8>, value: Seq<u8>, tail: Seq<u8>, first: bool, depth: int)
    requires
        is_string(key),
        value_end(value, 0, depth) == Ok::<int, RewriteError>(value.len() as int),
        members_end(tail, 0, depth, false) == Ok::<int, RewriteError>(tail.len() as int),
        tail.len() > 0,
        is_delimiter(tail[0]),
    ensures
        members_end(comma(!first) + member(key, value) + tail, 0, depth, first) == Ok::<
            int,
            RewriteError,
        >((comma(!first) + member(key, value) + tail).len() as int),
{
    let text = comma(!first) + member(key, value) + tail;
    let c = (comma(!first).len() + key.len() + 1) as int;
    let v = c + value.len();
    assert(text =~= comma(!first) + key + seq![0x3Au8] + (value + tail));
    lemma_key_step(key, value + tail, first);
    let front = comma(!first) + key + seq![0x3Au8];
    assert(text =~= front + value + tail);
    lemma_value_and_tail(front, value, tail, depth);
    lemma_members_read(text, comma(!first).len() as int, c - 1, c, v, first, depth);
}

/// What closes a container starts with a delimiter.
pub proof fn lemma_run_starts(items: Seq<Seq<u8>>, close: u8)
    ensures
        run(items, false) + seq![close] != Seq::<u8>::empty(),
        (run(items, false) + seq![close])[0] == (if items.len() == 0 {
            close
        } else {
            0x2C
        }),
{
    let text = run(items, false) + seq![close];
    if items.len() > 0 {
        assert(run(items, false)[0] == 0x2C);
    }
    assert(text.len() > 0);
}

/// Whether a text closes an array, where elements precede it or not.
pub open spec fn closes_array(text: Seq<u8>, first: bool) -> bool {
    exists|depth: int| #[trigger]
        elements_end(text, 0, depth, first) == Ok::<int, RewriteError>(text.len() as int)
}

/// Whether a text closes an object, where members precede it or not.
pub open spec fn closes_object(text: Seq<u8>, first: bool) -> bool {
    exists|depth: int| #[trigger]
        members_end(text, 0, depth, first) == Ok::<int, RewriteError>(text.len() as int)
}

proof fn lemma_array_step(value: Seq<u8>, tail: Seq<u8>, first: bool)
    requires
        is_value(value),
        closes_array(tail, false),
        tail.len() > 0,
        is_delimiter(tail[0]),
    ensures
        closes_array(comma(!first) + value + tail, first),
{
    let rest = choose|depth: int| #[trigger]
        elements_end(tail, 0, depth, false) == Ok::<int, RewriteError>(tail.len() as int);
    let own = choose|depth: int| #[trigger]
        value_end(value, 0, depth) == Ok::<int, RewriteError>(value.len() as int);
    let depth = if rest <= own {
        rest
    } else {
        own
    };
    lemma_value_depth(value, 0, own, depth);
    lemma_elements_depth(tail, 0, rest, depth, false);
    lemma_element_step(value, tail, first, depth);
}

proof fn lemma_object_step(item: Seq<u8>, tail: Seq<u8>, first: bool)
    requires
        is_member(item),
        closes_object(tail, false),
        tail.len() > 0,
        is_delimiter(tail[0]),
    ensures
        closes_object(comma(!first) + item + tail, first),
{
    let (key, value) = choose|key: Seq<u8>, value: Seq<u8>|
        is_string(key) && is_value(value) && #[trigger] member(key, value) == item;
    let rest = choose|depth: int| #[trigger]
        members_end(tail, 0, depth, false) == Ok::<int, RewriteError>(tail.len() as int);
    let own = choose|depth: int| #[trigger]
        value_end(value, 0, depth) == Ok::<int, RewriteError>(value.len() as int);
    let depth = if rest <= own {
        rest
    } else {
        own
    };
    lemma_value_depth(value, 0, own, depth);
    lemma_members_depth(tail, 0, rest, depth, false);
    lemma_member_step(key, value, tail, first, depth);
}

/// Elements with commas between them close an array.
pub proof fn lemma_elements_close(items: Seq<Seq<u8>>, first: bool)
    requires
        forall|k: int| 0 <= k < items.len() ==> is_value(#[trigger] items[k]),
    ensures
        closes_array(run(items, first) + seq![0x5Du8], first),
    decreases items.len(),
{
    let text = run(items, first) + seq![0x5Du8];
    if items.len() == 0 {
        assert(text[0] == 0x5D);
        assert(ws_end(text, 0) == 0);
        assert(elements_end(text, 0, 0, first) == Ok::<int, RewriteError>(text.len() as int));
    } else {
        let rest = items.skip(1);
        let tail = run(rest, false) + seq![0x5Du8];
        assert forall|k: int| 0 <= k < rest.len() implies is_value(#[trigger] rest[k]) by {
            assert(rest[k] == items[k + 1]);
        }
        lemma_elements_close(rest, false);
        lemma_run_starts(rest, 0x5D);
        lemma_array_step(items[0], tail, first);
        assert(text =~= comma(!first) + items[0] + tail);
    }
}

/// Members with commas between them close an object.
pub proof fn lemma_members_close(items: Seq<Seq<u8>>, first: bool)
    requires
        forall|k: int| 0 <= k < items.len() ==> is_member(#[trigger] items[k]),
    ensures
        closes_object(run(items, first) + seq![0x7Du8], first),
    decreases items.len(),
{
    let text = run(items, first) + seq![0x7Du8];
    if items.len() == 0 {
        assert(text[0] == 0x7D);
        assert(ws_end(text, 0) == 0);
        assert(members_end(text, 0, 0, first) == Ok::<int, RewriteError>(text.len() as int));
    } else {
        let rest = items.skip(1);
        let tail = run(rest, false) + seq![0x7Du8];
        assert forall|k: int| 0 <= k < rest.len() implies is_member(#[trigger] rest[k]) by {
            assert(rest[k] == items[k + 1]);
        }
        lemma_members_close(rest, false);
        lemma_run_starts(rest, 0x7D);
        lemma_object_step(items[0], tail, first);
        assert(text =~= comma(!first) + items[0] + tail);
    }
}

/// An array of values is a value.
pub proof fn lemma_array_is_value(items: Seq<Seq<u8>>)
    requires
        forall|k: int| 0 <= k < items.len() ==> is_value(#[trigger] items[k]),
    ensures
        is_value(seq![0x5Bu8] + run(items, true) + seq![0x5Du8]),
{
    lemma_elements_close(items, true);
    let inner = run(items, true) + seq![0x5Du8];
    let found = choose|depth: int| #[trigger]
        elements_end(inner, 0, depth, true) == Ok::<int, RewriteError>(inner.len() as int);
    let depth = if found <= 0 {
        found
    } else {
        0
    };
    lemma_elements_depth(inner, 0, found, depth, true);
    let text = seq![0x5Bu8] + run(items, true) + seq![0x5Du8];
    assert(text =~= seq![0x5Bu8] + inner);
    lemma_wider_elements(inner, text, 1, 0, depth, true);
    assert(ws_end(text, 0) == 0);
    assert(value_end(text, 0, depth - 1) == Ok::<int, RewriteError>(text.len() as int));
}

/// An object of members is a value.
pub proof fn lemma_object_is_value(items: Seq<Seq<u8>>)
    requires
        forall|k: int| 0 <= k < items.len() ==> is_member(#[trigger] items[k]),
    ensures
        is_value(seq![0x7Bu8] + run(items, true) + seq![0x7Du8]),
{
    lemma_members_close(items, true);
    let inner = run(items, true) + seq![0x7Du8];
    let found = choose|depth: int| #[trigger]
        members_end(inner, 0, depth, true) == Ok::<int, RewriteError>(inner.len() as int);
    let depth = if found <= 0 {
        found
    } else {
        0
    };
    lemma_members_depth(inner, 0, found, depth, true);
    let text = seq![0x7Bu8] + run(items, true) + seq![0x7Du8];
    assert(text =~= seq![0x7Bu8] + inner);
    lemma_wider_members(inner, text, 1, 0, depth, true);
    assert(ws_end(text, 0) == 0);
    assert(value_end(text, 0, depth - 1) == Ok::<int, RewriteError>(text.len() as int));
}

/// A text that is one JSON value with whitespace around it or not.
pub open spec fn is_document(t: Seq<u8>) -> bool {
    exists|depth: int| (#[trigger] value_end(t, 0, depth)) matches Ok(e) && ws_end(t, e) == t.len()
}

proof fn lemma_spaces_end(t: Seq<u8>, i: int)
    requires
        0 <= i <= t.len(),
        forall|k: int| i <= k < t.len() ==> t[k] == 0x20,
    ensures
        ws_end(t, i) == t.len(),
    decreases t.len() - i,
{
    if i < t.len() {
        lemma_spaces_end(t, i + 1);
    }
}

/// A value with spaces behind it is a document.
pub proof fn lemma_padded_is_document(t: Seq<u8>, n: nat)
    requires
        is_value(t),
    ensures
        is_document(t + Seq::new(n, |i: int| 0x20u8)),
{
    let depth = choose|depth: int| #[trigger]
        value_end(t, 0, depth) == Ok::<int, RewriteError>(t.len() as int);
    let text = t + Seq::new(n, |i: int| 0x20u8);
    assert(delimited(t, text, 0));
    lemma_wider_value(t, text, 0, 0, depth);
    lemma_spaces_end(text, t.len() as int);
    assert(value_end(text, 0, depth) == Ok::<int, RewriteError>(t.len() as int));
}

} // verus!
