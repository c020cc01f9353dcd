//! Decimal and hexadecimal text.

use vstd::prelude::*;

use crate::text::to_chars;

verus! {

pub open spec fn is_dec_digit(c: char) -> bool {
    '0' <= c <= '9'
}

/// Whether `t` is made of decimal digits only.
pub open spec fn all_digits(t: Seq<char>) -> bool {
    forall|i: int| 0 <= i < t.len() ==> is_dec_digit(#[trigger] t[i])
}

/// The number that the digits `t` write in decimal.
pub open spec fn decimal_value(t: Seq<char>) -> nat
    decreases t.len(),
{
    if t.len() == 0 {
        0
    } else {
        decimal_value(t.drop_last()) * 10 + (t.last() as nat - '0' as nat) as nat
    }
}

/// The decimal digits of `n`, without leading zeros.
pub open spec fn decimal(n: nat) -> Seq<char>
    decreases n,
{
    let digit = (('0' as nat) + n % 10) as char;
    if n < 10 {
        seq![digit]
    } else {
        decimal(n / 10).push(digit)
    }
}

/// The number written by `t`: an optional plus sign, then at least one digit,
/// with a value of at most `limit`.
pub open spec fn parsed(t: Seq<char>, limit: nat) -> Option<nat> {
    let d = if t.len() > 0 && t[0] == '+' {
        t.skip(1)
    } else {
        t
    };
    if d.len() > 0 && all_digits(d) && decimal_value(d) <= limit {
        Some(decimal_value(d))
    } else {
        None
    }
}

proof fn lemma_value_take(t: Seq<char>, i: int)
    requires
        0 <= i < t.len(),
    ensures
        decimal_value(t.take(i + 1)) == decimal_value(t.take(i)) * 10 + (t[i] as nat - '0' as nat) as nat,
{
    assert(t.take(i + 1).drop_last() =~= t.take(i));
}

proof fn lemma_value_monotone(t: Seq<char>, i: int)
    requires
        0 <= i <= t.len(),
        all_digits(t),
    ensures
        decimal_value(t.take(i)) <= decimal_value(t),
    decreases t.len() - i,
{
    if i < t.len() {
        lemma_value_take(t, i);
        lemma_value_monotone(t, i + 1);
    } else {
        assert(t.take(i) =~= t);
    }
}

/// Parse the digits `chars[from..]` as a number of at most `limit`.
pub fn parse_digits(chars: &[char], from: usize, limit: u64) -> (r: Option<u64>)
    requires
        from <= chars@.len(),
    ensures
        ({
            let d = chars@.skip(from as int);
            match r {
                Some(n) => d.len() > 0 && all_digits(d) && decimal_value(d) <= limit && n
                    == decimal_value(d),
                None => !(d.len() > 0 && all_digits(d) && decimal_value(d) <= limit),
            }
        }),
{
    let n: usize = chars.len();
    if from >= n {
        return None;
    }
    let ghost d = chars@.skip(from as int);
    let mut value: u64 = 0;
    let mut i: usize = from;
    assert(d.take(0) =~= Seq::<char>::empty());
    while i < n
        invariant
            n == chars@.len(),
            from <= i <= n,
            d == chars@.skip(from as int),
            forall|k: int| 0 <= k < i - from ==> is_dec_digit(#[trigger] d[k]),
            value == decimal_value(d.take(i - from)),
            value <= limit,
        decreases n - i,
    {
        let c: char = chars[i];
        assert(c == d[i - from]);
        if !('0' <= c && c <= '9') {
            return None;
        }
        let digit: u64 = (c as u32 - '0' as u32) as u64;
        proof {
            lemma_value_take(d, i - from);
        }
        if digit > limit || value > (limit - digit) / 10 {
            proof {
                if all_digits(d) {
                    lemma_value_monotone(d, i - from + 1);
                    if digit <= limit {
                        assert(value * 10 + digit > limit);
                    }
                }
            }
            return None;
        }
        value = value * 10 + digit;
        i = i + 1;
    }
    assert(d.take(n - from) =~= d);
    Some(value)
}

/// Parse `s` as an unsigned number of at most `limit`.
pub fn parse_number(s: &str, limit: u64) -> (r: Option<u64>)
    ensures
        match r {
            Some(n) => parsed(s@, limit as nat) == Some(n as nat),
            None => parsed(s@, limit as nat) is None,
        },
{
    let chars = to_chars(s);
    if chars.len() > 0 && chars[0] == '+' {
        parse_digits(&chars, 1, limit)
    } else {
        assert(chars@.skip(0) =~= chars@);
        parse_digits(&chars, 0, limit)
    }
}

/// Append the decimal digits of `n` to `out`.
pub fn push_decimal(out: &mut String, n: u64)
    ensures
        final(out)@ == old(out)@ + decimal(n as nat),
    decreases n,
{
    let c: char = digit_char((n % 10) as u8);
    if n >= 10 {
        push_decimal(out, n / 10);
    }
    let ghost before = out@;
    out.push(c);
    proof {
        assert(out@ =~= old(out)@ + decimal(n as nat));
    }
}

/// The character of a decimal digit.
pub fn digit_char(d: u8) -> (r: char)
    requires
        d < 10,
    ensures
        r == (('0' as nat) + d as nat) as char,
{
    (0x30u8 + d) as char
}

/// The lowercase hexadecimal digit of a value below 16.
pub open spec fn digit(n: u8) -> char {
    if n < 10 {
        ('0' as u8 + n) as char
    } else {
        ('a' as u8 + (n - 10)) as char
    }
}

/// The lowercase hexadecimal digit of a value below 16.
pub fn hex_digit(n: u8) -> (r: char)
    requires
        n < 16,
    ensures
        r == digit(n),
{
    if n < 10 {
        ('0' as u8 + n) as char
    } else {
        ('a' as u8 + (n - 10)) as char
    }
}

/// The decimal text of `n`.
pub fn decimal_text(n: u64) -> (r: String)
    ensures
        r@ == decimal(n as nat),
{
    let mut out = String::new();
    push_decimal(&mut out, n);
    assert(out@ =~= decimal(n as nat));
    out
}

/// Canonical digits: at least one, and no leading zero unless it is the only digit.
pub open spec fn canonical(t: Seq<char>) -> bool {
    t.len() > 0 && all_digits(t) && (t[0] == '0' ==> t.len() == 1)
}

proof fn lemma_canonical_positive(t: Seq<char>)
    requires
        all_digits(t),
        t.len() > 0,
        t[0] != '0',
    ensures
        decimal_value(t) >= 1,
    decreases t.len(),
{
    if t.len() > 1 {
        lemma_canonical_positive(t.drop_last());
    }
}

/// Two canonical digit texts with the same value are the same text.
pub proof fn lemma_canonical_unique(a: Seq<char>, b: Seq<char>)
    requires
        canonical(a),
        canonical(b),
        decimal_value(a) == decimal_value(b),
    ensures
        a == b,
    decreases a.len(),
{
    let x = decimal_value(a.drop_last());
    let y = decimal_value(b.drop_last());
    let p = (a.last() as nat - '0' as nat) as nat;
    let q = (b.last() as nat - '0' as nat) as nat;
    assert(is_dec_digit(a.last()) && is_dec_digit(b.last()));
    assert(x * 10 + p == y * 10 + q && p < 10 && q < 10);
    assert(p == q && x == y);
    assert(a.last() == b.last());
    if a.len() > 1 {
        lemma_canonical_positive(a.drop_last());
    }
    if b.len() > 1 {
        lemma_canonical_positive(b.drop_last());
    }
    if a.len() > 1 && b.len() > 1 {
        lemma_canonical_unique(a.drop_last(), b.drop_last());
        assert(a =~= a.drop_last().push(a.last()));
        assert(b =~= b.drop_last().push(b.last()));
    } else {
        assert(a.len() == 1 && b.len() == 1) by {
            reveal_with_fuel(decimal_value, 2);
        }
        assert(a =~= b);
    }
}

/// The decimal text of a number is canonical and is read back as that number.
pub proof fn lemma_decimal_round_trip(n: nat)
    ensures
        canonical(decimal(n)),
        decimal_value(decimal(n)) == n,
    decreases n,
{
    let digit = (('0' as nat) + n % 10) as char;
    assert(is_dec_digit(digit));
    if n < 10 {
        reveal_with_fuel(decimal_value, 2);
        assert(decimal(n).drop_last() =~= Seq::<char>::empty());
        assert(decimal(n).last() == digit);
    } else {
        lemma_decimal_round_trip(n / 10);
        let d = decimal(n / 10);
        assert(decimal(n).drop_last() =~= d);
        assert(decimal(n).last() == digit);
        assert(d[0] != '0') by {
            if d[0] == '0' {
                reveal_with_fuel(decimal_value, 2);
                assert(d.len() == 1);
                assert(decimal_value(d) == 0);
            }
        }
        assert(decimal(n)[0] == d[0]);
    }
}

/// Parsing the decimal text of a number gives the number back.
pub proof fn law_parse_reads_decimal(n: nat, limit: nat)
    requires
        n <= limit,
    ensures
        parsed(decimal(n), limit) == Some(n),
{
    lemma_decimal_round_trip(n);
    assert(is_dec_digit(decimal(n)[0]));
}

} // verus!
