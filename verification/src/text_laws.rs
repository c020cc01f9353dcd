//! What holds of texts that are split, joined, trimmed and replaced.

use vstd::prelude::*;

use crate::number::{all_digits, decimal, decimal_value, is_dec_digit, lemma_decimal_round_trip, parsed};
use crate::text::{before, find_from, is_whitespace, join, lemma_find_from, lemma_split_nonempty, less, lower, replace, space_end, split, split_once, stripped, trim, trim_end, trim_space_end, upper};

verus! {

/// A text is cut at the first occurrence of a character.
pub proof fn law_cut_at_first(a: Seq<char>, c: char, b: Seq<char>)
    requires
        !a.contains(c),
    ensures
        before(a + seq![c] + b, c) == a,
        split_once(a + seq![c] + b, c) == Some((a, b)),
        before(a, c) == a,
        split_once(a, c) is None,
{
    let s = a + seq![c] + b;
    lemma_find_from(s, c, 0);
    lemma_find_from(a, c, 0);
    assert(s[a.len() as int] == c);
    if let Some(k) = find_from(s, c, 0) {
        if k < a.len() {
            assert(a[k] == c);
            assert(a.contains(c));
        }
        assert(s.take(a.len() as int) =~= a);
        assert(s.skip(a.len() as int + 1) =~= b);
    }
    if let Some(k) = find_from(a, c, 0) {
        assert(a.contains(a[k]));
    }
}

/// The pieces of a text are those of its two sides, wherever the separator
/// stands between them.
pub proof fn law_split_at_separator(a: Seq<char>, c: char, b: Seq<char>)
    ensures
        split(a + seq![c] + b, c) == split(a, c) + split(b, c),
    decreases b.len(),
{
    let s = a + seq![c] + b;
    lemma_split_nonempty(a, c);
    lemma_split_nonempty(b, c);
    if b.len() == 0 {
        assert(s.drop_last() =~= a);
        assert(split(s, c) =~= split(a, c) + split(b, c));
    } else {
        let front = b.drop_last();
        law_split_at_separator(a, c, front);
        lemma_split_nonempty(front, c);
        assert(s.drop_last() =~= a + seq![c] + front);
        assert(s.last() == b.last());
        assert(split(s, c) =~= split(a, c) + split(b, c));
    }
}

/// A text without the separator is one piece.
pub proof fn law_split_single(a: Seq<char>, c: char)
    requires
        !a.contains(c),
    ensures
        split(a, c) == seq![a],
    decreases a.len(),
{
    if a.len() > 0 {
        let front = a.drop_last();
        assert(!front.contains(c)) by {
            if front.contains(c) {
                let k = front.index_of(c);
                assert(a[k] == c);
            }
        }
        law_split_single(front, c);
        assert(a.contains(a.last()));
        assert(front.push(a.last()) =~= a);
        assert(split(a, c) =~= seq![a]);
    } else {
        assert(a =~= Seq::empty());
    }
}

/// Joining the pieces of a text gives the text back.
pub proof fn law_join_undoes_split(s: Seq<char>, c: char)
    ensures
        join(split(s, c), seq![c]) == s,
    decreases s.len(),
{
    if s.len() > 0 {
        let front = s.drop_last();
        law_join_undoes_split(front, c);
        lemma_split_nonempty(front, c);
        let pieces = split(front, c);
        let all = split(s, c);
        if s.last() == c {
            assert(all.drop_last() =~= pieces);
            assert(join(all, seq![c]) =~= s);
        } else {
            assert(all.drop_last() =~= pieces.drop_last());
            assert(all.last() == pieces.last().push(s.last()));
            assert(all.len() == pieces.len());
            assert(front.push(s.last()) =~= s);
            if pieces.len() == 1 {
                assert(all[0] == all.last());
                assert(pieces[0] == pieces.last());
            } else {
                assert(join(all, seq![c]) =~= join(pieces, seq![c]).push(s.last()));
            }
        }
    } else {
        assert(join(split(s, c), seq![c]) =~= s);
    }
}

/// Joining puts the separator between a list and one more piece.
pub proof fn law_join_push(pieces: Seq<Seq<char>>, sep: Seq<char>, last: Seq<char>)
    ensures
        join(pieces.push(last), sep) == (if pieces.len() == 0 {
            last
        } else {
            join(pieces, sep) + sep + last
        }),
{
    assert(pieces.push(last).drop_last() =~= pieces);
}

/// Trimming removes occurrences of the character from the end, all of them, and
/// nothing else.
pub proof fn law_trim_end(s: Seq<char>, c: char)
    ensures
        trim_end(s, c).is_prefix_of(s),
        forall|k: int| trim_end(s, c).len() <= k < s.len() ==> #[trigger] s[k] == c,
        trim_end(s, c).len() > 0 ==> trim_end(s, c).last() != c,
        trim_end(s.push(c), c) == trim_end(s, c),
    decreases s.len(),
{
    assert(s.push(c).drop_last() =~= s);
    if s.len() > 0 && s.last() == c {
        let front = s.drop_last();
        law_trim_end(front, c);
        let t = trim_end(s, c);
        assert(t =~= s.subrange(0, t.len() as int)) by {
            assert(t =~= front.subrange(0, t.len() as int));
        }
        assert forall|k: int| t.len() <= k < s.len() implies #[trigger] s[k] == c by {
            if k < front.len() {
                assert(front[k] == s[k]);
            }
        }
    } else {
        assert(s =~= s.subrange(0, s.len() as int));
    }
}

proof fn lemma_space_end(a: Seq<char>, s: Seq<char>, i: int)
    requires
        0 <= i <= a.len(),
        forall|k: int| 0 <= k < a.len() ==> is_whitespace(#[trigger] a[k]),
        s.len() > 0 ==> !is_whitespace(s[0]),
    ensures
        space_end(a + s, i) == a.len(),
    decreases a.len() - i,
{
    if i < a.len() {
        assert((a + s)[i] == a[i]);
        lemma_space_end(a, s, i + 1);
    } else if s.len() > 0 {
        assert((a + s)[i] == s[0]);
    }
}

proof fn lemma_trim_spaces(s: Seq<char>, b: Seq<char>)
    requires
        forall|k: int| 0 <= k < b.len() ==> is_whitespace(#[trigger] b[k]),
        s.len() > 0 ==> !is_whitespace(s.last()),
    ensures
        trim_space_end(s + b) == s,
    decreases b.len(),
{
    let all = s + b;
    if b.len() > 0 {
        assert(all.last() == b[b.len() - 1]);
        assert(all.drop_last() =~= s + b.drop_last());
        lemma_trim_spaces(s, b.drop_last());
    } else {
        assert(all =~= s);
    }
}

/// Trimming removes the whitespace around a text.
pub proof fn law_trim(a: Seq<char>, s: Seq<char>, b: Seq<char>)
    requires
        forall|k: int| 0 <= k < a.len() ==> is_whitespace(#[trigger] a[k]),
        forall|k: int| 0 <= k < b.len() ==> is_whitespace(#[trigger] b[k]),
        s.len() > 0,
        !is_whitespace(s[0]),
        !is_whitespace(s.last()),
    ensures
        trim(a + s + b) == s,
{
    let all = a + (s + b);
    assert(a + s + b =~= all);
    lemma_space_end(a, s + b, 0);
    assert(all.skip(a.len() as int) =~= s + b);
    lemma_trim_spaces(s, b);
}

/// Spaces, tabs and line ends are whitespace; letters, digits and the signs of
/// host names are not.
pub proof fn law_whitespace(c: char)
    ensures
        c == ' ' || c == '\t' || c == '\n' || c == '\r' ==> is_whitespace(c),
        'a' <= c <= 'z' || 'A' <= c <= 'Z' || '0' <= c <= '9' || c == '.' || c == '-' || c == '*' || c
            == ':' || c == '/' ==> !is_whitespace(c),
{
}

/// Letter case is folded letter by letter: `A` to `Z` become `a` to `z`, and
/// every other character stays.
pub proof fn law_lower(s: Seq<char>, k: int)
    requires
        0 <= k < s.len(),
    ensures
        lower(s).len() == s.len(),
        'A' <= s[k] <= 'Z' ==> lower(s)[k] as int == s[k] as int + 32,
        !('A' <= s[k] <= 'Z') ==> lower(s)[k] == s[k],
        'a' <= s[k] <= 'z' ==> upper(s)[k] as int == s[k] as int - 32,
        !('a' <= s[k] <= 'z') ==> upper(s)[k] == s[k],
{
}

/// A text differs from its uppercase form in letter case alone.
pub proof fn law_lower_of_upper(s: Seq<char>)
    ensures
        lower(upper(s)) == lower(s),
        lower(lower(s)) == lower(s),
{
    assert(lower(upper(s)) =~= lower(s));
    assert(lower(lower(s)) =~= lower(s));
}

/// A prefix that is there is removed, and one that is not is not found.
pub proof fn law_stripped(s: Seq<char>, prefix: Seq<char>, rest: Seq<char>)
    ensures
        stripped(prefix + rest, prefix) == Some(rest),
        stripped(s, prefix) matches Some(t) ==> s == prefix + t,
        stripped(s, prefix) is None ==> s != prefix + rest,
{
    let all = prefix + rest;
    assert(all.subrange(0, prefix.len() as int) =~= prefix);
    assert(all.skip(prefix.len() as int) =~= rest);
    if let Some(t) = stripped(s, prefix) {
        assert(s =~= prefix + t);
    }
}

/// An occurrence at the start is replaced, and what follows goes on behind it.
pub proof fn law_replace_at_start(pattern: Seq<char>, with: Seq<char>, rest: Seq<char>)
    requires
        pattern.len() > 0,
    ensures
        replace(pattern + rest, pattern, with) == with + replace(rest, pattern, with),
{
    let all = pattern + rest;
    assert(all.subrange(0, pattern.len() as int) =~= pattern);
    assert(all.skip(pattern.len() as int) =~= rest);
}

/// What stands before an occurrence stays, where no occurrence starts in it.
pub proof fn law_replace_behind(
    front: Seq<char>,
    pattern: Seq<char>,
    with: Seq<char>,
    rest: Seq<char>,
)
    requires
        pattern.len() > 0,
        forall|k: int| 0 <= k < front.len() ==> #[trigger] front[k] != pattern[0],
    ensures
        replace(front + rest, pattern, with) == front + replace(rest, pattern, with),
    decreases front.len(),
{
    let all = front + rest;
    if front.len() > 0 {
        assert(!pattern.is_prefix_of(all)) by {
            if pattern.is_prefix_of(all) {
                assert(pattern[0] == all.subrange(0, pattern.len() as int)[0]);
                assert(all[0] == front[0]);
            }
        }
        let tail = front.skip(1);
        assert forall|k: int| 0 <= k < tail.len() implies #[trigger] tail[k] != pattern[0] by {
            assert(tail[k] == front[k + 1]);
        }
        law_replace_behind(tail, pattern, with, rest);
        assert(all.skip(1) =~= tail + rest);
        assert(seq![all[0]] + (tail + replace(rest, pattern, with)) =~= front + replace(
            rest,
            pattern,
            with,
        ));
    } else {
        assert(all =~= rest);
        assert(front + replace(rest, pattern, with) =~= replace(rest, pattern, with));
    }
}

/// Texts are ordered by their first difference, and a text comes before the
/// longer ones that start with it.
pub proof fn law_order_by_first_difference(front: Seq<char>, a: Seq<char>, b: Seq<char>)
    requires
        b.len() > 0,
        a.len() > 0 ==> a[0] < b[0],
    ensures
        less(front + a, front + b),
    decreases front.len(),
{
    if front.len() > 0 {
        law_order_by_first_difference(front.skip(1), a, b);
        assert((front + a).skip(1) =~= front.skip(1) + a);
        assert((front + b).skip(1) =~= front.skip(1) + b);
        assert((front + a)[0] == (front + b)[0]);
    } else {
        assert(front + a =~= a);
        assert(front + b =~= b);
    }
}

/// A number may have a plus sign before it and leading zeros, and nothing else; one
/// over the limit is none.
pub proof fn law_parsed_numbers(n: nat, limit: nat, text: Seq<char>)
    ensures
        n <= limit ==> parsed(seq!['+'] + decimal(n), limit) == Some(n),
        n <= limit ==> parsed(seq!['0'] + decimal(n), limit) == Some(n),
        n > limit ==> parsed(decimal(n), limit) is None,
        parsed(Seq::empty(), limit) is None,
        parsed(seq!['-'] + text, limit) is None,
        parsed(seq![' '] + text, limit) is None,
        parsed(text.push(' '), limit) is None,
        parsed(seq!['+', '+'] + text, limit) is None,
{
    lemma_decimal_round_trip(n);
    let d = decimal(n);
    let plus = seq!['+'] + d;
    assert(plus.skip(1) =~= d);
    assert(is_dec_digit(d[0]));
    let zero = seq!['0'] + d;
    assert(zero[0] == '0');
    lemma_zero_before(d);
    assert(all_digits(zero)) by {
        assert forall|k: int| 0 <= k < zero.len() implies is_dec_digit(#[trigger] zero[k]) by {
            if k > 0 {
                assert(zero[k] == d[k - 1]);
            }
        }
    }
    let minus = seq!['-'] + text;
    assert(minus[0] == '-' && !is_dec_digit(minus[0]));
    let space = seq![' '] + text;
    assert(space[0] == ' ' && !is_dec_digit(space[0]));
    let behind = text.push(' ');
    assert(behind.last() == ' ');
    assert(!is_dec_digit(behind[behind.len() - 1]));
    assert(behind.len() > 1 ==> behind.skip(1)[behind.len() - 2] == ' ');
    let twice = seq!['+', '+'] + text;
    assert(twice.skip(1)[0] == '+' && !is_dec_digit(twice.skip(1)[0]));
}

proof fn lemma_zero_before(d: Seq<char>)
    ensures
        decimal_value(seq!['0'] + d) == decimal_value(d),
    decreases d.len(),
{
    let all = seq!['0'] + d;
    if d.len() > 0 {
        lemma_zero_before(d.drop_last());
        assert(all.drop_last() =~= seq!['0'] + d.drop_last());
        assert(all.last() == d.last());
    } else {
        assert(all.drop_last() =~= d);
        reveal_with_fuel(decimal_value, 2);
    }
}

} // verus!
