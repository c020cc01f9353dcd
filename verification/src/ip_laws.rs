//! Which texts are IP addresses.

use vstd::prelude::*;

use crate::ip::{abbreviated_at, group_count, is_group, is_hex, is_ip, is_ipv4, is_ipv6, is_octet};
use crate::number::is_dec_digit;
use crate::path_laws::law_split_undoes_join;
use crate::text::{join, lemma_split_nonempty, split};
use crate::text_laws::{law_join_undoes_split, law_split_at_separator, law_split_single};

verus! {

/// A character that an IP address can hold.
pub open spec fn is_address_char(c: char) -> bool {
    '0' <= c <= '9' || 'a' <= c <= 'f' || 'A' <= c <= 'F' || c == ':' || c == '.'
}

/// A group is one to four hexadecimal digits.
pub proof fn law_group(p: Seq<char>)
    ensures
        is_group(p) <==> 1 <= p.len() <= 4 && forall|i: int|
            0 <= i < p.len() ==> ('0' <= #[trigger] p[i] <= '9' || 'a' <= p[i] <= 'f' || 'A' <= p[i]
                <= 'F'),
{
    if is_group(p) {
        assert forall|i: int| 0 <= i < p.len() implies ('0' <= #[trigger] p[i] <= '9' || 'a' <= p[i] <= 'f'
            || 'A' <= p[i] <= 'F') by {
            assert(is_hex(p[i]));
        }
    }
}

spec fn in_piece(pieces: Seq<Seq<char>>, x: char) -> bool {
    exists|k: int| 0 <= k < pieces.len() && (#[trigger] pieces[k]).contains(x)
}

proof fn lemma_piece_chars(s: Seq<char>, c: char, i: int)
    requires
        0 <= i < s.len(),
    ensures
        s[i] == c || in_piece(split(s, c), s[i]),
    decreases s.len(),
{
    let front = s.drop_last();
    let (pieces, all) = (split(front, c), split(s, c));
    lemma_split_nonempty(front, c);
    if i < front.len() {
        lemma_piece_chars(front, c, i);
        if s[i] != c {
            let k = choose|k: int| 0 <= k < pieces.len() && (#[trigger] pieces[k]).contains(s[i]);
            let j = pieces[k].index_of(s[i]);
            assert(all[k][j] == s[i]);
        }
    } else if s[i] != c {
        let k = all.len() - 1;
        assert(all[k][all[k].len() - 1] == s[i]);
    }
}

proof fn lemma_dotted_chars(s: Seq<char>)
    requires
        is_ipv4(s),
    ensures
        forall|i: int| 0 <= i < s.len() ==> is_address_char(#[trigger] s[i]),
{
    let parts = split(s, '.');
    assert forall|i: int| 0 <= i < s.len() implies is_address_char(#[trigger] s[i]) by {
        lemma_piece_chars(s, '.', i);
        if s[i] != '.' {
            let k = choose|k: int| 0 <= k < parts.len() && (#[trigger] parts[k]).contains(s[i]);
            let j = parts[k].index_of(s[i]);
            assert(is_octet(parts[k]));
            assert(is_dec_digit(parts[k][j]));
        }
    }
}

proof fn lemma_group_chars(s: Seq<char>, tail: bool)
    requires
        group_count(s, tail) is Some,
    ensures
        forall|i: int| 0 <= i < s.len() ==> is_address_char(#[trigger] s[i]),
{
    let parts = split(s, ':');
    assert forall|i: int| 0 <= i < s.len() implies is_address_char(#[trigger] s[i]) by {
        lemma_piece_chars(s, ':', i);
        if s[i] != ':' {
            let k = choose|k: int| 0 <= k < parts.len() && (#[trigger] parts[k]).contains(s[i]);
            let j = parts[k].index_of(s[i]);
            if is_group(parts[k]) {
                assert(is_hex(parts[k][j]));
            } else {
                lemma_dotted_chars(parts[k]);
            }
        }
    }
}

/// An IP address holds hexadecimal digits, colons and dots only.
pub proof fn law_address_characters(s: Seq<char>)
    requires
        is_ip(s),
    ensures
        s.len() > 0,
        forall|i: int|
            0 <= i < s.len() ==> ('0' <= #[trigger] s[i] <= '9' || 'a' <= s[i] <= 'f' || 'A' <= s[i] <= 'F'
                || s[i] == ':' || s[i] == '.'),
{
    assert forall|i: int| 0 <= i < s.len() implies is_address_char(#[trigger] s[i]) by {
        if is_ipv4(s) {
            lemma_dotted_chars(s);
        } else if group_count(s, true) == Some(8int) {
            lemma_group_chars(s, true);
        } else {
            let k = choose|k: int| abbreviated_at(s, k);
            lemma_group_chars(s.take(k), false);
            lemma_group_chars(s.skip(k + 2), true);
            if i < k {
                assert(s.take(k)[i] == s[i]);
            } else if i >= k + 2 {
                assert(s.skip(k + 2)[i - k - 2] == s[i]);
            }
        }
    }
    if s.len() == 0 {
        assert(split(s, '.').len() == 1);
        assert(is_ipv6(s));
    }
}

proof fn lemma_groups_apart(groups: Seq<Seq<char>>)
    requires
        groups.len() > 0,
        forall|k: int| 0 <= k < groups.len() ==> is_group(#[trigger] groups[k]),
    ensures
        split(join(groups, seq![':']), ':') == groups,
        join(groups, seq![':']).len() > 0,
        !join(groups, seq![':']).contains('.'),
{
    let text = join(groups, seq![':']);
    assert forall|k: int| 0 <= k < groups.len() implies !(#[trigger] groups[k]).contains(':') by {
        if groups[k].contains(':') {
            let i = groups[k].index_of(':');
            assert(is_hex(groups[k][i]));
        }
    }
    law_split_undoes_join(groups, ':');
    if text.len() == 0 {
        law_split_single(text, ':');
        assert(split(text, ':')[0].len() == 0);
        assert(is_group(groups[0]));
    }
    if text.contains('.') {
        let i = text.index_of('.');
        lemma_piece_chars(text, ':', i);
        let k = choose|k: int| 0 <= k < groups.len() && (#[trigger] groups[k]).contains('.');
        let j = groups[k].index_of('.');
        assert(is_hex(groups[k][j]));
    }
}

proof fn lemma_no_dots(s: Seq<char>)
    requires
        !s.contains('.'),
    ensures
        !is_ipv4(s),
{
    law_split_single(s, '.');
}

proof fn lemma_double_colon(s: Seq<char>, k: int)
    requires
        0 <= k,
        k + 2 <= s.len(),
        s[k] == ':',
        s[k + 1] == ':',
    ensures
        split(s, ':') == split(s.take(k), ':') + seq![Seq::<char>::empty()] + split(s.skip(k + 2), ':'),
{
    let none = Seq::<char>::empty();
    let rest = s.skip(k + 2);
    law_split_single(none, ':');
    law_split_at_separator(none, ':', rest);
    assert(s.skip(k + 1) =~= none + seq![':'] + rest);
    law_split_at_separator(s.take(k), ':', s.skip(k + 1));
    assert(s =~= s.take(k) + seq![':'] + s.skip(k + 1));
    assert(split(s, ':') =~= split(s.take(k), ':') + seq![none] + split(rest, ':'));
}

/// Groups with single colons between them are an IP address where there are
/// eight, and in no other case.
pub proof fn law_full_address(groups: Seq<Seq<char>>)
    requires
        groups.len() > 0,
        forall|k: int| 0 <= k < groups.len() ==> is_group(#[trigger] groups[k]),
    ensures
        is_ip(join(groups, seq![':'])) <==> groups.len() == 8,
{
    let text = join(groups, seq![':']);
    lemma_groups_apart(groups);
    lemma_no_dots(text);
    assert(group_count(text, true) == Some(groups.len() as int));
    assert forall|k: int| !abbreviated_at(text, k) by {
        if abbreviated_at(text, k) {
            lemma_double_colon(text, k);
            let x = split(text.take(k), ':').len() as int;
            assert(groups[x].len() == 0);
            assert(is_group(groups[x]));
        }
    }
}

/// Groups around a double colon are an IP address where there are at most seven,
/// and in no other case.
pub proof fn law_short_address(front: Seq<Seq<char>>, back: Seq<Seq<char>>)
    requires
        front.len() > 0,
        back.len() > 0,
        forall|k: int| 0 <= k < front.len() ==> is_group(#[trigger] front[k]),
        forall|k: int| 0 <= k < back.len() ==> is_group(#[trigger] back[k]),
    ensures
        is_ip(join(front, seq![':']) + seq![':', ':'] + join(back, seq![':'])) <==> front.len() + back.len()
            <= 7,
{
    let (f, b) = (join(front, seq![':']), join(back, seq![':']));
    let text = f + seq![':', ':'] + b;
    let middle = f.len() as int;
    let none = Seq::<char>::empty();
    lemma_groups_apart(front);
    lemma_groups_apart(back);
    assert(text.take(middle) =~= f);
    assert(text.skip(middle + 2) =~= b);
    lemma_double_colon(text, middle);
    let all = front + seq![none] + back;
    assert(split(text, ':') =~= all);
    let x = front.len() as int;
    assert(all[x].len() == 0);
    assert(!is_group(all[x]));
    assert(group_count(text, true) is None);
    assert(!text.contains('.')) by {
        if text.contains('.') {
            let i = text.index_of('.');
            assert(i < middle ==> f[i] == '.');
            assert(i >= middle + 2 ==> b[i - middle - 2] == '.');
        }
    }
    lemma_no_dots(text);
    assert(group_count(f, false) == Some(front.len() as int));
    assert(group_count(b, true) == Some(back.len() as int));
    if front.len() + back.len() <= 7 {
        assert(abbreviated_at(text, middle));
    } else {
        assert forall|k: int| !abbreviated_at(text, k) by {
            if abbreviated_at(text, k) {
                lemma_double_colon(text, k);
                lemma_split_nonempty(text.take(k), ':');
                let before = split(text.take(k), ':');
                let behind = split(text.skip(k + 2), ':');
                let y = before.len() as int;
                assert(all[y].len() == 0);
                assert(y == x) by {
                    if y < x {
                        assert(is_group(front[y]));
                    } else if y > x {
                        assert(is_group(back[y - x - 1]));
                    }
                }
                assert(before =~= front);
                assert(behind =~= back);
                law_join_undoes_split(text.take(k), ':');
                law_join_undoes_split(text.skip(k + 2), ':');
                assert(text.take(k) == f);
                assert(text.skip(k + 2) == b);
            }
        }
    }
}

} // verus!
