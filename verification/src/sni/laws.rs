//! What server names mean: which texts are names, which names a pattern is for,
//! and which upstream or certificate a client gets.

use vstd::prelude::*;

use crate::ip::{abbreviated_at, group_count, is_group, is_hex, is_ip, is_ipv4};
use crate::number::{canonical, decimal, decimal_value, is_dec_digit, lemma_decimal_round_trip};
use crate::path_laws::law_split_undoes_join;
use crate::sni::cert::{duplicate_path, last_default, named, second_holder, CertKeyPair, SniCertResolver};
use crate::sni::matcher::{answers, build_error, covers, distinct, is_wildcard, law_answer_unique, law_exact_wins, law_single_label, law_suffix_covers_more, looked_up, lowered, pattern_error, pattern_matches, unmatched, wins, WildcardMatch};
use crate::sni::name::{behind_star, label_error, labels_error, name_error, star_dot, SniNameError};
use crate::sni::router::{config_error, pairs, SniRouteEntry, SniRouterConfig, SniRouterError, SniRouterFilter};
use crate::text::{join, lower, split};
use crate::text_laws::{law_split_at_separator, law_split_single, law_stripped};

verus! {

/// A label is one to sixty-three letters, digits and hyphens, with no hyphen at
/// either end.
pub proof fn law_label(label: Seq<char>)
    ensures
        label_error(label) is None <==> 1 <= label.len() <= 63 && label[0] != '-' && label[label.len() - 1]
            != '-' && forall|k: int|
            0 <= k < label.len() ==> ('a' <= #[trigger] label[k] <= 'z' || 'A' <= label[k] <= 'Z' || '0'
                <= label[k] <= '9' || label[k] == '-'),
        label.len() == 0 ==> label_error(label) == Some(SniNameError::EmptyLabel),
        label.len() > 63 ==> label_error(label) == Some(SniNameError::LabelTooLong),
{
}

/// Labels are in order where each of them is.
pub proof fn law_labels(labels: Seq<Seq<char>>, i: int)
    requires
        0 <= i <= labels.len(),
    ensures
        labels_error(labels, i) is None <==> forall|k: int|
            i <= k < labels.len() ==> label_error(#[trigger] labels[k]) is None,
    decreases labels.len() - i,
{
    if i < labels.len() {
        law_labels(labels, i + 1);
    }
}

/// A name without a star is in order exactly where it is no IP address and each
/// of its labels is in order.
pub proof fn law_exact_name(name: Seq<char>)
    requires
        !name.contains('*'),
    ensures
        name_error(name) is None <==> name.len() > 0 && !is_ip(name) && forall|k: int|
            0 <= k < split(name, '.').len() ==> label_error(#[trigger] split(name, '.')[k]) is None,
        name.len() == 0 ==> name_error(name) == Some(SniNameError::Empty),
        name.len() > 0 && is_ip(name) ==> name_error(name) == Some(SniNameError::IpAddress),
{
    if star_dot().is_prefix_of(name) {
        assert(name[0] == star_dot()[0]) by {
            assert(name.subrange(0, 2)[0] == star_dot()[0]);
        }
    }
    if name == seq!['*'] {
        assert(name[0] == '*');
    }
    law_labels(split(name, '.'), 0);
}

/// A wildcard is in order where the name behind its star is; one star alone is
/// not, nor is a star anywhere else.
pub proof fn law_wildcard_name(rest: Seq<char>)
    ensures
        name_error(seq!['*']) == Some(SniNameError::BareWildcard),
        rest.contains('*') ==> name_error(seq!['*', '.'] + rest) == Some(SniNameError::InvalidWildcard),
        !rest.contains('*') && !is_ip(seq!['*', '.'] + rest) ==> (name_error(seq!['*', '.'] + rest) is None
            <==> forall|k: int|
            0 <= k < split(rest, '.').len() ==> label_error(#[trigger] split(rest, '.')[k]) is None),
{
    let p = seq!['*', '.'] + rest;
    law_stripped(p, star_dot(), rest);
    law_labels(split(rest, '.'), 0);
    assert(p.len() >= 2);
    assert(p != seq!['*']);
}

/// Where a wildcard stands for one label, at least two labels follow it.
pub proof fn law_wildcard_depth(a: Seq<char>, b: Seq<char>)
    requires
        !a.contains('.'),
    ensures
        name_error(seq!['*', '.'] + a) is None ==> pattern_error(
            seq!['*', '.'] + a,
            WildcardMatch::SingleLabel,
        ) == Some(SniNameError::WildcardTooShallow),
        pattern_error(seq!['*', '.'] + a, WildcardMatch::Suffix) == name_error(seq!['*', '.'] + a),
        pattern_error(seq!['*', '.'] + a + seq!['.'] + b, WildcardMatch::SingleLabel) == name_error(
            seq!['*', '.'] + a + seq!['.'] + b,
        ),
{
    let star = seq!['*'];
    let p = seq!['*', '.'] + a;
    let q = p + seq!['.'] + b;
    assert(p =~= star + seq!['.'] + a);
    assert(star.len() == 1);
    assert(!star.contains('.'));
    law_split_single(star, '.');
    law_split_single(a, '.');
    law_split_at_separator(star, '.', a);
    law_split_at_separator(p, '.', b);
    assert(split(p, '.') =~= seq![star, a]);
    assert(p.subrange(0, 2) =~= star_dot());
    assert(split(b, '.').len() > 0);
}

/// A pattern without a star is for that name alone; `*.` and a suffix are for
/// names that end so, behind one label or behind any text.
pub proof fn law_pattern_is_for(
    name: Seq<char>,
    other: Seq<char>,
    label: Seq<char>,
    front: Seq<char>,
    suffix: Seq<char>,
    policy: WildcardMatch,
)
    requires
        name.len() == 0 || name[0] != '*',
        label.len() > 0,
        !label.contains('.'),
        front.len() > 0,
    ensures
        pattern_matches(name, policy, other) <==> other == name,
        pattern_matches(seq!['*', '.'] + suffix, policy, label + seq!['.'] + suffix),
        pattern_matches(
            seq!['*', '.'] + suffix,
            WildcardMatch::Suffix,
            front + seq!['.'] + suffix,
        ),
        !pattern_matches(seq!['*', '.'] + suffix, WildcardMatch::Suffix, suffix),
        !pattern_matches(seq!['*', '.'] + suffix, WildcardMatch::Suffix, seq!['.'] + suffix),
        front.contains('.') && suffix.len() > 0 && !suffix.contains('.') ==> !pattern_matches(
            seq!['*', '.'] + suffix,
            WildcardMatch::SingleLabel,
            front + seq!['.'] + suffix,
        ),
{
    if is_wildcard(name) {
        assert(name.subrange(0, 2)[0] == star_dot()[0]);
    }
    let p = seq!['*', '.'] + suffix;
    let whole = front + seq!['.'] + suffix;
    assert(p.subrange(0, 2) =~= star_dot());
    law_stripped(p, star_dot(), suffix);
    assert(is_wildcard(p) && behind_star(p) == suffix);
    law_single_label(suffix, label + seq!['.'] + suffix);
    law_suffix_covers_more(suffix, label + seq!['.'] + suffix);
    let dotted = seq!['.'] + suffix;
    assert(whole.subrange(whole.len() - dotted.len(), whole.len() as int) =~= dotted);
    if front.contains('.') && covers(suffix, WildcardMatch::SingleLabel, whole) {
        law_single_label(suffix, whole);
        let one = choose|one: Seq<char>|
            #![trigger one + seq!['.']]
            one.len() > 0 && !one.contains('.') && whole == one + seq!['.'] + suffix;
        assert(one.len() == front.len());
        assert(one =~= whole.take(one.len() as int));
        assert(front =~= whole.take(front.len() as int));
    }
}

/// The name that is looked up is the client's in lowercase, without one dot at its
/// end.
pub proof fn law_looked_up(name: Seq<char>)
    ensures
        name.len() == 0 || name.last() != '.' ==> looked_up(name) == lower(name),
        looked_up(name.push('.')) == lower(name),
{
    assert(name.push('.').drop_last() =~= name);
}

/// Of two wildcards that are both for a name, the answer is the one with the
/// longer suffix.
pub proof fn law_longer_wildcard_wins<V>(
    entries: Seq<(Seq<char>, V)>,
    policy: WildcardMatch,
    name: Seq<char>,
    i: int,
    j: int,
)
    requires
        answers(entries, policy, name, i),
        0 <= j < entries.len(),
        pattern_matches(entries[j].0, policy, name),
    ensures
        is_wildcard(entries[i].0) ==> is_wildcard(entries[j].0) && entries[j].0.len()
            <= entries[i].0.len(),
        entries[j].0 == name && !is_wildcard(name) ==> entries[i].0 == name,
{
    assert(wins(entries[i].0, entries[j].0));
}

/// The server names of a table are those of its routes, each with the upstream
/// of its route.
pub proof fn law_listed_names(routes: Seq<SniRouteEntry>, n: int, i: int, k: int)
    requires
        0 <= i < n <= routes.len(),
        0 <= k < routes[i].server_names@.len(),
    ensures
        pairs(routes, n).contains((routes[i].server_names@[k], routes[i].upstream)),
        lowered(pairs(routes, n)).contains((lower(routes[i].server_names@[k]@), routes[i].upstream)),
    decreases n,
{
    let pair = (routes[i].server_names@[k], routes[i].upstream);
    let front = pairs(routes, n - 1);
    let all = pairs(routes, n);
    if i < n - 1 {
        law_listed_names(routes, n - 1, i, k);
        let at = front.index_of(pair);
        assert(all[at] == pair);
    } else {
        assert(all[front.len() + k] == pair);
    }
    let at = all.index_of(pair);
    assert(lowered(all)[at] == (lower(pair.0@), pair.1));
}

/// A table holds nothing but the server names of its routes.
pub proof fn law_only_listed_names(routes: Seq<SniRouteEntry>, n: int, at: int)
    requires
        0 <= n <= routes.len(),
        0 <= at < pairs(routes, n).len(),
    ensures
        exists|i: int, k: int|
            0 <= i < n && 0 <= k < routes[i].server_names@.len() && pairs(routes, n)[at] == (
                (#[trigger] routes[i].server_names@[k]),
                routes[i].upstream,
            ),
    decreases n,
{
    if n > 0 {
        let front = pairs(routes, n - 1);
        if at < front.len() {
            law_only_listed_names(routes, n - 1, at);
        } else {
            let k = at - front.len();
            assert(pairs(routes, n)[at] == (routes[n - 1].server_names@[k], routes[n - 1].upstream));
        }
    }
}

/// A connection to a configured name goes to the upstream of the route that has
/// the name, in whatever letter case it is written.
pub proof fn law_connection_goes_to_its_route(
    filter: SniRouterFilter,
    routes: Seq<SniRouteEntry>,
    i: int,
    k: int,
    sni: Seq<char>,
    upstream: Option<String>,
)
    requires
        filter.entries() == lowered(pairs(routes, routes.len() as int)),
        distinct(filter.entries()),
        0 <= i < routes.len(),
        0 <= k < routes[i].server_names@.len(),
        looked_up(sni) == lower(routes[i].server_names@[k]@),
        !is_wildcard(looked_up(sni)),
        filter.serves(Some(sni), upstream),
    ensures
        upstream == Some(routes[i].upstream),
{
    let entries = filter.entries();
    let name = looked_up(sni);
    law_listed_names(routes, routes.len() as int, i, k);
    let at = entries.index_of((name, routes[i].upstream));
    law_exact_wins(entries, WildcardMatch::Suffix, name, at);
    let found = choose|found: Option<String>|
        {
            &&& #[trigger] filter.finds(Some(sni), found)
            &&& upstream == match found {
                Some(_) => found,
                None => filter.fallback(),
            }
        };
    match found {
        Some(v) => {
            let b = choose|b: int| #[trigger]
                answers(entries, WildcardMatch::Suffix, name, b) && v == entries[b].1;
            law_answer_unique(entries, WildcardMatch::Suffix, name, at, b);
        },
        None => {
            assert(pattern_matches(entries[at].0, WildcardMatch::Suffix, name));
        },
    }
}

/// A connection that no server name is for, and one that sends none, goes to the
/// default upstream.
pub proof fn law_other_connections(filter: SniRouterFilter, sni: Seq<char>, upstream: Option<String>)
    requires
        unmatched(filter.entries(), WildcardMatch::Suffix, looked_up(sni)),
    ensures
        filter.serves(Some(sni), upstream) ==> upstream == filter.fallback(),
        filter.serves(None, upstream) ==> upstream == filter.fallback(),
{
    if filter.serves(Some(sni), upstream) {
        let found = choose|found: Option<String>|
            {
                &&& #[trigger] filter.finds(Some(sni), found)
                &&& upstream == match found {
                    Some(_) => found,
                    None => filter.fallback(),
                }
            };
        if let Some(v) = found {
            let b = choose|b: int| #[trigger]
                answers(filter.entries(), WildcardMatch::Suffix, looked_up(sni), b) && v
                    == filter.entries()[b].1;
            assert(pattern_matches(filter.entries()[b].0, WildcardMatch::Suffix, looked_up(sni)));
        }
    }
}

/// A table needs a route or a default upstream, and a name for each route.
pub proof fn law_table_needs_names(cfg: SniRouterConfig, i: int)
    ensures
        cfg.routes@.len() == 0 && cfg.default_upstream is None ==> config_error(cfg) == Some(
            SniRouterError::NothingToRoute,
        ),
        cfg.routes@.len() == 0 && cfg.default_upstream is Some ==> config_error(cfg) is None,
        0 <= i < cfg.routes@.len() && cfg.routes@[i].server_names@.len() == 0 ==> config_error(cfg) == Some(
            SniRouterError::NoServerNames,
        ),
{
}

/// Patterns are accepted exactly where each is in order and no two are alike but
/// for letter case.
pub proof fn law_patterns_accepted<V>(entries: Seq<(String, V)>, policy: WildcardMatch, i: int)
    requires
        0 <= i <= entries.len(),
    ensures
        build_error(entries, policy, i) is None <==> (forall|k: int|
            i <= k < entries.len() ==> pattern_error((#[trigger] entries[k]).0@, policy) is None) && (forall|
            a: int,
            b: int,
        |
            0 <= a < b && i <= b < entries.len() ==> lower((#[trigger] entries[a]).0@) != lower(
                (#[trigger] entries[b]).0@,
            )),
    decreases entries.len() - i,
{
    if i < entries.len() {
        law_patterns_accepted(entries, policy, i + 1);
        if build_error(entries, policy, i) is None {
            assert forall|a: int, b: int| 0 <= a < b && i <= b < entries.len() implies lower(
                (#[trigger] entries[a]).0@,
            ) != lower((#[trigger] entries[b]).0@) by {
                if b == i {
                    assert(!(exists|j: int|
                        0 <= j < i && lower((#[trigger] entries[j]).0@) == lower(entries[i].0@)));
                }
            }
        }
    }
}

/// The server names of certificates are listed with the index of the certificate
/// that has them.
pub proof fn law_certificate_names(certs: Seq<CertKeyPair>, n: int, i: int, k: int)
    requires
        0 <= i < n <= certs.len(),
        n <= usize::MAX,
        0 <= k < certs[i].server_names@.len(),
    ensures
        named(certs, n).contains((certs[i].server_names@[k], i as usize)),
    decreases n,
{
    let pair = (certs[i].server_names@[k], i as usize);
    let front = named(certs, n - 1);
    let all = named(certs, n);
    if i < n - 1 {
        law_certificate_names(certs, n - 1, i, k);
        let at = front.index_of(pair);
        assert(all[at] == pair);
    } else {
        assert(all[front.len() + k] == pair);
    }
}

/// The default certificate is the last one that is marked so.
pub proof fn law_default_certificate(certs: Seq<CertKeyPair>, n: int, i: int)
    requires
        0 <= n <= certs.len(),
        n <= usize::MAX,
    ensures
        0 <= i < n && certs[i].default && (forall|j: int| i < j < n ==> !(#[trigger] certs[j]).default)
            ==> last_default(certs, n) == Some(i as usize),
        (forall|j: int| 0 <= j < n ==> !(#[trigger] certs[j]).default) ==> last_default(certs, n) is None,
    decreases n,
{
    if n > 0 {
        law_default_certificate(certs, n - 1, i);
    }
}

/// The second entry of a name is the one that repeats it.
pub proof fn law_repeated_name(entries: Seq<(String, usize)>, target: Seq<char>, i: int, a: int, b: int)
    requires
        0 <= i <= a < b < entries.len(),
        lower(entries[a].0@) == lower(target),
        lower(entries[b].0@) == lower(target),
        forall|k: int| i <= k < b && k != a ==> lower((#[trigger] entries[k]).0@) != lower(target),
    ensures
        second_holder(entries, target, i, false) == Some(entries[b].1),
    decreases a - i,
{
    if i < a {
        law_repeated_name(entries, target, i + 1, a, b);
    } else {
        lemma_next_holder(entries, target, a + 1, b);
    }
}

proof fn lemma_next_holder(entries: Seq<(String, usize)>, target: Seq<char>, i: int, b: int)
    requires
        0 <= i <= b < entries.len(),
        lower(entries[b].0@) == lower(target),
        forall|k: int| i <= k < b ==> lower((#[trigger] entries[k]).0@) != lower(target),
    ensures
        second_holder(entries, target, i, true) == Some(entries[b].1),
    decreases b - i,
{
    if i < b {
        lemma_next_holder(entries, target, i + 1, b);
    }
}

/// A client that asks for a configured name gets the key of the certificate that
/// has it; one that no name is for gets the default.
pub proof fn law_certificate_for_name<C>(
    resolver: SniCertResolver<C>,
    certs: Seq<CertKeyPair>,
    i: int,
    k: int,
    sni: Seq<char>,
    key: Option<C>,
)
    requires
        certs.len() <= usize::MAX,
        resolver.entries() == lowered(named(certs, certs.len() as int)),
        distinct(resolver.entries()),
        0 <= i < certs.len(),
        0 <= k < certs[i].server_names@.len(),
        looked_up(sni) == lower(certs[i].server_names@[k]@),
        !is_wildcard(looked_up(sni)),
        resolver.selects(Some(sni), key),
    ensures
        key == Some(resolver.keys()[i]),
{
    let entries = resolver.entries();
    let name = looked_up(sni);
    let list = named(certs, certs.len() as int);
    law_certificate_names(certs, certs.len() as int, i, k);
    let at = list.index_of((certs[i].server_names@[k], i as usize));
    assert(entries[at] == (name, i as usize));
    law_exact_wins(entries, WildcardMatch::SingleLabel, name, at);
    let found = choose|found: Option<usize>|
        {
            &&& #[trigger] resolver.finds(Some(sni), found)
            &&& key == match found {
                Some(k) => Some(resolver.keys()[k as int]),
                None => resolver.fallback_key(),
            }
        };
    match found {
        Some(v) => {
            let b = choose|b: int| #[trigger]
                answers(entries, WildcardMatch::SingleLabel, name, b) && v == entries[b].1;
            law_answer_unique(entries, WildcardMatch::SingleLabel, name, at, b);
        },
        None => {
            assert(pattern_matches(entries[at].0, WildcardMatch::SingleLabel, name));
        },
    }
}

/// Four numbers up to 255 with dots between them are an IP address; with a
/// larger one they are no IPv4 address.
pub proof fn law_dotted_address(a: nat, b: nat, c: nat, d: nat)
    ensures
        is_ipv4(decimal(a) + seq!['.'] + decimal(b) + seq!['.'] + decimal(c) + seq!['.'] + decimal(d))
            <==> a <= 255 && b <= 255 && c <= 255 && d <= 255,
{
    let (w, x, y, z) = (decimal(a), decimal(b), decimal(c), decimal(d));
    lemma_no_dot(a);
    lemma_no_dot(b);
    lemma_no_dot(c);
    lemma_no_dot(d);
    law_split_single(w, '.');
    law_split_single(x, '.');
    law_split_single(y, '.');
    law_split_single(z, '.');
    law_split_at_separator(w, '.', x);
    law_split_at_separator(w + seq!['.'] + x, '.', y);
    law_split_at_separator(w + seq!['.'] + x + seq!['.'] + y, '.', z);
    let all = w + seq!['.'] + x + seq!['.'] + y + seq!['.'] + z;
    let parts = split(all, '.');
    assert(parts =~= seq![w, x, y, z]);
    assert(parts[0] == w && parts[1] == x && parts[2] == y && parts[3] == z);
}

proof fn lemma_no_dot(n: nat)
    ensures
        !decimal(n).contains('.'),
        canonical(decimal(n)),
        decimal_value(decimal(n)) == n,
{
    lemma_decimal_round_trip(n);
    let t = decimal(n);
    if t.contains('.') {
        let k = t.index_of('.');
        assert(is_dec_digit(t[k]));
    }
}

/// The path that is named for a repeated server name is that of the certificate
/// which repeats it.
pub proof fn law_repeating_certificate(certs: Seq<CertKeyPair>, target: Seq<char>, a: int, b: int)
    requires
        ({
            let entries = named(certs, certs.len() as int);
            &&& 0 <= a < b < entries.len()
            &&& lower(entries[a].0@) == lower(target)
            &&& lower(entries[b].0@) == lower(target)
            &&& forall|k: int| 0 <= k < b && k != a ==> lower((#[trigger] entries[k]).0@) != lower(target)
        }),
    ensures
        duplicate_path(certs, target) == certs[named(certs, certs.len() as int)[b].1 as int].cert_path@,
{
    law_repeated_name(named(certs, certs.len() as int), target, 0, a, b);
}

/// Eight groups of up to four hexadecimal digits with colons between them are an
/// IP address, and so are fewer with a double colon in place of the rest.
pub proof fn law_colon_address(front: Seq<Seq<char>>, back: Seq<Seq<char>>)
    requires
        forall|k: int| 0 <= k < front.len() ==> is_group(#[trigger] front[k]),
        forall|k: int| 0 <= k < back.len() ==> is_group(#[trigger] back[k]),
        front.len() > 0,
        back.len() > 0,
    ensures
        front.len() == 8 ==> is_ip(join(front, seq![':'])),
        front.len() + back.len() <= 7 ==> is_ip(
            join(front, seq![':']) + seq![':', ':'] + join(back, seq![':']),
        ),
        back.len() <= 7 ==> is_ip(seq![':', ':'] + join(back, seq![':'])),
{
    lemma_groups(front);
    lemma_groups(back);
    let (f, b) = (join(front, seq![':']), join(back, seq![':']));
    let all = f + seq![':', ':'] + b;
    let k = f.len() as int;
    assert(all.take(k) =~= f);
    assert(all.skip(k + 2) =~= b);
    assert(all[k] == ':' && all[k + 1] == ':');
    if front.len() + back.len() <= 7 {
        assert(abbreviated_at(all, k));
    }
    let short = seq![':', ':'] + b;
    assert(short.take(0) =~= Seq::<char>::empty());
    assert(short.skip(2) =~= b);
    if back.len() <= 7 {
        assert(abbreviated_at(short, 0));
    }
}

proof fn lemma_groups(groups: Seq<Seq<char>>)
    requires
        forall|k: int| 0 <= k < groups.len() ==> is_group(#[trigger] groups[k]),
        groups.len() > 0,
    ensures
        group_count(join(groups, seq![':']), true) == Some(groups.len() as int),
        group_count(join(groups, seq![':']), false) == Some(groups.len() as int),
{
    let text = join(groups, seq![':']);
    assert forall|k: int| 0 <= k < groups.len() implies !(#[trigger] groups[k]).contains(':') by {
        if groups[k].contains(':') {
            let i = groups[k].index_of(':');
            assert(is_hex(groups[k][i]));
        }
    }
    law_split_undoes_join(groups, ':');
    assert(text.len() > 0) by {
        if text.len() == 0 {
            law_split_single(text, ':');
            assert(split(text, ':')[0].len() == 0);
            assert(is_group(groups[0]));
        }
    }
}

} // verus!
