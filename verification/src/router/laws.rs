//! What routing means: which requests a route takes, and which of the routes
//! that would take one is chosen.

use vstd::prelude::*;
use vstd::utf8::encode_utf8;

use crate::path_match::{law_trailing_slash_ignored, prefix_matches, prefix_specificity};
use crate::query::query_pair;
use crate::request::values_at;
use crate::route::Route;
use crate::router::filter::finds;
use crate::router::matching::{bare_host, headers_fit, host_fits, method_fits, outranks, path_fits, query_fits, query_has, route_host_fits, route_matches, specificity, wildcard_suffix, Asked};
use crate::text::{lemma_find_from, lower, split, trim_end};
use crate::text_map::TextMap;
use crate::text_laws::{law_cut_at_first, law_lower_of_upper, law_split_at_separator, law_split_single, law_stripped, law_trim_end};

verus! {

/// The number of headers that a route requires.
pub open spec fn header_count(route: Route) -> nat {
    match route.headers {
        Some(map) => map@.dom().len(),
        None => 0,
    }
}

/// Whether a route names methods.
pub open spec fn names_methods(route: Route) -> bool {
    route.methods matches Some(methods) && methods@.len() > 0
}

/// Of two routes with equally specific paths that agree on whether they have a
/// host and methods, the one that requires more headers outranks the other.
pub proof fn law_more_headers_outrank(a: Route, b: Route)
    requires
        specificity(a) == specificity(b),
        a.host is Some <==> b.host is Some,
        names_methods(a) <==> names_methods(b),
    ensures
        header_count(a) > header_count(b) <==> outranks(a, b),
{
}

/// Of two routes with equally specific paths that require equally many headers,
/// the one with a host or with methods outranks the one without.
pub proof fn law_host_and_methods_outrank(a: Route, b: Route)
    requires
        specificity(a) == specificity(b),
        header_count(a) == header_count(b),
    ensures
        a.host is Some && b.host is None && (names_methods(b) ==> names_methods(a)) ==> outranks(a, b),
        names_methods(a) && !names_methods(b) && (b.host is Some ==> a.host is Some) ==> outranks(a, b),
        (a.host is Some <==> b.host is Some) && (names_methods(a) <==> names_methods(b)) ==> !outranks(
            a,
            b,
        ),
{
}

/// The route that is found never requires fewer headers than another match with
/// an equally specific path, if they agree on whether they have a host and
/// methods.
pub proof fn law_found_route_has_most_headers(routes: Seq<Route>, asked: Asked, i: int, j: int)
    requires
        finds(routes, asked, Some(i)),
        0 <= j < routes.len(),
        route_matches(routes[j], asked),
        specificity(routes[i]) == specificity(routes[j]),
        routes[i].host is Some <==> routes[j].host is Some,
        names_methods(routes[i]) <==> names_methods(routes[j]),
    ensures
        header_count(routes[i]) >= header_count(routes[j]),
        header_count(routes[i]) == header_count(routes[j]) ==> i <= j,
{
    if i != j {
        assert(route_matches(routes[j], asked));
        law_more_headers_outrank(routes[i], routes[j]);
        law_more_headers_outrank(routes[j], routes[i]);
    }
}

/// An exact path outranks every regular expression, and both outrank every
/// prefix, whatever else is required.
pub proof fn law_exact_before_regex_before_prefix(exact: Route, regex: Route, prefix: Route)
    requires
        exact.path_exact is Some,
        regex.path_exact is None,
        regex.path_regex is Some,
        prefix.path_exact is None,
        prefix.path_regex is None,
        encode_utf8(prefix.path_prefix@).len() < usize::MAX - 1,
    ensures
        outranks(exact, regex),
        outranks(exact, prefix),
        outranks(regex, prefix),
{
    let p = prefix.path_prefix@;
    law_trim_end(p, '/');
    let t = trim_end(p, '/');
    lemma_encoded_prefix(t, p.skip(t.len() as int));
    assert(t + p.skip(t.len() as int) =~= p);
}

proof fn lemma_encoded_prefix(a: Seq<char>, b: Seq<char>)
    ensures
        encode_utf8(a + b) == encode_utf8(a) + encode_utf8(b),
        encode_utf8(b).len() >= b.len(),
    decreases a.len() + b.len(),
{
    if a.len() > 0 {
        assert((a + b).drop_first() =~= a.drop_first() + b);
        lemma_encoded_prefix(a.drop_first(), b);
        assert(encode_utf8(a + b) =~= encode_utf8(a) + encode_utf8(b));
    } else {
        assert(a + b =~= b);
        assert(encode_utf8(a + b) =~= encode_utf8(a) + encode_utf8(b));
        if b.len() > 0 {
            lemma_encoded_prefix(a, b.drop_first());
        }
    }
}

/// Of two prefixes, the one that goes on further is more specific.
pub proof fn law_longer_prefix_is_more_specific(prefix: Seq<char>, rest: Seq<char>)
    requires
        prefix.len() > 0,
        prefix.last() != '/',
        rest.len() > 0,
        rest.last() != '/',
    ensures
        prefix_specificity(prefix + rest) > prefix_specificity(prefix),
        prefix_specificity(prefix) >= prefix_specificity(Seq::empty()),
{
    assert((prefix + rest).last() == rest.last());
    lemma_encoded_prefix(prefix, rest);
    lemma_encoded_prefix(Seq::empty(), prefix);
}

/// An exact path fits that path alone, even where the route has a regular
/// expression or a prefix too.
pub proof fn law_exact_path(route: Route, path: Seq<char>, verdict: Option<bool>)
    requires
        route.path_exact is Some,
    ensures
        path_fits(route, path, verdict) <==> path == route.path_exact->0@,
{
}

/// A regular expression fits where it matches, and a route whose expression is
/// refused fits nothing; the prefix plays no part.
pub proof fn law_regex_path(route: Route, path: Seq<char>)
    requires
        route.path_exact is None,
        route.path_regex is Some,
    ensures
        path_fits(route, path, Some(true)),
        !path_fits(route, path, Some(false)),
        !path_fits(route, path, None),
{
}

/// A prefix fits itself and what lies below it, and nothing else.
pub proof fn law_prefix_path(route: Route, path: Seq<char>, verdict: Option<bool>)
    requires
        route.path_exact is None,
        route.path_regex is None,
        route.path_prefix@.len() > 0,
        route.path_prefix@.last() != '/',
    ensures
        path_fits(route, path, verdict) <==> path == route.path_prefix@ || (path.len()
            > route.path_prefix@.len() && path.take(route.path_prefix@.len() as int)
            == route.path_prefix@ && path[route.path_prefix@.len() as int] == '/'),
{
    let p = route.path_prefix@;
    let n = p.len() as int;
    if p.push('/').is_prefix_of(path) {
        assert(path.take(n) =~= p.push('/').take(n));
        assert(p.push('/').take(n) =~= p);
        assert(p.push('/')[n] == path.subrange(0, n + 1)[n]);
    }
    if path.len() > n && path.take(n) == p && path[n] == '/' {
        assert(p.push('/') =~= path.subrange(0, n + 1)) by {
            assert forall|k: int| 0 <= k < n implies p[k] == path[k] by {
                assert(path.take(n)[k] == path[k]);
            }
        }
    }
}

/// The root prefix fits every path.
pub proof fn law_root_prefix(path: Seq<char>)
    ensures
        prefix_matches(path, Seq::empty()),
        prefix_matches(path, seq!['/']),
        prefix_specificity(seq!['/']) == prefix_specificity(Seq::empty()),
        prefix_specificity(seq!['/']) == 1,
{
    law_trailing_slash_ignored(path, Seq::empty());
    assert(Seq::<char>::empty().push('/') =~= seq!['/']);
}

/// Methods are compared without regard to letter case: one that is listed fits,
/// and one that differs from all that are listed does not.
pub proof fn law_methods(route: Route, method: Seq<char>, other: Seq<char>)
    requires
        lower(method) == lower(other),
    ensures
        method_fits(route, Some(method)) == method_fits(route, Some(other)),
        route.methods matches Some(methods) ==> forall|i: int|
            0 <= i < methods@.len() && (#[trigger] methods@[i])@ == other ==> method_fits(
                route,
                Some(method),
            ),
        route.methods matches Some(methods) ==> methods@.len() > 0 && method_fits(route, Some(method))
            ==> exists|i: int| 0 <= i < methods@.len() && lower((#[trigger] methods@[i])@) == lower(method),
        !names_methods(route) ==> method_fits(route, Some(method)) && method_fits(route, None),
{
}

/// The port of a host does not count; an address in brackets keeps its colons.
pub proof fn law_bare_host(host: Seq<char>, port: Seq<char>, inner: Seq<char>, tail: Seq<char>)
    requires
        !host.contains(':'),
        host.len() == 0 || host[0] != '[',
        !inner.contains(']'),
    ensures
        bare_host(host) == host,
        bare_host(host + seq![':'] + port) == host,
        bare_host(seq!['['] + inner + seq![']'] + tail) == seq!['['] + inner + seq![']'],
{
    let with = host + seq![':'] + port;
    law_cut_at_first(host, ':', port);
    if host.len() > 0 {
        assert(with[0] == host[0]);
    } else {
        assert(with[0] == ':');
    }
    let a = seq!['['] + inner;
    let all = a + seq![']'] + tail;
    assert(!a.contains(']')) by {
        if a.contains(']') {
            let k = a.index_of(']');
            if k > 0 {
                assert(inner[k - 1] == ']');
            }
        }
    }
    assert(all[0] == '[');
    lemma_find_from(all, ']', 0);
    assert(all[a.len() as int] == ']');
    assert forall|k: int| 0 <= k < a.len() implies all[k] != ']' by {
        assert(all[k] == a[k]);
    }
    assert(all.take(a.len() as int + 1) =~= a + seq![']']);
}

/// A wildcard host fits names with exactly one label before its domain, and a
/// plain host fits itself; letter case does not count.
pub proof fn law_host(label: Seq<char>, domain: Seq<char>, host: Seq<char>)
    ensures
        ({
            let pattern = seq!['*', '.'] + domain;
            let name = label + seq!['.'] + domain;
            host_fits(pattern, wildcard_suffix(pattern), name) <==> label.len() > 0
                && !label.contains('.')
        }),
        !seq!['*', '.'].is_prefix_of(domain) ==> (host_fits(domain, wildcard_suffix(domain), host)
            <==> lower(host) == lower(domain)),
{
    let pattern = seq!['*', '.'] + domain;
    let name = label + seq!['.'] + domain;
    law_stripped(pattern, seq!['*', '.'], domain);
    let end = seq!['.'] + lower(domain);
    let n = name.len() - end.len();
    assert(n == label.len());
    assert(name.skip(n) =~= seq!['.'] + domain);
    assert(lower(seq!['.'] + domain) =~= seq!['.'] + lower(domain));
    law_lower_of_upper(domain);
    assert(lower(end) =~= seq!['.'] + lower(lower(domain)));
    assert(name.take(n) =~= label);
}

/// A host that a wildcard fits ends with the wildcard's domain, and the wildcard
/// does not fit the domain itself.
pub proof fn law_wildcard_host_ends(domain: Seq<char>, host: Seq<char>)
    requires
        ({
            let pattern = seq!['*', '.'] + domain;
            host_fits(pattern, wildcard_suffix(pattern), host)
        }),
    ensures
        host.len() > domain.len() + 1,
        lower(host.skip(host.len() - domain.len() - 1)) == seq!['.'] + lower(domain),
        lower(host) != lower(domain),
{
    let pattern = seq!['*', '.'] + domain;
    law_stripped(pattern, seq!['*', '.'], domain);
    let end = seq!['.'] + lower(domain);
    law_lower_of_upper(domain);
    assert(lower(end) =~= seq!['.'] + lower(lower(domain)));
}

/// A route with a host takes only requests with one, and compares it without
/// its port.
pub proof fn law_route_host(route: Route, suffix: Option<Seq<char>>, host: Seq<char>, port: Seq<char>)
    requires
        route.host is Some,
        !host.contains(':'),
        host.len() == 0 || host[0] != '[',
    ensures
        !route_host_fits(route, suffix, None),
        route_host_fits(route, suffix, Some(host + seq![':'] + port)) == route_host_fits(
            route,
            suffix,
            Some(host),
        ),
        route_host_fits(route, suffix, Some(host)) == host_fits(route.host->0@, suffix, host),
{
    law_bare_host(host, port, Seq::empty(), Seq::empty());
}

/// A route takes a request only if each header that it requires is there with
/// the value that it requires, and each query parameter too.
pub proof fn law_match_has_what_is_required(route: Route, asked: Asked)
    requires
        route_matches(route, asked),
    ensures
        route.headers matches Some(map) ==> forall|name: Seq<char>| #[trigger]
            map@.contains_key(name) ==> values_at(asked.lines, name).contains(Some(map@[name])),
        route.query_params matches Some(map) ==> forall|name: Seq<char>| #[trigger]
            map@.contains_key(name) ==> query_has(asked.query, name, map@[name]),
        route.host is Some ==> asked.host is Some,
        route.path_exact matches Some(exact) ==> asked.path == exact@,
        method_fits(route, asked.method),
{
}

/// A route that asks for nothing but a path takes every request for that path.
pub proof fn law_plain_route_matches(route: Route, asked: Asked)
    requires
        route.host is None,
        route.headers is None,
        route.query_params is None,
        route.methods is None,
        route.path_regex is None,
    ensures
        route.path_exact is None ==> (route_matches(route, asked) <==> prefix_matches(
            asked.path,
            route.path_prefix@,
        )),
        route.path_exact matches Some(exact) ==> (route_matches(route, asked) <==> asked.path
            == exact@),
{
}

/// A query holds a parameter wherever it stands between others.
pub proof fn law_query_parameter(front: Seq<char>, name: Seq<char>, value: Seq<char>, back: Seq<char>)
    requires
        !name.contains('='),
        !name.contains('&'),
        !value.contains('&'),
    ensures
        ({
            let pair = name + seq!['='] + value;
            &&& query_pair(pair) == (name, value)
            &&& query_pair(name) == (name, Seq::<char>::empty())
            &&& query_has(Some(pair), name, value)
            &&& query_has(Some(front + seq!['&'] + pair), name, value)
            &&& query_has(Some(pair + seq!['&'] + back), name, value)
            &&& query_has(Some(front + seq!['&'] + pair + seq!['&'] + back), name, value)
            &&& !query_has(None, name, value)
            &&& forall|other: Seq<char>| #[trigger]
                query_has(Some(pair), name, other) ==> other == value
        }),
{
    let pair = name + seq!['='] + value;
    law_cut_at_first(name, '=', value);
    assert(!pair.contains('&')) by {
        if pair.contains('&') {
            let k = pair.index_of('&');
            if k < name.len() {
                assert(name[k] == '&');
            } else if k > name.len() {
                assert(value[k - name.len() - 1] == '&');
            }
        }
    }
    law_split_single(pair, '&');
    assert(seq![pair][0] == pair);
    lemma_query_piece(front, pair, back);
    assert forall|other: Seq<char>| #[trigger] query_has(Some(pair), name, other) implies other == value by {}
}

proof fn lemma_query_piece(front: Seq<char>, piece: Seq<char>, back: Seq<char>)
    requires
        !piece.contains('&'),
    ensures
        ({
            let (name, value) = query_pair(piece);
            &&& query_has(Some(front + seq!['&'] + piece), name, value)
            &&& query_has(Some(piece + seq!['&'] + back), name, value)
            &&& query_has(Some(front + seq!['&'] + piece + seq!['&'] + back), name, value)
        }),
{
    law_split_single(piece, '&');
    law_split_at_separator(front, '&', piece);
    law_split_at_separator(piece, '&', back);
    law_split_at_separator(front + seq!['&'] + piece, '&', back);
    let f = crate::text::split(front, '&');
    let b = crate::text::split(back, '&');
    assert((f + seq![piece])[f.len() as int] == piece);
    assert((seq![piece] + b)[0] == piece);
    assert((f + seq![piece] + b)[f.len() as int] == piece);
}

/// Of routes that match and rank alike the one that comes first is found, and a
/// route that is found matches.
pub proof fn law_first_of_equals_is_found(routes: Seq<Route>, asked: Asked, found: Option<int>, j: int)
    requires
        finds(routes, asked, found),
        0 <= j < routes.len(),
        route_matches(routes[j], asked),
    ensures
        found matches Some(i) && 0 <= i < routes.len() && route_matches(routes[i], asked) && !outranks(
            routes[j],
            routes[i],
        ) && (j < i ==> outranks(routes[i], routes[j])),
{
}

/// The headers that a route requires are there exactly where each of them has the
/// value on one of its lines, whichever that is.
pub proof fn law_required_headers(required: TextMap, lines: Map<Seq<char>, Seq<Option<Seq<char>>>>)
    ensures
        headers_fit(None, lines),
        headers_fit(Some(required), lines) <==> forall|k: Seq<char>| #[trigger]
            required@.contains_key(k) ==> exists|i: int|
                0 <= i < values_at(lines, k).len() && #[trigger] values_at(lines, k)[i] == Some(required@[k]),
{
    if headers_fit(Some(required), lines) {
        assert forall|k: Seq<char>| #[trigger] required@.contains_key(k) implies exists|i: int|
            0 <= i < values_at(lines, k).len() && #[trigger] values_at(lines, k)[i] == Some(required@[k]) by {
            let i = values_at(lines, k).index_of(Some(required@[k]));
            assert(values_at(lines, k)[i] == Some(required@[k]));
        }
    }
}

/// The parameters that a route requires are there exactly where each of them
/// stands in the query with its value.
pub proof fn law_required_parameters(required: TextMap, query: Seq<char>)
    ensures
        query_fits(None, Some(query)),
        query_fits(Some(required), Some(query)) <==> forall|k: Seq<char>| #[trigger]
            required@.contains_key(k) ==> exists|i: int|
                0 <= i < split(query, '&').len() && query_pair(#[trigger] split(query, '&')[i]) == (
                    k,
                    required@[k],
                ),
        query_fits(Some(required), None) <==> forall|k: Seq<char>| !#[trigger] required@.contains_key(k),
{
    if query_fits(Some(required), None) {
        assert forall|k: Seq<char>| !#[trigger] required@.contains_key(k) by {
            if required@.contains_key(k) {
                assert(query_has(None, k, required@[k]));
            }
        }
    }
    if query_fits(Some(required), Some(query)) {
        assert forall|k: Seq<char>| #[trigger] required@.contains_key(k) implies exists|i: int|
            0 <= i < split(query, '&').len() && query_pair(#[trigger] split(query, '&')[i]) == (k, required@[k]) by {
            assert(query_has(Some(query), k, required@[k]));
        }
    }
}

} // verus!
