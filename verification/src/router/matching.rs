//! Which routes match a request, and which match counts for more.

use vstd::prelude::*;

use crate::path_match::{gateway_path_prefix_matches, gateway_path_prefix_specificity, prefix_matches, prefix_specificity};
use crate::query::{query_pair, split_pair};
use crate::request::{header_lines, header_values, option_views, values_at};
use crate::route::Route;
use crate::text::{before, before_char, find, find_char, has_char, lower, lower_text, opt_text, opt_view, same_ignoring_case, same_text, split, split_text, strip_prefix, stripped, text_of, to_chars};
use crate::text_map::TextMap;

verus! {

/// What `regex::Regex::new(pattern)` and `is_match(text)` give: `None` where the
/// pattern is refused, else whether it matches somewhere in the text.
pub uninterp spec fn regex_verdict(pattern: Seq<char>, text: Seq<char>) -> Option<bool>;

/// `regex::Regex::new` and `regex::Regex::is_match`: `None` where the pattern is
/// refused, else whether it matches somewhere in the text.
#[verifier::external_body]
pub(crate) fn regex_matches(pattern: &str, text: &str) -> (r: Option<bool>)
    ensures
        r == regex_verdict(pattern@, text@),
{
    regex::Regex::new(pattern).ok().map(|re| re.is_match(text))
}

/// What a request asks for, as far as routes look at it.
pub struct Asked {
    pub path: Seq<char>,
    pub host: Option<Seq<char>>,
    /// Header values by lowercase name.
    pub lines: Map<Seq<char>, Seq<Option<Seq<char>>>>,
    pub method: Option<Seq<char>>,
    pub query: Option<Seq<char>>,
}

/// Whether the path of a route matches, where a regular expression gives
/// `verdict`.
pub open spec fn path_fits(route: Route, path: Seq<char>, verdict: Option<bool>) -> bool {
    match route.path_exact {
        Some(exact) => path == exact@,
        None => match route.path_regex {
            Some(_) => verdict == Some(true),
            None => prefix_matches(path, route.path_prefix@),
        },
    }
}

/// What the regular expression of a route says of a path, if it has one.
pub open spec fn route_verdict(route: Route, path: Seq<char>) -> Option<bool> {
    match route.path_regex {
        Some(pattern) => regex_verdict(pattern@, path),
        None => None,
    }
}

/// Whether the methods of a route admit `method`.
pub open spec fn method_fits(route: Route, method: Option<Seq<char>>) -> bool {
    match route.methods {
        None => true,
        Some(methods) => methods@.len() == 0 || exists|i: int|
            0 <= i < methods@.len() && lower((#[trigger] methods@[i])@) == lower(
                match method {
                    Some(m) => m,
                    None => Seq::empty(),
                },
            ),
    }
}

/// A host without its port. An address in brackets keeps them.
pub open spec fn bare_host(host: Seq<char>) -> Seq<char> {
    if host.len() > 0 && host[0] == '[' {
        match find(host, ']') {
            Some(i) => host.take(i + 1),
            None => host,
        }
    } else {
        before(host, ':')
    }
}

/// For a wildcard host pattern, what a host has to end with, in lowercase.
pub open spec fn wildcard_suffix(pattern: Seq<char>) -> Option<Seq<char>> {
    match stripped(pattern, seq!['*', '.']) {
        Some(rest) => Some(seq!['.'] + lower(rest)),
        None => None,
    }
}

/// Whether a host matches a pattern whose wildcard suffix is `suffix`: one
/// label, which is not empty, stands before the suffix.
pub open spec fn host_fits(pattern: Seq<char>, suffix: Option<Seq<char>>, host: Seq<char>) -> bool {
    match suffix {
        Some(end) => {
            let n = host.len() - end.len();
            &&& n > 0
            &&& lower(host.skip(n)) == lower(end)
            &&& !host.take(n).contains('.')
        },
        None => lower(host) == lower(pattern),
    }
}

/// Whether headers with these values are all there.
pub open spec fn all_headers(
    required: Map<Seq<char>, Seq<char>>,
    lines: Map<Seq<char>, Seq<Option<Seq<char>>>>,
) -> bool {
    forall|k: Seq<char>| #[trigger]
        required.contains_key(k) ==> values_at(lines, k).contains(Some(required[k]))
}

/// Whether the required headers are all there.
pub open spec fn headers_fit(
    required: Option<TextMap>,
    lines: Map<Seq<char>, Seq<Option<Seq<char>>>>,
) -> bool {
    match required {
        None => true,
        Some(map) => all_headers(map@, lines),
    }
}

/// Whether one of the pieces of a query is a key with a value.
pub open spec fn some_pair(pieces: Seq<Seq<char>>, key: Seq<char>, value: Seq<char>) -> bool {
    exists|i: int| 0 <= i < pieces.len() && query_pair(#[trigger] pieces[i]) == (key, value)
}

/// Whether a query holds a key with a value.
pub open spec fn query_has(query: Option<Seq<char>>, key: Seq<char>, value: Seq<char>) -> bool {
    match query {
        None => false,
        Some(q) => some_pair(split(q, '&'), key, value),
    }
}

/// Whether parameters with these values are all there.
pub open spec fn all_params(
    required: Map<Seq<char>, Seq<char>>,
    query: Option<Seq<char>>,
) -> bool {
    forall|k: Seq<char>| #[trigger]
        required.contains_key(k) ==> query_has(query, k, required[k])
}

/// Whether the required query parameters are all there.
pub open spec fn query_fits(required: Option<TextMap>, query: Option<Seq<char>>) -> bool {
    match required {
        None => true,
        Some(map) => all_params(map@, query),
    }
}

/// Whether the host of a route, whose wildcard suffix is `suffix`, matches.
pub open spec fn route_host_fits(
    route: Route,
    suffix: Option<Seq<char>>,
    host: Option<Seq<char>>,
) -> bool {
    match route.host {
        None => true,
        Some(pattern) => host matches Some(h) && host_fits(pattern@, suffix, bare_host(h)),
    }
}

/// Whether a route matches, where its regular expression gives `verdict`.
pub open spec fn fits(
    route: Route,
    suffix: Option<Seq<char>>,
    asked: Asked,
    verdict: Option<bool>,
) -> bool {
    &&& path_fits(route, asked.path, verdict)
    &&& method_fits(route, asked.method)
    &&& route_host_fits(route, suffix, asked.host)
    &&& headers_fit(route.headers, asked.lines)
    &&& query_fits(route.query_params, asked.query)
}

/// The wildcard suffix of a route's host.
pub open spec fn route_suffix(route: Route) -> Option<Seq<char>> {
    match route.host {
        Some(pattern) => wildcard_suffix(pattern@),
        None => None,
    }
}

/// Whether a route matches a request.
pub open spec fn route_matches(route: Route, asked: Asked) -> bool {
    fits(route, route_suffix(route), asked, route_verdict(route, asked.path))
}

/// How specific the path of a route is. Exact paths come before regular
/// expressions, and these before prefixes.
pub open spec fn specificity(route: Route) -> nat {
    if route.path_exact is Some {
        usize::MAX as nat
    } else if route.path_regex is Some {
        (usize::MAX - 1) as nat
    } else {
        prefix_specificity(route.path_prefix@)
    }
}

/// How many further constraints a route has.
pub open spec fn constraints(route: Route) -> nat {
    (if route.host is Some {
        1nat
    } else {
        0
    }) + (match route.headers {
        Some(map) => map@.dom().len(),
        None => 0,
    }) + (if route.methods matches Some(m) && m@.len() > 0 {
        1nat
    } else {
        0
    })
}

/// Whether route `a` counts for more than route `b`.
pub open spec fn outranks(a: Route, b: Route) -> bool {
    specificity(a) > specificity(b) || (specificity(a) == specificity(b) && constraints(a)
        > constraints(b))
}

/// A route with its wildcard suffix at hand.
#[derive(Debug)]
pub struct ResolvedRoute {
    pub route: Route,
    /// For a wildcard host, what a host has to end with, in lowercase.
    pub wildcard_suffix: Option<String>,
}

impl ResolvedRoute {
    pub open spec fn wf(self) -> bool {
        opt_text(self.wildcard_suffix) == route_suffix(self.route)
    }

    /// The route with its wildcard suffix.
    pub fn resolve(route: Route) -> (r: Self)
        ensures
            r.route == route,
            r.wf(),
    {
        proof {
            reveal_strlit("*.");
            assert("*."@ =~= seq!['*', '.']);
            reveal_strlit(".");
            assert("."@ =~= seq!['.']);
        }
        let suffix: Option<String> = match &route.host {
            Some(pattern) => match strip_prefix(pattern.as_str(), "*.") {
                Some(rest) => {
                    let low = lower_text(rest.as_str());
                    Some(crate::text::concat(".", low.as_str()))
                },
                None => None,
            },
            None => None,
        };
        ResolvedRoute { route, wildcard_suffix: suffix }
    }
}

/// How specific the path of a route is.
pub fn path_specificity(route: &Route) -> (r: usize)
    ensures
        r == specificity(*route),
{
    if route.path_exact.is_some() {
        usize::MAX
    } else if route.path_regex.is_some() {
        usize::MAX - 1
    } else {
        gateway_path_prefix_specificity(route.path_prefix.as_str())
    }
}

/// Whether the path of a route matches, given what its regular expression says.
pub fn path_matches(route: &Route, path: &str, verdict: Option<bool>) -> (r: bool)
    ensures
        r == path_fits(*route, path@, verdict),
{
    match &route.path_exact {
        Some(exact) => same_text(path, exact.as_str()),
        None => match &route.path_regex {
            Some(_) => match verdict {
                Some(v) => v,
                None => false,
            },
            None => gateway_path_prefix_matches(path, route.path_prefix.as_str()),
        },
    }
}

fn method_matches(route: &Route, method: Option<&str>) -> (r: bool)
    ensures
        r == method_fits(*route, opt_view(method)),
{
    match &route.methods {
        None => true,
        Some(methods) => {
            if methods.len() == 0 {
                return true;
            }
            let wanted: &str = match method {
                Some(m) => m,
                None => "",
            };
            proof {
                reveal_strlit("");
                assert(""@ =~= Seq::<char>::empty());
            }
            let mut i: usize = 0;
            while i < methods.len()
                invariant
                    i <= methods@.len(),
                    route.methods == Some(*methods),
                    methods@.len() > 0,
                    wanted@ == (match opt_view(method) {
                        Some(m) => m,
                        None => Seq::empty(),
                    }),
                    forall|k: int| 0 <= k < i ==> lower((#[trigger] methods@[k])@) != lower(wanted@),
                decreases methods@.len() - i,
            {
                if same_ignoring_case(methods[i].as_str(), wanted) {
                    return true;
                }
                i = i + 1;
            }
            false
        },
    }
}

/// A host without its port.
pub fn strip_port(host: &str) -> (r: String)
    ensures
        r@ == bare_host(host@),
{
    let chars = to_chars(host);
    if chars.len() > 0 && chars[0] == '[' {
        match find_char(&chars, ']', 0) {
            Some(i) => {
                let r = text_of(&chars, 0, i + 1);
                assert(r@ =~= host@.take(i + 1));
                r
            },
            None => host.to_owned(),
        }
    } else {
        before_char(host, ':')
    }
}

fn host_matches(pattern: &str, suffix: Option<&String>, host: &str) -> (r: bool)
    ensures
        r == host_fits(
            pattern@,
            match suffix {
                Some(s) => Some(s@),
                None => None,
            },
            host@,
        ),
{
    match suffix {
        Some(end) => {
            let chars = to_chars(host);
            let n: usize = chars.len();
            let m: usize = to_chars(end.as_str()).len();
            if n <= m {
                return false;
            }
            let tail = text_of(&chars, n - m, n);
            let front = text_of(&chars, 0, n - m);
            assert(tail@ =~= host@.skip(n - m));
            assert(front@ =~= host@.take(n - m));
            same_ignoring_case(tail.as_str(), end.as_str()) && !has_char(front.as_str(), '.')
        },
        None => same_ignoring_case(host, pattern),
    }
}

fn header_matches(headers: &http::HeaderMap<http::HeaderValue>, name: &str, value: &str) -> (r: bool)
    ensures
        r == values_at(header_lines(*headers), name@).contains(Some(value@)),
{
    let values = header_values(headers, name);
    let ghost seen = option_views(values@);
    let mut i: usize = 0;
    while i < values.len()
        invariant
            i <= values@.len(),
            seen == option_views(values@),
            seen == values_at(header_lines(*headers), name@),
            forall|k: int| 0 <= k < i ==> #[trigger] seen[k] != Some(value@),
        decreases values@.len() - i,
    {
        if let Some(text) = &values[i] {
            if same_text(text.as_str(), value) {
                assert(seen[i as int] == Some(value@));
                return true;
            }
        }
        i = i + 1;
    }
    false
}

fn headers_match(required: &Option<TextMap>, headers: &http::HeaderMap<http::HeaderValue>) -> (r: bool)
    ensures
        r == headers_fit(*required, header_lines(*headers)),
{
    match required {
        None => true,
        Some(map) => {
            let n: usize = map.len();
            let mut i: usize = 0;
            while i < n
                invariant
                    i <= n,
                    n == map.listed().len(),
                    *required == Some(*map),
                    forall|k: int|
                        0 <= k < n ==> map@.contains_key((#[trigger] map.listed()[k]).0)
                            && map@[map.listed()[k].0] == map.listed()[k].1,
                    forall|k: int|
                        0 <= k < i ==> values_at(
                            header_lines(*headers),
                            (#[trigger] map.listed()[k]).0,
                        ).contains(Some(map.listed()[k].1)),
                decreases n - i,
            {
                let (key, value) = map.entry(i);
                if !header_matches(headers, key, value) {
                    assert(map.listed()[i as int] == (key@, value@));
                    assert(map@.contains_key(key@) && map@[key@] == value@);
                    return false;
                }
                i = i + 1;
            }
            proof {
                assert forall|k: Seq<char>| #[trigger] map@.contains_key(k) implies values_at(
                    header_lines(*headers),
                    k,
                ).contains(Some(map@[k])) by {
                    let j = choose|j: int|
                        0 <= j < map.listed().len() && (#[trigger] map.listed()[j]).0 == k;
                    assert(map@[k] == map.listed()[j].1);
                }
            }
            true
        },
    }
}

fn query_holds(query: Option<&str>, key: &str, value: &str) -> (r: bool)
    ensures
        r == query_has(opt_view(query), key@, value@),
{
    match query {
        None => false,
        Some(q) => {
            let pieces = split_text(q, '&');
            let ghost all = split(q@, '&');
            let mut i: usize = 0;
            while i < pieces.len()
                invariant
                    i <= pieces@.len(),
                    all == split(q@, '&'),
                    opt_view(query) == Some(q@),
                    pieces@.map_values(|t: String| t@) == all,
                    forall|k: int| 0 <= k < i ==> query_pair(#[trigger] all[k]) != (key@, value@),
                decreases pieces@.len() - i,
            {
                assert(all[i as int] == pieces@[i as int]@);
                let (k, v) = split_pair(pieces[i].as_str());
                let hit = same_text(k.as_str(), key) && same_text(v.as_str(), value);
                if hit {
                    assert(0 <= i < all.len() && query_pair(all[i as int]) == (key@, value@));
                    return true;
                }
                i = i + 1;
            }
            false
        },
    }
}

fn query_matches(required: &Option<TextMap>, query: Option<&str>) -> (r: bool)
    ensures
        r == query_fits(*required, opt_view(query)),
{
    match required {
        None => true,
        Some(map) => {
            let n: usize = map.len();
            let mut i: usize = 0;
            while i < n
                invariant
                    i <= n,
                    n == map.listed().len(),
                    *required == Some(*map),
                    forall|k: int|
                        0 <= k < n ==> map@.contains_key((#[trigger] map.listed()[k]).0)
                            && map@[map.listed()[k].0] == map.listed()[k].1,
                    forall|k: int|
                        0 <= k < i ==> query_has(
                            opt_view(query),
                            (#[trigger] map.listed()[k]).0,
                            map.listed()[k].1,
                        ),
                decreases n - i,
            {
                let (key, value) = map.entry(i);
                if !query_holds(query, key, value) {
                    assert(map.listed()[i as int] == (key@, value@));
                    assert(map@.contains_key(key@) && map@[key@] == value@);
                    return false;
                }
                i = i + 1;
            }
            proof {
                assert forall|k: Seq<char>| #[trigger] map@.contains_key(k) implies query_has(
                    opt_view(query),
                    k,
                    map@[k],
                ) by {
                    let j = choose|j: int|
                        0 <= j < map.listed().len() && (#[trigger] map.listed()[j]).0 == k;
                    assert(map@[k] == map.listed()[j].1);
                }
            }
            true
        },
    }
}

/// Whether a route matches, given what its regular expression says of the path.
pub fn route_matches_with(
    resolved: &ResolvedRoute,
    path: &str,
    host: Option<&str>,
    req_headers: &http::HeaderMap<http::HeaderValue>,
    method: Option<&str>,
    query: Option<&str>,
    verdict: Option<bool>,
) -> (r: bool)
    ensures
        r == fits(
            resolved.route,
            opt_text(resolved.wildcard_suffix),
            (Asked {
                path: path@,
                host: opt_view(host),
                lines: header_lines(*req_headers),
                method: opt_view(method),
                query: opt_view(query),
            }),
            verdict,
        ),
{
    let route = &resolved.route;
    if !path_matches(route, path, verdict) {
        return false;
    }
    if !method_matches(route, method) {
        return false;
    }
    let host_ok = match &route.host {
        Some(pattern) => match host {
            Some(h) => {
                let bare = strip_port(h);
                host_matches(pattern.as_str(), resolved.wildcard_suffix.as_ref(), bare.as_str())
            },
            None => false,
        },
        None => true,
    };
    host_ok && headers_match(&route.headers, req_headers) && query_matches(
        &route.query_params,
        query,
    )
}

/// Whether a route matches a request's path, host, headers, method and query.
pub fn route_matches_request(
    resolved: &ResolvedRoute,
    path: &str,
    host: Option<&str>,
    req_headers: &http::HeaderMap<http::HeaderValue>,
    method: Option<&str>,
    query: Option<&str>,
) -> (r: bool)
    ensures
        r == fits(
            resolved.route,
            opt_text(resolved.wildcard_suffix),
            (Asked {
                path: path@,
                host: opt_view(host),
                lines: header_lines(*req_headers),
                method: opt_view(method),
                query: opt_view(query),
            }),
            route_verdict(resolved.route, path@),
        ),
{
    let verdict: Option<bool> = match &resolved.route.path_regex {
        Some(pattern) => regex_matches(pattern.as_str(), path),
        None => None,
    };
    route_matches_with(resolved, path, host, req_headers, method, query, verdict)
}

fn count_constraints(route: &Route) -> (r: u128)
    ensures
        r == constraints(*route),
{
    let host: u128 = if route.host.is_some() {
        1
    } else {
        0
    };
    let headers: u128 = match &route.headers {
        Some(map) => map.len() as u128,
        None => 0,
    };
    let methods: u128 = match &route.methods {
        Some(m) => if m.len() > 0 {
            1
        } else {
            0
        },
        None => 0,
    };
    host + headers + methods
}

/// The better of the best match so far and a route that matches too. At equal
/// rank the earlier one stays.
pub fn update_best_match<'a>(
    best: Option<(usize, u128, &'a Route)>,
    route: &'a Route,
) -> (r: Option<(usize, u128, &'a Route)>)
    ensures
        match best {
            Some((s, c, _)) => if specificity(*route) > s || (specificity(*route) == s
                && constraints(*route) > c) {
                r == Some((specificity(*route) as usize, constraints(*route) as u128, route))
            } else {
                r == best
            },
            None => r == Some((specificity(*route) as usize, constraints(*route) as u128, route)),
        },
        specificity(*route) <= usize::MAX,
        constraints(*route) <= u128::MAX,
{
    let s: usize = path_specificity(route);
    let c: u128 = count_constraints(route);
    match best {
        Some((bs, bc, _)) => if s > bs || (s == bs && c > bc) {
            Some((s, c, route))
        } else {
            best
        },
        None => Some((s, c, route)),
    }
}

/// Whether no route that follows, in order of falling specificity, can improve
/// on the best match. Exact paths and regular expressions never end the search.
pub fn should_stop_early(best: Option<(usize, u128, &Route)>, route: &Route) -> (r: bool)
    ensures
        r == (route.path_exact is None && route.path_regex is None && match best {
            Some((s, _, _)) => specificity(*route) < s,
            None => false,
        }),
{
    if route.path_exact.is_some() || route.path_regex.is_some() {
        return false;
    }
    match best {
        Some((s, _, _)) => path_specificity(route) < s,
        None => false,
    }
}

} // verus!
