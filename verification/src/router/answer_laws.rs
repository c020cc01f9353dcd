//! What becomes of a routed request: what is answered in place of forwarding it,
//! and what is forwarded.

use vstd::prelude::*;

use crate::action::Action;
use crate::header_rules::{is_header_name, is_header_value};
use crate::number::decimal;
use crate::request::{text_at, values_at, HttpFilterContext, PendingRequestHeaderOp, Request};
use crate::route::{HeaderNameValue, RedirectAction, RequestHeaderModifier, Route, RouteCorsPolicy};
use crate::router::cors::{allows_origin, entry_allows, preflight, preflight_headers, response_headers};
use crate::router::filter::{asked_of, expanded, forwarded, header_ops, host_of, modifier_error, names_error, own_answer, pairs_error, path_after, query_of, query_suffix, redirect_location, route_error, routes_error, unrouted, RouterError};
use crate::text::{join, lower, replace, stripped, trim_end, views};
use crate::text_laws::{law_replace_at_start, law_replace_behind, law_stripped, law_trim_end};

verus! {

/// A route whose backend does not exist answers 500, and a gRPC route that its
/// method is not implemented. No other route answers so by itself.
pub proof fn law_missing_backend(route: Route, request: Request)
    ensures
        route.invalid_backend_ref && !route.grpc_route ==> own_answer(route, request) == Some(
            Action::Reject(500, Seq::empty()),
        ),
        route.invalid_backend_ref && route.grpc_route ==> (own_answer(route, request) matches Some(
            Action::Reject(status, headers),
        ) && status == 200 && headers.len() == 3 && headers[0] == ("content-type"@, "application/grpc"@)
            && headers[1] == ("grpc-status"@, "12"@) && headers[2] == ("grpc-message"@, "unimplemented"@)),
        !route.invalid_backend_ref && route.cors is None && route.redirect is None ==> own_answer(
            route,
            request,
        ) is None,
{
}

/// A request that no route takes is answered 404; a gRPC request is told that
/// its method is not implemented.
pub proof fn law_unrouted_request(request: Request, rest: Seq<char>)
    ensures
        text_at(request.lines(), "content-type"@) is None ==> unrouted(request) == Action::Reject(
            404,
            Seq::empty(),
        ),
        text_at(request.lines(), "content-type"@) == Some("application/grpc"@ + rest) ==> (unrouted(
            request,
        ) matches Action::Reject(status, headers) && status == 200 && headers.len() == 3 && headers[1]
            == ("grpc-status"@, "12"@)),
        (text_at(request.lines(), "content-type"@) matches Some(t) ==> !"application/grpc"@.is_prefix_of(t))
            ==> unrouted(request) == Action::Reject(404, Seq::empty()),
{
    let grpc = "application/grpc"@;
    assert((grpc + rest).subrange(0, grpc.len() as int) =~= grpc);
}

/// A redirect is answered with its status and the location that it leads to.
pub proof fn law_redirect_is_answered(route: Route, request: Request)
    requires
        !route.invalid_backend_ref,
        route.cors is None,
        route.redirect is Some,
    ensures
        own_answer(route, request) matches Some(Action::Reject(status, headers)) && status
            == route.redirect->0.status && headers.len() == 1 && headers[0].0 == "Location"@
            && headers[0].1 == redirect_location(route.redirect->0, route.path_prefix@, request),
{
}

/// Whether a text holds no dollar sign, with which the names in a template start.
pub open spec fn is_literal(s: Seq<char>) -> bool {
    forall|k: int| 0 <= k < s.len() ==> #[trigger] s[k] != '$'
}

proof fn lemma_literal(s: Seq<char>, pattern: Seq<char>, with: Seq<char>)
    requires
        is_literal(s),
        pattern.len() > 0,
        pattern[0] == '$',
    ensures
        replace(s, pattern, with) == s,
{
    law_replace_behind(s, pattern, with, Seq::empty());
    assert(s + Seq::<char>::empty() =~= s);
    assert(s + replace(Seq::<char>::empty(), pattern, with) =~= s);
}

/// Another name in a template stays as it is.
proof fn lemma_other_name(name: Seq<char>, pattern: Seq<char>, with: Seq<char>, rest: Seq<char>, d: int)
    requires
        name.len() > 0,
        name[0] == '$',
        is_literal(name.skip(1)),
        0 <= d < name.len(),
        d < pattern.len(),
        pattern[0] == '$',
        name[d] != pattern[d],
    ensures
        replace(name + rest, pattern, with) == name + replace(rest, pattern, with),
{
    let all = name + rest;
    assert(!pattern.is_prefix_of(all)) by {
        if pattern.is_prefix_of(all) {
            assert(pattern[d] == all.subrange(0, pattern.len() as int)[d]);
            assert(all[d] == name[d]);
        }
    }
    let tail = name.skip(1);
    assert(all.skip(1) =~= tail + rest);
    assert forall|k: int| 0 <= k < tail.len() implies #[trigger] tail[k] != pattern[0] by {}
    law_replace_behind(tail, pattern, with, rest);
    assert(replace(all, pattern, with) =~= name + replace(rest, pattern, with));
}

spec fn scheme_name() -> Seq<char> {
    seq!['$', '{', 's', 'c', 'h', 'e', 'm', 'e', '}']
}

spec fn host_name() -> Seq<char> {
    seq!['$', '{', 'h', 'o', 's', 't', '}']
}

spec fn path_name() -> Seq<char> {
    seq!['$', '{', 'p', 'a', 't', 'h', '}']
}

spec fn query_name() -> Seq<char> {
    seq!['$', '{', 'q', 'u', 'e', 'r', 'y', '}']
}

spec fn suffix_name() -> Seq<char> {
    seq!['$', '{', 'p', 'a', 't', 'h', '_', 's', 'u', 'f', 'f', 'i', 'x', '}']
}

proof fn lemma_names()
    ensures
        "${scheme}"@ == scheme_name(),
        "${host}"@ == host_name(),
        "${path}"@ == path_name(),
        "${query}"@ == query_name(),
        "${path_suffix}"@ == suffix_name(),
        "?"@ == seq!['?'],
        is_literal(scheme_name().skip(1)),
        is_literal(host_name().skip(1)),
        is_literal(path_name().skip(1)),
        is_literal(query_name().skip(1)),
        is_literal(suffix_name().skip(1)),
{
    reveal_strlit("${scheme}");
    reveal_strlit("${host}");
    reveal_strlit("${path}");
    reveal_strlit("${query}");
    reveal_strlit("${path_suffix}");
    reveal_strlit("?");
    assert("${scheme}"@ =~= scheme_name());
    assert("${host}"@ =~= host_name());
    assert("${path}"@ =~= path_name());
    assert("${query}"@ =~= query_name());
    assert("${path_suffix}"@ =~= suffix_name());
    assert("?"@ =~= seq!['?']);
}

/// `${path}` in a template stands for the path, and `${query}` for a question
/// mark and the query, or for nothing where there is none. The rest stays.
pub proof fn law_template_is_filled(front: Seq<char>, path: Seq<char>, query: Seq<char>)
    requires
        is_literal(front),
        is_literal(path),
    ensures
        expanded(front, path, Some(query)) == front,
        expanded(front + "${path}"@ + "${query}"@, path, Some(query)) == front + path + seq!['?'] + query,
        expanded(front + "${path}"@ + "${query}"@, path, None) == front + path,
{
    lemma_names();
    let (p, q) = (path_name(), query_name());
    let none = Seq::<char>::empty();
    lemma_literal(front, p, path);
    lemma_literal(front, q, seq!['?'] + query);
    assert(front + p + q =~= front + (p + q));
    assert forall|k: int| 0 <= k < front.len() implies #[trigger] front[k] != p[0] by {}
    law_replace_behind(front, p, path, p + q);
    law_replace_at_start(p, path, q);
    assert(q + none =~= q);
    lemma_other_name(q, p, path, none, 2);
    assert(q + replace(none, p, path) =~= q);
    let once = front + (path + q);
    assert(once =~= (front + path) + q);
    assert(is_literal(front + path));
    law_replace_behind(front + path, q, seq!['?'] + query, q);
    law_replace_behind(front + path, q, none, q);
    law_replace_at_start(q, seq!['?'] + query, none);
    law_replace_at_start(q, none, none);
    assert(replace(q, q, seq!['?'] + query) =~= seq!['?'] + query);
    assert(replace(q, q, none) =~= none);
    assert(front + path + (seq!['?'] + query) =~= front + path + seq!['?'] + query);
    assert(front + path + none =~= front + path);
}

/// A redirect to the same path elsewhere leads to the scheme and the host of the
/// template, or those of the request where it names them.
pub proof fn law_redirect_location(
    redirect: RedirectAction,
    prefix: Seq<char>,
    request: Request,
    front: Seq<char>,
    middle: Seq<char>,
    back: Seq<char>,
    host: Seq<char>,
)
    requires
        is_literal(front),
        is_literal(middle),
        is_literal(back),
        is_literal(host),
        is_literal(request.uri.path@),
        request.uri.scheme matches Some(scheme) && is_literal(scheme@),
        host_of(request) == Some(host),
        request.uri.query is None,
    ensures
        redirect.location@ == front ==> redirect_location(redirect, prefix, request) == front,
        redirect.location@ == front + "${scheme}"@ + middle + "${host}"@ + back + "${path}"@
            ==> redirect_location(redirect, prefix, request) == front + request.uri.scheme->0@ + middle
            + host + back + request.uri.path@,
{
    lemma_names();
    let scheme = request.uri.scheme->0@;
    let path = request.uri.path@;
    let suffix = match stripped(path, prefix) {
        Some(suffix) => suffix,
        None => Seq::empty(),
    };
    let (s, h, p, q, x) = (scheme_name(), host_name(), path_name(), query_name(), suffix_name());
    let none = Seq::<char>::empty();
    lemma_literal(front, s, scheme);
    lemma_literal(front, h, host);
    lemma_literal(front, x, suffix);
    lemma_literal(front, p, path);
    lemma_literal(front, q, none);
    // The scheme.
    let tail = middle + (h + (back + p));
    assert(front + s + middle + h + back + p =~= front + (s + tail));
    law_replace_behind(front, s, scheme, s + tail);
    law_replace_at_start(s, scheme, tail);
    law_replace_behind(middle, s, scheme, h + (back + p));
    lemma_other_name(h, s, scheme, back + p, 2);
    law_replace_behind(back, s, scheme, p);
    assert(p + none =~= p);
    lemma_other_name(p, s, scheme, none, 2);
    assert(p + replace(none, s, scheme) =~= p);
    let one = front + (scheme + tail);
    // The host.
    let lead = front + scheme + middle;
    assert(one =~= lead + (h + (back + p)));
    assert(is_literal(lead));
    law_replace_behind(lead, h, host, h + (back + p));
    law_replace_at_start(h, host, back + p);
    law_replace_behind(back, h, host, p);
    lemma_other_name(p, h, host, none, 2);
    assert(p + replace(none, h, host) =~= p);
    let two = lead + (host + (back + p));
    // The rest of the path.
    let most = lead + host + back;
    assert(two =~= most + p);
    assert(is_literal(most));
    law_replace_behind(most, x, suffix, p);
    lemma_other_name(p, x, suffix, none, 6);
    assert(p + replace(none, x, suffix) =~= p);
    // The path and the query.
    law_replace_behind(most, p, path, p);
    law_replace_at_start(p, path, none);
    assert(replace(p, p, path) =~= path);
    assert(is_literal(most + path));
    lemma_literal(most + path, q, none);
}

/// `${path_suffix}` stands for what follows the route's prefix in the path.
pub proof fn law_redirect_keeps_suffix(
    redirect: RedirectAction,
    prefix: Seq<char>,
    request: Request,
    front: Seq<char>,
    suffix: Seq<char>,
)
    requires
        is_literal(front),
        is_literal(suffix),
        request.uri.path@ == prefix + suffix,
        redirect.location@ == front + "${path_suffix}"@,
    ensures
        redirect_location(redirect, prefix, request) == front + suffix,
{
    lemma_names();
    law_stripped(request.uri.path@, prefix, suffix);
    let scheme = match request.uri.scheme {
        Some(scheme) => scheme@,
        None => "http"@,
    };
    let host = match host_of(request) {
        Some(host) => host,
        None => Seq::empty(),
    };
    let (s, h, p, q, x) = (scheme_name(), host_name(), path_name(), query_name(), suffix_name());
    let none = Seq::<char>::empty();
    assert(x + none =~= x);
    law_replace_behind(front, s, scheme, x);
    lemma_other_name(x, s, scheme, none, 2);
    assert(x + replace(none, s, scheme) =~= x);
    law_replace_behind(front, h, host, x);
    lemma_other_name(x, h, host, none, 2);
    assert(x + replace(none, h, host) =~= x);
    law_replace_behind(front, x, suffix, x);
    law_replace_at_start(x, suffix, none);
    assert(replace(x, x, suffix) =~= suffix);
    assert(is_literal(front + suffix));
    lemma_literal(front + suffix, p, request.uri.path@);
    lemma_literal(front + suffix, q, query_suffix(query_of(request)));
}

/// A forwarded request goes to the cluster of its route, with the host and the
/// timeout that the route sets.
pub proof fn law_forwarded(route: Route, before: HttpFilterContext<'_>, after: HttpFilterContext<'_>)
    requires
        forwarded(route, before, after),
    ensures
        after.cluster == Some(route.cluster),
        after.request == before.request,
        route.url_rewrite_hostname is Some ==> after.rewritten_host == route.url_rewrite_hostname,
        route.url_rewrite_hostname is None ==> after.rewritten_host == before.rewritten_host,
        route.request_timeout_ms > 0 ==> after.request_timeout_ms == Some(route.request_timeout_ms),
        route.request_timeout_ms == 0 ==> after.request_timeout_ms == before.request_timeout_ms,
        before.pending_request_header_ops@.is_prefix_of(after.pending_request_header_ops@),
        route.request_header_modifier is None ==> after.pending_request_header_ops@
            == before.pending_request_header_ops@,
{
}

/// A rewrite of the whole path gives that path; one of the prefix puts another
/// prefix in the place of the route's, and keeps what follows it.
pub proof fn law_path_rewrite(route: Route, before: Option<Seq<char>>, path: Seq<char>, rest: Seq<char>)
    ensures
        route.url_rewrite_path_full matches Some(full) ==> path_after(route, before, path) == Some(full@),
        route.url_rewrite_path_full is None ==> (route.url_rewrite_path_prefix matches Some(prefix) ==> path_after(
            route,
            before,
            route.path_prefix@ + rest,
        ) == Some(prefix@ + rest)),
        route.url_rewrite_path_full is None && route.url_rewrite_path_prefix is None ==> path_after(
            route,
            before,
            path,
        ) == before,
{
    law_stripped(path, route.path_prefix@, rest);
}

/// The prefix of a route without its slash at the end is rewritten too.
pub proof fn law_bare_prefix_rewrite(route: Route, before: Option<Seq<char>>, bare: Seq<char>)
    requires
        route.url_rewrite_path_full is None,
        route.path_prefix@ == bare.push('/'),
        bare.len() > 0 ==> bare.last() != '/',
    ensures
        route.url_rewrite_path_prefix matches Some(prefix) ==> path_after(route, before, bare) == Some(prefix@),
{
    law_trim_end(bare, '/');
    assert(trim_end(bare, '/') == bare);
}

/// Headers are removed first, then set, then added, each list in its order.
pub proof fn law_header_changes_in_order(m: RequestHeaderModifier, k: int)
    ensures
        header_ops(m).len() == m.remove@.len() + m.set@.len() + m.add@.len(),
        0 <= k < m.remove@.len() ==> header_ops(m)[k] == PendingRequestHeaderOp::RemoveHeader(m.remove@[k]),
        0 <= k < m.set@.len() ==> header_ops(m)[m.remove@.len() + k] == PendingRequestHeaderOp::SetHeader(
            m.set@[k].name,
            m.set@[k].value,
        ),
        0 <= k < m.add@.len() ==> header_ops(m)[m.remove@.len() + m.set@.len() + k]
            == PendingRequestHeaderOp::AddHeader(m.add@[k].name, m.add@[k].value),
{
}

/// What a request asks for: the rewritten path where one is set, and the host
/// of its header before that of its URI.
pub proof fn law_what_is_asked(ctx: HttpFilterContext<'_>)
    ensures
        ctx.rewritten_path matches Some(path) ==> asked_of(ctx).path == path@,
        ctx.rewritten_path is None ==> asked_of(ctx).path == ctx.request.uri.path@,
        asked_of(ctx).method == Some(ctx.request.method@),
        asked_of(ctx).lines == ctx.request.lines(),
        ctx.request.uri.query matches Some(q) ==> asked_of(ctx).query == Some(q@),
        ctx.request.uri.query is None ==> asked_of(ctx).query is None,
        text_at(ctx.request.lines(), "host"@) is Some ==> asked_of(ctx).host == text_at(
            ctx.request.lines(),
            "host"@,
        ),
        text_at(ctx.request.lines(), "host"@) is None ==> (ctx.request.uri.authority matches Some(a) ==> asked_of(
            ctx,
        ).host == Some(a@)),
{
}

/// The first value of a header counts, and the letter case of its name does not.
pub proof fn law_header_text(
    lines: Map<Seq<char>, Seq<Option<Seq<char>>>>,
    name: Seq<char>,
    other: Seq<char>,
    values: Seq<Option<Seq<char>>>,
)
    requires
        lines.contains_key(lower(name)),
        lines[lower(name)] == values,
    ensures
        values.len() > 0 ==> text_at(lines, name) == values[0],
        values.len() == 0 ==> text_at(lines, name) is None,
        lower(other) == lower(name) ==> text_at(lines, other) == text_at(lines, name) && values_at(
            lines,
            other,
        ) == values,
{
}

/// A table is accepted exactly where each header that a route changes may stand
/// in a request.
pub proof fn law_table_accepted(routes: Seq<Route>, i: int)
    requires
        0 <= i <= routes.len(),
    ensures
        routes_error(routes, i) is None <==> forall|k: int|
            i <= k < routes.len() ==> ((#[trigger] routes[k]).request_header_modifier matches Some(m)
                ==> changes_allowed(m)),
    decreases routes.len() - i,
{
    if i < routes.len() {
        law_table_accepted(routes, i + 1);
        if let Some(m) = routes[i].request_header_modifier {
            lemma_changes_allowed(m);
        }
        if routes_error(routes, i) is None {
            assert forall|k: int| i <= k < routes.len() implies ((
            #[trigger] routes[k]).request_header_modifier matches Some(m) ==> changes_allowed(m)) by {}
        }
    }
}

/// Whether each header that is changed may stand in a request.
pub open spec fn changes_allowed(m: RequestHeaderModifier) -> bool {
    &&& forall|k: int|
        0 <= k < m.set@.len() ==> is_header_name((#[trigger] m.set@[k]).name@) && is_header_value(
            m.set@[k].value@,
        )
    &&& forall|k: int|
        0 <= k < m.add@.len() ==> is_header_name((#[trigger] m.add@[k]).name@) && is_header_value(
            m.add@[k].value@,
        )
    &&& forall|k: int| 0 <= k < m.remove@.len() ==> is_header_name((#[trigger] m.remove@[k])@)
}

proof fn lemma_changes_allowed(m: RequestHeaderModifier)
    ensures
        modifier_error(m) is None <==> changes_allowed(m),
{
    lemma_pairs_allowed(m.set@, 0);
    lemma_pairs_allowed(m.add@, 0);
    lemma_names_allowed(m.remove@, 0);
}

proof fn lemma_pairs_allowed(headers: Seq<HeaderNameValue>, i: int)
    requires
        0 <= i <= headers.len(),
    ensures
        pairs_error(headers, i) is None <==> forall|k: int|
            i <= k < headers.len() ==> is_header_name((#[trigger] headers[k]).name@) && is_header_value(
                headers[k].value@,
            ),
    decreases headers.len() - i,
{
    if i < headers.len() {
        lemma_pairs_allowed(headers, i + 1);
    }
}

proof fn lemma_names_allowed(names: Seq<String>, i: int)
    requires
        0 <= i <= names.len(),
    ensures
        names_error(names, i) is None <==> forall|k: int|
            i <= k < names.len() ==> is_header_name((#[trigger] names[k])@),
    decreases names.len() - i,
{
    if i < names.len() {
        lemma_names_allowed(names, i + 1);
    }
}

/// A star allows every origin, a star and a dot each origin that ends so behind
/// something else, and any other entry itself alone.
pub proof fn law_allowed_origins(entry: Seq<char>, origin: Seq<char>, front: Seq<char>, tail: Seq<char>)
    ensures
        entry_allows(seq!['*'], origin),
        entry_allows(origin, origin),
        front.len() > 0 ==> entry_allows(seq!['*', '.'] + tail, front + seq!['.'] + tail),
        tail.len() > 0 ==> !entry_allows(seq!['*', '.'] + tail, seq!['.'] + tail),
        entry.len() > 0 && entry[0] != '*' && entry != origin ==> !entry_allows(entry, origin),
{
    reveal_strlit("*");
    reveal_strlit("*.");
    assert("*"@ =~= seq!['*']);
    assert("*."@ =~= seq!['*', '.']);
    let wide = seq!['*', '.'] + tail;
    let dotted = seq!['.'] + tail;
    assert(wide.subrange(0, 2) =~= seq!['*', '.']);
    law_stripped(wide, "*"@, dotted);
    assert(wide =~= "*"@ + dotted);
    let long = front + seq!['.'] + tail;
    assert(long.subrange(long.len() - dotted.len(), long.len() as int) =~= dotted);
    assert(wide[0] == '*' && dotted[0] == '.');
    assert(wide != dotted);
    assert(wide.len() > 2 || tail.len() == 0);
    if "*."@.is_prefix_of(entry) {
        assert(entry.subrange(0, 2)[0] == '*');
    }
}

/// An allowed origin is told the origin, the methods and how long the answer
/// holds, and the headers where the policy names some. Credentials are allowed
/// where the policy says so, and never together with every origin by its star.
pub proof fn law_preflight_headers(policy: RouteCorsPolicy, origin: Seq<char>)
    requires
        allows_origin(policy, origin),
    ensures
        ({
            let headers = preflight_headers(policy, origin);
            &&& headers.len() > 0 && headers[0].0 == "Access-Control-Allow-Origin"@
            &&& headers[0].1 == "*"@ || headers[0].1 == origin
            &&& policy.allow_credentials ==> headers[0].1 == origin && headers[1] == (
                "Access-Control-Allow-Credentials"@,
                "true"@,
            )
            &&& headers.last() == ("Access-Control-Max-Age"@, decimal(policy.max_age as nat))
            &&& policy.allow_methods@.len() > 0 ==> headers.contains(
                ("Access-Control-Allow-Methods"@, join(views(policy.allow_methods@), ", "@)),
            )
            &&& policy.allow_headers@.len() > 0 ==> headers.contains(
                ("Access-Control-Allow-Headers"@, join(views(policy.allow_headers@), ", "@)),
            )
        }),
{
    let headers = preflight_headers(policy, origin);
    let n = if policy.allow_credentials {
        2int
    } else {
        1int
    };
    if policy.allow_methods@.len() > 0 {
        assert(headers[n] == ("Access-Control-Allow-Methods"@, join(views(policy.allow_methods@), ", "@)));
    }
    if policy.allow_headers@.len() > 0 {
        assert(headers[n + 1] == (
            "Access-Control-Allow-Headers"@,
            join(views(policy.allow_headers@), ", "@),
        ));
    }
}

/// A preflight request is one with the method OPTIONS, an origin and a method
/// that it asks for; it is answered 204.
pub proof fn law_preflight(policy: RouteCorsPolicy, request: Request)
    ensures
        preflight(policy, request) is Some <==> request.method@ == "OPTIONS"@ && text_at(
            request.lines(),
            "origin"@,
        ) is Some && text_at(request.lines(), "access-control-request-method"@) is Some,
        preflight(policy, request) matches Some(answer) ==> (answer matches Action::Reject(status, headers)
            && status == 204 && headers == preflight_headers(
            policy,
            text_at(request.lines(), "origin"@)->0,
        )),
{
}

/// The response to an allowed origin names it, and the headers that the policy
/// exposes.
pub proof fn law_response_headers(policy: RouteCorsPolicy, request: Request, origin: Seq<char>)
    requires
        text_at(request.lines(), "origin"@) == Some(origin),
        allows_origin(policy, origin),
    ensures
        ({
            let headers = response_headers(policy, request);
            &&& headers.len() > 0 && headers[0].0 == "Access-Control-Allow-Origin"@
            &&& headers[0].1 == "*"@ || headers[0].1 == origin
            &&& policy.allow_credentials ==> headers[0].1 == origin && headers[1] == (
                "Access-Control-Allow-Credentials"@,
                "true"@,
            )
            &&& policy.expose_headers@.len() > 0 ==> headers.last() == (
                "Access-Control-Expose-Headers"@,
                join(views(policy.expose_headers@), ", "@),
            )
        }),
{
}

/// Without credentials, a policy that allows every origin names a star; in any
/// other case the client's own origin is named.
pub proof fn law_named_origin(policy: RouteCorsPolicy, origin: Seq<char>, k: int)
    requires
        allows_origin(policy, origin),
    ensures
        !policy.allow_credentials && 0 <= k < policy.allow_origins@.len() && policy.allow_origins@[k]@
            == "*"@ ==> preflight_headers(policy, origin)[0].1 == "*"@,
        (forall|i: int| 0 <= i < policy.allow_origins@.len() ==> (#[trigger] policy.allow_origins@[i])@ != "*"@)
            ==> preflight_headers(policy, origin)[0].1 == origin,
{
}

/// The headers of a route's response are those that the route changes, or else
/// those changed before it, with the cross-origin headers set behind them.
pub proof fn law_response_changes(route: Route, before: HttpFilterContext<'_>, after: HttpFilterContext<'_>)
    requires
        forwarded(route, before, after),
    ensures
        route.cors is None && route.response_header_modifier is None ==> after.response_header_modifier
            == before.response_header_modifier,
        route.cors is None ==> (route.response_header_modifier matches Some(m) ==> (
        after.response_header_modifier matches Some(n) && n@ == m@)),
        route.cors matches Some(policy) ==> response_headers(policy, *before.request).len() > 0 ==> {
            &&& after.response_header_modifier is Some
            &&& response_headers(policy, *before.request).is_suffix_of(after.response_header_modifier->0@.set)
            &&& route.response_header_modifier matches Some(m) ==> m@.set.is_prefix_of(
                after.response_header_modifier->0@.set,
            ) && after.response_header_modifier->0@.add == m@.add
                && after.response_header_modifier->0@.remove == m@.remove
        },
{
    if let Some(policy) = route.cors {
        let headers = response_headers(policy, *before.request);
        if headers.len() > 0 {
            let set = after.response_header_modifier->0@.set;
            assert(set.subrange(set.len() - headers.len(), set.len() as int) =~= headers);
            if let Some(m) = route.response_header_modifier {
                assert(set.subrange(0, m@.set.len() as int) =~= m@.set);
            }
        }
    }
}

/// A redirect to a fixed place with `${path}${query}` behind it keeps path and
/// query of the request.
pub proof fn law_redirect_keeps_path_and_query(
    redirect: RedirectAction,
    prefix: Seq<char>,
    request: Request,
    front: Seq<char>,
)
    requires
        is_literal(front),
        is_literal(request.uri.path@),
        redirect.location@ == front + "${path}"@ + "${query}"@,
    ensures
        request.uri.query matches Some(q) ==> redirect_location(redirect, prefix, request) == front
            + request.uri.path@ + seq!['?'] + q@,
        request.uri.query is None ==> redirect_location(redirect, prefix, request) == front
            + request.uri.path@,
{
    lemma_names();
    let scheme = match request.uri.scheme {
        Some(scheme) => scheme@,
        None => "http"@,
    };
    let host = match host_of(request) {
        Some(host) => host,
        None => Seq::empty(),
    };
    let suffix = match stripped(request.uri.path@, prefix) {
        Some(suffix) => suffix,
        None => Seq::empty(),
    };
    let (s, h, p, q, x) = (scheme_name(), host_name(), path_name(), query_name(), suffix_name());
    let none = Seq::<char>::empty();
    let text = redirect.location@;
    assert(text =~= front + (p + q));
    assert(q + none =~= q);
    law_replace_behind(front, s, scheme, p + q);
    lemma_other_name(p, s, scheme, q, 2);
    lemma_other_name(q, s, scheme, none, 2);
    assert(q + replace(none, s, scheme) =~= q);
    law_replace_behind(front, h, host, p + q);
    lemma_other_name(p, h, host, q, 2);
    lemma_other_name(q, h, host, none, 2);
    assert(q + replace(none, h, host) =~= q);
    law_replace_behind(front, x, suffix, p + q);
    lemma_other_name(p, x, suffix, q, 6);
    lemma_other_name(q, x, suffix, none, 2);
    assert(q + replace(none, x, suffix) =~= q);
    match request.uri.query {
        Some(t) => {
            law_template_is_filled(front, request.uri.path@, t@);
        },
        None => {
            law_template_is_filled(front, request.uri.path@, none);
        },
    }
}

/// A request without a scheme is redirected to `http`, and one without a host to
/// no host.
pub proof fn law_redirect_defaults(redirect: RedirectAction, prefix: Seq<char>, request: Request, back: Seq<char>)
    requires
        is_literal(back),
        request.uri.scheme is None,
        host_of(request) is None,
        redirect.location@ == "${scheme}"@ + "${host}"@ + back,
    ensures
        redirect_location(redirect, prefix, request) == seq!['h', 't', 't', 'p'] + back,
{
    lemma_names();
    reveal_strlit("http");
    let scheme = "http"@;
    assert(scheme =~= seq!['h', 't', 't', 'p']);
    let suffix = match stripped(request.uri.path@, prefix) {
        Some(suffix) => suffix,
        None => Seq::empty(),
    };
    let (s, h, p, q, x) = (scheme_name(), host_name(), path_name(), query_name(), suffix_name());
    let none = Seq::<char>::empty();
    assert(redirect.location@ =~= s + (h + back));
    law_replace_at_start(s, scheme, h + back);
    lemma_other_name(h, s, scheme, back, 2);
    lemma_literal(back, s, scheme);
    assert(is_literal(scheme));
    law_replace_behind(scheme, h, none, h + back);
    law_replace_at_start(h, none, back);
    lemma_literal(back, h, none);
    assert(none + back =~= back);
    assert(is_literal(scheme + back));
    lemma_literal(scheme + back, x, suffix);
    lemma_literal(scheme + back, p, request.uri.path@);
    lemma_literal(scheme + back, q, query_suffix(query_of(request)));
}

/// A preflight request is answered before a redirect, and a redirect carries the
/// cross-origin headers behind its location.
pub proof fn law_preflight_before_redirect(route: Route, request: Request, policy: RouteCorsPolicy)
    requires
        !route.invalid_backend_ref,
        route.cors == Some(policy),
        route.redirect is Some,
    ensures
        preflight(policy, request) is Some ==> own_answer(route, request) == preflight(policy, request),
        preflight(policy, request) is None ==> (own_answer(route, request) matches Some(
            Action::Reject(status, headers),
        ) && status == route.redirect->0.status && headers.len() == 1 + response_headers(policy, request).len()
            && headers[0].0 == "Location"@ && headers.skip(1) == response_headers(policy, request)),
{
    if preflight(policy, request) is None {
        let answer = own_answer(route, request)->0;
        assert(answer->Reject_1.skip(1) =~= response_headers(policy, request));
    }
}

/// A policy that names no methods allows the simple ones.
pub proof fn law_default_methods(policy: RouteCorsPolicy, origin: Seq<char>)
    requires
        allows_origin(policy, origin),
        policy.allow_methods@.len() == 0,
    ensures
        preflight_headers(policy, origin).contains(("Access-Control-Allow-Methods"@, "GET, HEAD, POST"@)),
{
    let headers = preflight_headers(policy, origin);
    let n = if policy.allow_credentials {
        2int
    } else {
        1int
    };
    assert(headers[n] == ("Access-Control-Allow-Methods"@, "GET, HEAD, POST"@));
}

/// The first changed header that is refused decides the error: its name where
/// that is no header name, else its value.
pub proof fn law_refused_header(headers: Seq<HeaderNameValue>, i: int, k: int)
    requires
        0 <= i <= k < headers.len(),
        forall|j: int|
            i <= j < k ==> is_header_name((#[trigger] headers[j]).name@) && is_header_value(headers[j].value@),
    ensures
        !is_header_name(headers[k].name@) ==> pairs_error(headers, i) == Some(
            RouterError::InvalidHeaderName(headers[k].name),
        ),
        is_header_name(headers[k].name@) && !is_header_value(headers[k].value@) ==> pairs_error(headers, i)
            == Some(RouterError::InvalidHeaderValue(headers[k].name)),
    decreases k - i,
{
    if i < k {
        assert(is_header_name(headers[i].name@));
        law_refused_header(headers, i + 1, k);
    }
}

/// The first removed header that is refused decides the error.
pub proof fn law_refused_removal(names: Seq<String>, i: int, k: int)
    requires
        0 <= i <= k < names.len(),
        forall|j: int| i <= j < k ==> is_header_name((#[trigger] names[j])@),
        !is_header_name(names[k]@),
    ensures
        names_error(names, i) == Some(RouterError::InvalidRemoveName(names[k])),
    decreases k - i,
{
    if i < k {
        assert(is_header_name(names[i]@));
        law_refused_removal(names, i + 1, k);
    }
}

/// Headers that are set are looked at first, then those that are added, then
/// those that are removed. A route that changes no header is not refused.
pub proof fn law_refused_modifier(route: Route, m: RequestHeaderModifier)
    ensures
        route.request_header_modifier is None ==> route_error(route) is None,
        route.request_header_modifier == Some(m) ==> {
            &&& pairs_error(m.set@, 0) is Some ==> route_error(route) == pairs_error(m.set@, 0)
            &&& pairs_error(m.set@, 0) is None && pairs_error(m.add@, 0) is Some ==> route_error(route)
                == pairs_error(m.add@, 0)
            &&& pairs_error(m.set@, 0) is None && pairs_error(m.add@, 0) is None ==> route_error(route)
                == names_error(m.remove@, 0)
        },
{
}

/// The first route that is refused decides the error of a table.
pub proof fn law_refused_route(routes: Seq<Route>, i: int, k: int)
    requires
        0 <= i <= k < routes.len(),
        forall|j: int| i <= j < k ==> route_error(#[trigger] routes[j]) is None,
        route_error(routes[k]) is Some,
    ensures
        routes_error(routes, i) == route_error(routes[k]),
    decreases k - i,
{
    if i < k {
        assert(route_error(routes[i]) is None);
        law_refused_route(routes, i + 1, k);
    }
}

} // verus!
