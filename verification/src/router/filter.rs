//! The router: a table of routes, and what becomes of a request.

use vstd::prelude::*;

use crate::action::{header_views, rejects, Action, FilterAction, Rejection};
use crate::header_rules::{is_header_name, is_header_value, valid_header_name, valid_header_value};
use crate::request::{header_lines, header_text, text_at, HttpFilterContext, PendingRequestHeaderOp, Request};
use crate::route::{named_values, HeaderChanges, HeaderNameValue, RedirectAction, RequestHeaderModifier, Route};
use crate::router::cors::{answer_preflight, headers_of_response, preflight, response_headers};
use crate::router::matching::{constraints, outranks, path_specificity, route_matches, route_matches_request, should_stop_early, specificity, update_best_match, Asked, ResolvedRoute};
use crate::text::{concat, concat3, opt_text, opt_view, replace, replace_text, same_text, starts_with, strip_prefix, stripped, trim_end, trim_end_char};

verus! {

/// Why a route table is refused.
#[derive(Debug)]
pub enum RouterError {
    /// The name of a header to set or to add is not a header name.
    InvalidHeaderName(String),
    /// The value of a header to set or to add, of this name, is not a value.
    InvalidHeaderValue(String),
    /// The name of a header to remove is not a header name.
    InvalidRemoveName(String),
}

impl RouterError {
    pub open spec fn text(self) -> Seq<char> {
        match self {
            RouterError::InvalidHeaderName(name) => "router: invalid request_header_modifier header name '"@
                + name@ + "'"@,
            RouterError::InvalidHeaderValue(name) => "router: invalid request_header_modifier value for '"@
                + name@ + "'"@,
            RouterError::InvalidRemoveName(name) => "router: invalid request_header_modifier remove name '"@
                + name@ + "'"@,
        }
    }

    /// The message of this error.
    pub fn message(&self) -> (r: String)
        ensures
            r@ == self.text(),
    {
        match self {
            RouterError::InvalidHeaderName(name) => concat3(
                "router: invalid request_header_modifier header name '",
                name.as_str(),
                "'",
            ),
            RouterError::InvalidHeaderValue(name) => concat3(
                "router: invalid request_header_modifier value for '",
                name.as_str(),
                "'",
            ),
            RouterError::InvalidRemoveName(name) => concat3(
                "router: invalid request_header_modifier remove name '",
                name.as_str(),
                "'",
            ),
        }
    }
}

/// What is wrong with the headers of a list, from `i` on.
pub open spec fn pairs_error(headers: Seq<HeaderNameValue>, i: int) -> Option<RouterError>
    decreases headers.len() - i,
{
    if !(0 <= i < headers.len()) {
        None
    } else if !is_header_name(headers[i].name@) {
        Some(RouterError::InvalidHeaderName(headers[i].name))
    } else if !is_header_value(headers[i].value@) {
        Some(RouterError::InvalidHeaderValue(headers[i].name))
    } else {
        pairs_error(headers, i + 1)
    }
}

/// What is wrong with the names of a list, from `i` on.
pub open spec fn names_error(names: Seq<String>, i: int) -> Option<RouterError>
    decreases names.len() - i,
{
    if !(0 <= i < names.len()) {
        None
    } else if !is_header_name(names[i]@) {
        Some(RouterError::InvalidRemoveName(names[i]))
    } else {
        names_error(names, i + 1)
    }
}

/// What is wrong with header changes.
pub open spec fn modifier_error(m: RequestHeaderModifier) -> Option<RouterError> {
    if pairs_error(m.set@, 0) is Some {
        pairs_error(m.set@, 0)
    } else if pairs_error(m.add@, 0) is Some {
        pairs_error(m.add@, 0)
    } else {
        names_error(m.remove@, 0)
    }
}

pub open spec fn route_error(route: Route) -> Option<RouterError> {
    match route.request_header_modifier {
        Some(m) => modifier_error(m),
        None => None,
    }
}

/// What is wrong with the first route that is refused, from `i` on.
pub open spec fn routes_error(routes: Seq<Route>, i: int) -> Option<RouterError>
    decreases routes.len() - i,
{
    if !(0 <= i < routes.len()) {
        None
    } else if route_error(routes[i]) is Some {
        route_error(routes[i])
    } else {
        routes_error(routes, i + 1)
    }
}

fn check_pairs(headers: &Vec<HeaderNameValue>) -> (r: Result<(), RouterError>)
    ensures
        match pairs_error(headers@, 0) {
            Some(err) => r == Err::<(), RouterError>(err),
            None => r is Ok,
        },
{
    let mut i: usize = 0;
    while i < headers.len()
        invariant
            i <= headers@.len(),
            pairs_error(headers@, 0) == pairs_error(headers@, i as int),
        decreases headers@.len() - i,
    {
        let h = &headers[i];
        if !valid_header_name(h.name.as_str()) {
            return Err(RouterError::InvalidHeaderName(h.name.clone()));
        }
        if !valid_header_value(h.value.as_str()) {
            return Err(RouterError::InvalidHeaderValue(h.name.clone()));
        }
        i = i + 1;
    }
    Ok(())
}

fn validate_request_header_modifier(m: &RequestHeaderModifier) -> (r: Result<(), RouterError>)
    ensures
        match modifier_error(*m) {
            Some(err) => r == Err::<(), RouterError>(err),
            None => r is Ok,
        },
{
    check_pairs(&m.set)?;
    check_pairs(&m.add)?;
    let mut i: usize = 0;
    while i < m.remove.len()
        invariant
            i <= m.remove@.len(),
            modifier_error(*m) == names_error(m.remove@, 0),
            names_error(m.remove@, 0) == names_error(m.remove@, i as int),
        decreases m.remove@.len() - i,
    {
        if !valid_header_name(m.remove[i].as_str()) {
            return Err(RouterError::InvalidRemoveName(m.remove[i].clone()));
        }
        i = i + 1;
    }
    Ok(())
}

/// Route `i` is the one for a request: it matches, no other route that matches
/// outranks it, and no earlier one is its equal.
pub open spec fn best_route(routes: Seq<Route>, asked: Asked, i: int) -> bool {
    &&& 0 <= i < routes.len()
    &&& route_matches(routes[i], asked)
    &&& forall|j: int|
        0 <= j < routes.len() && j != i && route_matches(#[trigger] routes[j], asked) ==> outranks(
            routes[i],
            routes[j],
        ) || (!outranks(routes[j], routes[i]) && i < j)
}

/// No route matches a request.
pub open spec fn no_route(routes: Seq<Route>, asked: Asked) -> bool {
    forall|j: int| 0 <= j < routes.len() ==> !route_matches(#[trigger] routes[j], asked)
}

/// Whether `found` is what a route table gives for a request.
pub open spec fn finds(routes: Seq<Route>, asked: Asked, found: Option<int>) -> bool {
    match found {
        Some(i) => best_route(routes, asked, i),
        None => no_route(routes, asked),
    }
}

/// Configuration of a router.
pub struct RouterConfig {
    /// The routes; none where the configuration has no such key.
    pub routes: Vec<Route>,
}

impl Default for RouterConfig {
    fn default() -> (r: Self)
        ensures
            r.routes@.len() == 0,
    {
        RouterConfig { routes: Vec::new() }
    }
}

/// Routes requests to clusters.
///
/// The path of a request is the rewritten one where an earlier filter has set
/// it.
pub struct RouterFilter {
    /// In order of falling specificity.
    routes: Vec<ResolvedRoute>,
    /// The routes in the order in which they were given.
    given: Ghost<Seq<Route>>,
    /// For each route of the table, its place among those given.
    order: Ghost<Seq<int>>,
}

/// The table holds the routes that were given, in order of falling specificity,
/// and in the given order where that is equal.
spec fn arranged(table: Seq<ResolvedRoute>, given: Seq<Route>, order: Seq<int>) -> bool {
    &&& order.len() == table.len()
    &&& forall|k: int|
        0 <= k < table.len() ==> 0 <= #[trigger] order[k] < given.len() && table[k].route
            == given[order[k]] && table[k].wf()
    &&& forall|j: int| 0 <= j < given.len() ==> #[trigger] order.contains(j)
    &&& forall|a: int, b: int|
        0 <= a < b < table.len() ==> {
            ||| specificity((#[trigger] table[a]).route) > specificity((#[trigger] table[b]).route)
            ||| specificity(table[a].route) == specificity(table[b].route) && order[a] < order[b]
        }
}

/// The place of a route with a specificity in the table: behind those that are
/// not less specific.
fn place(table: &Vec<ResolvedRoute>, level: usize) -> (r: usize)
    requires
        forall|a: int, b: int|
            0 <= a < b < table@.len() ==> specificity((#[trigger] table@[a]).route) >= specificity(
                (#[trigger] table@[b]).route,
            ),
    ensures
        r <= table@.len(),
        forall|k: int| 0 <= k < r ==> specificity((#[trigger] table@[k]).route) >= level,
        forall|k: int| r <= k < table@.len() ==> specificity((#[trigger] table@[k]).route) < level,
{
    let mut i: usize = 0;
    while i < table.len()
        invariant
            i <= table@.len(),
            forall|a: int, b: int|
                0 <= a < b < table@.len() ==> specificity((#[trigger] table@[a]).route)
                    >= specificity((#[trigger] table@[b]).route),
            forall|k: int| 0 <= k < i ==> specificity((#[trigger] table@[k]).route) >= level,
        decreases table@.len() - i,
    {
        if path_specificity(&table[i].route) < level {
            assert forall|k: int| i <= k < table@.len() implies specificity(
                (#[trigger] table@[k]).route,
            ) < level by {
                assert(specificity(table@[i as int].route) >= specificity(table@[k].route));
            }
            return i;
        }
        i = i + 1;
    }
    i
}

proof fn lemma_arranged_insert(
    table: Seq<ResolvedRoute>,
    given: Seq<Route>,
    order: Seq<int>,
    at: int,
    new: ResolvedRoute,
)
    requires
        arranged(table, given, order),
        new.wf(),
        0 <= at <= table.len(),
        forall|k: int| 0 <= k < at ==> specificity((#[trigger] table[k]).route) >= specificity(new.route),
        forall|k: int|
            at <= k < table.len() ==> specificity((#[trigger] table[k]).route) < specificity(new.route),
    ensures
        arranged(
            table.insert(at, new),
            given.push(new.route),
            order.insert(at, given.len() as int),
        ),
{
    let t = table.insert(at, new);
    let g = given.push(new.route);
    let o = order.insert(at, given.len() as int);
    assert forall|k: int| 0 <= k < t.len() implies 0 <= #[trigger] o[k] < g.len() && t[k].route
        == g[o[k]] && t[k].wf() by {
        if k < at {
            assert(o[k] == order[k] && t[k] == table[k]);
        } else if k > at {
            assert(o[k] == order[k - 1] && t[k] == table[k - 1]);
        }
    }
    assert forall|j: int| 0 <= j < g.len() implies #[trigger] o.contains(j) by {
        if j == given.len() {
            assert(o[at] == j);
        } else {
            assert(order.contains(j));
            let k = order.index_of(j);
            assert(o[if k < at { k } else { k + 1 }] == j);
        }
    }
    assert forall|a: int, b: int| 0 <= a < b < t.len() implies {
        ||| specificity((#[trigger] t[a]).route) > specificity((#[trigger] t[b]).route)
        ||| specificity(t[a].route) == specificity(t[b].route) && o[a] < o[b]
    } by {
        let x = if a < at { a } else { a - 1 };
        let y = if b < at { b } else { b - 1 };
        if a != at && b != at {
            assert(t[a] == table[x] && t[b] == table[y] && o[a] == order[x] && o[b] == order[y]);
        } else if a == at {
            assert(t[b] == table[y]);
        } else {
            assert(t[a] == table[x] && o[a] == order[x]);
            assert(0 <= order[x] < given.len());
        }
    }
}

impl RouterFilter {
    /// The routes in the order in which they were given.
    pub closed spec fn routes(self) -> Seq<Route> {
        self.given@
    }

    pub closed spec fn wf(self) -> bool {
        arranged(self.routes@, self.given@, self.order@)
    }

    /// Create a router from its configuration.
    pub fn from_config(cfg: RouterConfig) -> (r: Result<Self, RouterError>)
        ensures
            match routes_error(cfg.routes@, 0) {
                Some(err) => r == Err::<Self, RouterError>(err),
                None => r is Ok && r->Ok_0.wf() && r->Ok_0.routes() == cfg.routes@,
            },
    {
        Self::new(cfg.routes)
    }

    /// Create a router from a list of routes. The first header change that HTTP
    /// does not allow is the error.
    pub fn new(routes: Vec<Route>) -> (r: Result<Self, RouterError>)
        ensures
            match routes_error(routes@, 0) {
                Some(err) => r == Err::<Self, RouterError>(err),
                None => r is Ok && r->Ok_0.wf() && r->Ok_0.routes() == routes@,
            },
    {
        let mut i: usize = 0;
        while i < routes.len()
            invariant
                i <= routes@.len(),
                routes_error(routes@, 0) == routes_error(routes@, i as int),
            decreases routes@.len() - i,
        {
            if let Some(m) = &routes[i].request_header_modifier {
                validate_request_header_modifier(m)?;
            }
            i = i + 1;
        }
        let mut table: Vec<ResolvedRoute> = Vec::new();
        let ghost mut order: Seq<int> = Seq::empty();
        for route in it: routes
            invariant
                it.seq() == routes@,
                arranged(table@, routes@.take(it.index() as int), order),
        {
            let ghost before = routes@.take(it.index() as int);
            let level: usize = path_specificity(&route);
            let at: usize = place(&table, level);
            let resolved = ResolvedRoute::resolve(route);
            proof {
                lemma_arranged_insert(table@, before, order, at as int, resolved);
                assert(before.push(route) =~= routes@.take(it.index() + 1));
                order = order.insert(at as int, before.len() as int);
            }
            table.insert(at, resolved);
        }
        assert(routes@.take(routes@.len() as int) =~= routes@);
        Ok(RouterFilter { routes: table, given: Ghost(routes@), order: Ghost(order) })
    }

    /// The filter's name.
    pub fn name(&self) -> (r: &'static str)
        ensures
            r@ == "router"@,
    {
        "router"
    }

    /// Find the route for a request: the most specific path first, then the
    /// most constraints, then the earliest.
    pub fn match_route(
        &self,
        path: &str,
        host: Option<&str>,
        req_headers: &http::HeaderMap<http::HeaderValue>,
        method: Option<&str>,
        query: Option<&str>,
    ) -> (r: Option<&Route>)
        requires
            self.wf(),
        ensures
            exists|found: Option<int>| #[trigger]
                finds(
                    self.routes(),
                    (Asked {
                        path: path@,
                        host: opt_view(host),
                        lines: header_lines(*req_headers),
                        method: opt_view(method),
                        query: opt_view(query),
                    }),
                    found,
                ) && match found {
                    Some(i) => r == Some(&self.routes()[i]),
                    None => r is None,
                },
    {
        let ghost asked = Asked {
            path: path@,
            host: opt_view(host),
            lines: header_lines(*req_headers),
            method: opt_view(method),
            query: opt_view(query),
        };
        let mut best: Option<(usize, u128, &Route)> = None;
        let ghost mut at: int = 0;
        let n: usize = self.routes.len();
        let mut i: usize = 0;
        while i < n
            invariant
                i <= n,
                n == self.routes@.len(),
                self.wf(),
                asked == (Asked {
                    path: path@,
                    host: opt_view(host),
                    lines: header_lines(*req_headers),
                    method: opt_view(method),
                    query: opt_view(query),
                }),
                leads(self.routes@, asked, best, at, i as int),
            decreases n - i,
        {
            let resolved = &self.routes[i];
            let route: &Route = &resolved.route;
            assert(0 <= self.order@[i as int] < self.given@.len());
            let mut next: usize = i + 1;
            if route_matches_request(resolved, path, host, req_headers, method, query) {
                let ghost earlier = best;
                best = update_best_match(best, route);
                proof {
                    if best != earlier {
                        at = i as int;
                    }
                }
                if should_stop_early(best, route) {
                    proof {
                        let (level, count, lead) = best->0;
                        assert forall|k: int| i < k < n implies specificity(
                            (#[trigger] self.routes@[k]).route,
                        ) < level by {
                            assert(specificity(self.routes@[i as int].route) >= specificity(
                                self.routes@[k].route,
                            ));
                        }
                    }
                    next = n;
                }
            }
            assert(leads(self.routes@, asked, best, at, next as int));
            i = next;
        }
        proof {
            self.lemma_lead(asked, best, at);
        }
        match best {
            Some((_, _, route)) => {
                assert(finds(self.routes(), asked, Some(self.order@[at])));
                Some(route)
            },
            None => {
                assert(finds(self.routes(), asked, None::<int>));
                None
            },
        }
    }

    /// What leads the whole table is the route for the request.
    proof fn lemma_lead(self, asked: Asked, best: Option<(usize, u128, &Route)>, at: int)
        requires
            self.wf(),
            leads(self.routes@, asked, best, at, self.routes@.len() as int),
        ensures
            match best {
                Some((_, _, route)) => {
                    &&& 0 <= at < self.order@.len()
                    &&& best_route(self.routes(), asked, self.order@[at])
                    &&& *route == self.routes()[self.order@[at]]
                },
                None => no_route(self.routes(), asked),
            },
    {
        let table = self.routes@;
        let given = self.given@;
        let order = self.order@;
        assert forall|j: int| 0 <= j < given.len() && route_matches(#[trigger] given[j], asked) implies {
            &&& best is Some
            &&& j != order[at] ==> outranks(given[order[at]], given[j]) || (!outranks(
                given[j],
                given[order[at]],
            ) && order[at] < j)
        } by {
            assert(order.contains(j));
            let k = order.index_of(j);
            assert(table[k].route == given[j]);
            if best is Some && k != at {
                assert(table[at].route == given[order[at]]);
                if k < at {
                    assert(outranks(table[at].route, table[k].route));
                } else {
                    assert(specificity(table[at].route) > specificity(table[k].route)
                        || order[at] < order[k]);
                }
            }
        }
        if best is Some {
            assert(table[at].route == given[order[at]]);
        }
    }
}

/// Among the first `n` routes of the table, `best` is that of the best match,
/// which stands at `at`.
spec fn leads(
    table: Seq<ResolvedRoute>,
    asked: Asked,
    best: Option<(usize, u128, &Route)>,
    at: int,
    n: int,
) -> bool {
    match best {
        None => forall|k: int| 0 <= k < n ==> !route_matches((#[trigger] table[k]).route, asked),
        Some((s, c, route)) => {
            &&& 0 <= at < n
            &&& route == &table[at].route
            &&& route_matches(*route, asked)
            &&& s == specificity(*route)
            &&& c == constraints(*route)
            &&& forall|k: int|
                0 <= k < n && k != at && route_matches((#[trigger] table[k]).route, asked)
                    ==> outranks(*route, table[k].route) || (!outranks(table[k].route, *route) && at
                    < k)
        },
    }
}

/// The host of a request: that of the `host` header, or else of the URI.
pub open spec fn host_of(request: Request) -> Option<Seq<char>> {
    match text_at(request.lines(), "host"@) {
        Some(host) => Some(host),
        None => match request.uri.authority {
            Some(authority) => Some(authority@),
            None => None,
        },
    }
}

/// The path that is routed: the rewritten one, or else the request's.
pub open spec fn routed_path(ctx: HttpFilterContext<'_>) -> Seq<char> {
    match ctx.rewritten_path {
        Some(path) => path@,
        None => ctx.request.uri.path@,
    }
}

pub open spec fn query_of(request: Request) -> Option<Seq<char>> {
    match request.uri.query {
        Some(query) => Some(query@),
        None => None,
    }
}

/// What a request asks for.
pub open spec fn asked_of(ctx: HttpFilterContext<'_>) -> Asked {
    Asked {
        path: routed_path(ctx),
        host: host_of(*ctx.request),
        lines: ctx.request.lines(),
        method: Some(ctx.request.method@),
        query: query_of(*ctx.request),
    }
}

/// The answer to a gRPC request that nothing serves.
pub open spec fn grpc_unimplemented_answer() -> Action {
    Action::Reject(
        200,
        seq![
            ("content-type"@, "application/grpc"@),
            ("grpc-status"@, "12"@),
            ("grpc-message"@, "unimplemented"@),
        ],
    )
}

/// The answer to a request that no route matches.
pub open spec fn unrouted(request: Request) -> Action {
    if text_at(request.lines(), "content-type"@) matches Some(t) && "application/grpc"@.is_prefix_of(
        t,
    ) {
        grpc_unimplemented_answer()
    } else {
        rejects(404)
    }
}

/// What `${query}` stands for.
pub open spec fn query_suffix(query: Option<Seq<char>>) -> Seq<char> {
    match query {
        Some(q) => "?"@ + q,
        None => Seq::empty(),
    }
}

/// A location template with `${path}` and `${query}` filled in.
pub open spec fn expanded(template: Seq<char>, path: Seq<char>, query: Option<Seq<char>>) -> Seq<char> {
    replace(replace(template, "${path}"@, path), "${query}"@, query_suffix(query))
}

/// The location that a redirect of a route leads a request to.
pub open spec fn redirect_location(
    redirect: RedirectAction,
    prefix: Seq<char>,
    request: Request,
) -> Seq<char> {
    let scheme = match request.uri.scheme {
        Some(scheme) => scheme@,
        None => "http"@,
    };
    let host = match host_of(request) {
        Some(host) => host,
        None => Seq::empty(),
    };
    let suffix = match stripped(request.uri.path@, prefix) {
        Some(suffix) => suffix,
        None => Seq::empty(),
    };
    let with_host = replace(replace(redirect.location@, "${scheme}"@, scheme), "${host}"@, host);
    expanded(replace(with_host, "${path_suffix}"@, suffix), request.uri.path@, query_of(request))
}

/// What a route answers to a preflight request.
pub open spec fn preflight_answer(route: Route, request: Request) -> Option<Action> {
    match route.cors {
        Some(policy) => preflight(policy, request),
        None => None,
    }
}

/// The cross-origin headers of the response to a request.
pub open spec fn cors_headers(route: Route, request: Request) -> Seq<(Seq<char>, Seq<char>)> {
    match route.cors {
        Some(policy) => response_headers(policy, request),
        None => Seq::empty(),
    }
}

/// What a route answers in place of forwarding, if it does. Preflight requests
/// are answered before redirects, and redirects carry the cross-origin headers.
pub open spec fn own_answer(route: Route, request: Request) -> Option<Action> {
    if route.invalid_backend_ref {
        if route.grpc_route {
            Some(grpc_unimplemented_answer())
        } else {
            Some(rejects(500))
        }
    } else if preflight_answer(route, request) is Some {
        preflight_answer(route, request)
    } else {
        match route.redirect {
            Some(redirect) => Some(
                Action::Reject(
                    redirect.status,
                    seq![
                        (
                            "Location"@,
                            redirect_location(redirect, route.path_prefix@, request),
                        ),
                    ] + cors_headers(route, request),
                ),
            ),
            None => None,
        }
    }
}

/// Header changes that also set `headers`.
pub open spec fn setting(base: Option<HeaderChanges>, headers: Seq<(Seq<char>, Seq<char>)>) -> HeaderChanges {
    match base {
        Some(changes) => HeaderChanges { set: changes.set + headers, ..changes },
        None => HeaderChanges { set: headers, add: Seq::empty(), remove: Seq::empty() },
    }
}

/// The response header changes of a route, or else those from before it.
pub open spec fn response_changes(route: Route, before: Option<RequestHeaderModifier>) -> Option<
    HeaderChanges,
> {
    match (route.response_header_modifier, before) {
        (Some(m), _) => Some(m@),
        (None, Some(m)) => Some(m@),
        (None, None) => None,
    }
}

/// The changes to the request's headers, in order: removals, then
/// replacements, then additions.
pub open spec fn header_ops(m: RequestHeaderModifier) -> Seq<PendingRequestHeaderOp> {
    m.remove@.map_values(|name: String| PendingRequestHeaderOp::RemoveHeader(name))
        + m.set@.map_values(
        |h: HeaderNameValue| PendingRequestHeaderOp::SetHeader(h.name, h.value),
    ) + m.add@.map_values(
        |h: HeaderNameValue| PendingRequestHeaderOp::AddHeader(h.name, h.value),
    )
}

/// The rewritten path after a route has matched.
pub open spec fn path_after(route: Route, before: Option<Seq<char>>, path: Seq<char>) -> Option<Seq<char>> {
    match (route.url_rewrite_path_full, route.url_rewrite_path_prefix) {
        (Some(full), _) => Some(full@),
        (None, Some(prefix)) => match stripped(path, route.path_prefix@) {
            Some(suffix) => Some(prefix@ + suffix),
            None => if path == trim_end(route.path_prefix@, '/') {
                Some(prefix@)
            } else {
                before
            },
        },
        (None, None) => before,
    }
}

/// What a route that forwards does to a request.
pub open spec fn forwarded(
    route: Route,
    before: HttpFilterContext<'_>,
    after: HttpFilterContext<'_>,
) -> bool {
    &&& after.request == before.request
    &&& after.extra_request_headers == before.extra_request_headers
    &&& after.cluster == Some(route.cluster)
    &&& after.pending_request_header_ops@ == before.pending_request_header_ops@ + (
    match route.request_header_modifier {
        Some(m) => header_ops(m),
        None => Seq::empty(),
    })
    &&& if cors_headers(route, *before.request).len() > 0 {
        after.response_header_modifier matches Some(n) && n@ == setting(
            response_changes(route, before.response_header_modifier),
            cors_headers(route, *before.request),
        )
    } else {
        match route.response_header_modifier {
            Some(m) => after.response_header_modifier matches Some(n) && n@ == m@,
            None => after.response_header_modifier == before.response_header_modifier,
        }
    }
    &&& after.rewritten_host == (match route.url_rewrite_hostname {
        Some(host) => Some(host),
        None => before.rewritten_host,
    })
    &&& opt_text(after.rewritten_path) == path_after(
        route,
        opt_text(before.rewritten_path),
        routed_path(before),
    )
    &&& after.request_timeout_ms == (if route.request_timeout_ms > 0 {
        Some(route.request_timeout_ms)
    } else {
        before.request_timeout_ms
    })
}

fn grpc_unimplemented() -> (r: FilterAction)
    ensures
        r.model() == grpc_unimplemented_answer(),
{
    let r = Rejection::with_status(200).with_header("content-type", "application/grpc").with_header(
        "grpc-status",
        "12",
    ).with_header("grpc-message", "unimplemented");
    assert(header_views(r.headers@) =~= seq![
        ("content-type"@, "application/grpc"@),
        ("grpc-status"@, "12"@),
        ("grpc-message"@, "unimplemented"@),
    ]);
    FilterAction::Reject(r)
}

fn is_grpc_request(headers: &http::HeaderMap<http::HeaderValue>) -> (r: bool)
    ensures
        r == (text_at(header_lines(*headers), "content-type"@) matches Some(t)
            && "application/grpc"@.is_prefix_of(t)),
{
    match header_text(headers, "content-type") {
        Some(t) => starts_with(t.as_str(), "application/grpc"),
        None => false,
    }
}

fn request_host(request: &Request) -> (r: Option<String>)
    ensures
        opt_text(r) == host_of(*request),
{
    match header_text(&request.headers, "host") {
        Some(host) => Some(host),
        None => match &request.uri.authority {
            Some(authority) => Some(authority.clone()),
            None => None,
        },
    }
}

/// Fill the placeholders `${path}` and `${query}` of a location template in. The
/// query comes with its question mark.
pub fn expand_redirect_location(template: &str, path: &str, query: Option<&str>) -> (r: String)
    ensures
        r@ == expanded(template@, path@, opt_view(query)),
{
    proof {
        reveal_strlit("${path}");
        reveal_strlit("${query}");
    }
    let suffix: String = match query {
        Some(q) => concat("?", q),
        None => String::new(),
    };
    assert(query is None ==> suffix@ =~= Seq::<char>::empty());
    let with_path = replace_text(template, "${path}", path);
    replace_text(with_path.as_str(), "${query}", suffix.as_str())
}

fn redirect_to(redirect: &RedirectAction, prefix: &str, request: &Request) -> (r: String)
    ensures
        r@ == redirect_location(*redirect, prefix@, *request),
{
    proof {
        reveal_strlit("${scheme}");
        reveal_strlit("${host}");
        reveal_strlit("${path_suffix}");
        reveal_strlit("");
        assert(""@ =~= Seq::<char>::empty());
    }
    let scheme: String = match &request.uri.scheme {
        Some(scheme) => scheme.clone(),
        None => "http".to_owned(),
    };
    let host: String = match request_host(request) {
        Some(host) => host,
        None => "".to_owned(),
    };
    let with_scheme = replace_text(redirect.location.as_str(), "${scheme}", scheme.as_str());
    let with_host = replace_text(with_scheme.as_str(), "${host}", host.as_str());
    let suffix: String = match strip_prefix(request.uri.path.as_str(), prefix) {
        Some(suffix) => suffix,
        None => "".to_owned(),
    };
    let raw = replace_text(with_host.as_str(), "${path_suffix}", suffix.as_str());
    let query: Option<&str> = match &request.uri.query {
        Some(q) => Some(q.as_str()),
        None => None,
    };
    expand_redirect_location(raw.as_str(), request.uri.path.as_str(), query)
}

fn enqueue_route_request_header_ops(ops: &mut Vec<PendingRequestHeaderOp>, m: &RequestHeaderModifier)
    ensures
        final(ops)@ == old(ops)@ + header_ops(*m),
{
    let ghost removed = m.remove@.map_values(
        |name: String| PendingRequestHeaderOp::RemoveHeader(name),
    );
    let ghost replaced = m.set@.map_values(
        |h: HeaderNameValue| PendingRequestHeaderOp::SetHeader(h.name, h.value),
    );
    let ghost added = m.add@.map_values(
        |h: HeaderNameValue| PendingRequestHeaderOp::AddHeader(h.name, h.value),
    );
    let mut i: usize = 0;
    while i < m.remove.len()
        invariant
            i <= m.remove@.len(),
            removed == m.remove@.map_values(
                |name: String| PendingRequestHeaderOp::RemoveHeader(name),
            ),
            ops@ == old(ops)@ + removed.take(i as int),
        decreases m.remove@.len() - i,
    {
        ops.push(PendingRequestHeaderOp::RemoveHeader(m.remove[i].clone()));
        i = i + 1;
    }
    assert(removed.take(m.remove@.len() as int) =~= removed);
    let mut j: usize = 0;
    while j < m.set.len()
        invariant
            j <= m.set@.len(),
            replaced == m.set@.map_values(
                |h: HeaderNameValue| PendingRequestHeaderOp::SetHeader(h.name, h.value),
            ),
            ops@ == old(ops)@ + removed + replaced.take(j as int),
        decreases m.set@.len() - j,
    {
        ops.push(
            PendingRequestHeaderOp::SetHeader(m.set[j].name.clone(), m.set[j].value.clone()),
        );
        j = j + 1;
    }
    assert(replaced.take(m.set@.len() as int) =~= replaced);
    let mut k: usize = 0;
    while k < m.add.len()
        invariant
            k <= m.add@.len(),
            added == m.add@.map_values(
                |h: HeaderNameValue| PendingRequestHeaderOp::AddHeader(h.name, h.value),
            ),
            ops@ == old(ops)@ + removed + replaced + added.take(k as int),
        decreases m.add@.len() - k,
    {
        ops.push(
            PendingRequestHeaderOp::AddHeader(m.add[k].name.clone(), m.add[k].value.clone()),
        );
        k = k + 1;
    }
    assert(added.take(m.add@.len() as int) =~= added);
    assert(ops@ =~= old(ops)@ + header_ops(*m));
}

/// The cross-origin headers of the response to a request.
fn cors_headers_of(route: &Route, request: &Request) -> (r: Vec<(String, String)>)
    ensures
        header_views(r@) == cors_headers(*route, *request),
{
    match &route.cors {
        Some(policy) => headers_of_response(policy, request),
        None => {
            let r: Vec<(String, String)> = Vec::new();
            assert(header_views(r@) =~= Seq::empty());
            r
        },
    }
}

/// Header changes that also set `headers`.
fn set_headers(base: Option<RequestHeaderModifier>, headers: &Vec<(String, String)>) -> (r:
    RequestHeaderModifier)
    ensures
        r@ == setting(
            match base {
                Some(m) => Some(m@),
                None => None,
            },
            header_views(headers@),
        ),
{
    let mut m = match base {
        Some(m) => m,
        None => RequestHeaderModifier { set: Vec::new(), add: Vec::new(), remove: Vec::new() },
    };
    let ghost before = m@;
    let ghost lines = header_views(headers@);
    let mut set = m.set;
    let ghost first = named_values(set@);
    assert(lines.take(0) =~= Seq::empty());
    let mut i: usize = 0;
    while i < headers.len()
        invariant
            i <= headers@.len(),
            lines == header_views(headers@),
            named_values(set@) == first + lines.take(i as int),
        decreases headers@.len() - i,
    {
        let ghost held = set@;
        set.push(HeaderNameValue { name: headers[i].0.clone(), value: headers[i].1.clone() });
        assert(named_values(set@) =~= named_values(held).push(lines[i as int]));
        assert(first + lines.take(i + 1) =~= (first + lines.take(i as int)).push(lines[i as int]));
        i = i + 1;
    }
    assert(lines.take(lines.len() as int) =~= lines);
    let r = RequestHeaderModifier { set, add: m.add, remove: m.remove };
    assert(before.add == r@.add && before.remove == r@.remove);
    proof {
        if base is None {
            assert(r@.set =~= lines);
            assert(r@.add =~= Seq::empty());
            assert(r@.remove =~= Seq::empty());
        }
    }
    r
}

/// Apply a route that matched: answer for it, or forward the request.
pub fn apply_route(route: &Route, ctx: &mut HttpFilterContext<'_>) -> (r: FilterAction)
    ensures
        match own_answer(*route, *old(ctx).request) {
            Some(answer) => r.model() == answer && *final(ctx) == *old(ctx),
            None => r.model() == Action::Continue && forwarded(*route, *old(ctx), *final(ctx)),
        },
{
    if route.invalid_backend_ref {
        if route.grpc_route {
            return grpc_unimplemented();
        }
        return crate::action::reject(500);
    }
    if let Some(policy) = &route.cors {
        if let Some(answer) = answer_preflight(policy, ctx.request) {
            return answer;
        }
    }
    let cors = cors_headers_of(route, ctx.request);
    if let Some(redirect) = &route.redirect {
        let location = redirect_to(redirect, route.path_prefix.as_str(), ctx.request);
        let rejection = Rejection::with_status(redirect.status).with_header(
            "Location",
            location.as_str(),
        ).with_headers(&cors);
        assert(header_views(rejection.headers@) =~= seq![("Location"@, location@)] + cors_headers(
            *route,
            *ctx.request,
        ));
        return FilterAction::Reject(rejection);
    }
    let ghost before = *ctx;
    let path: String = match &ctx.rewritten_path {
        Some(path) => path.clone(),
        None => ctx.request.uri.path.clone(),
    };
    ctx.cluster = Some(route.cluster.clone());
    if let Some(m) = &route.request_header_modifier {
        enqueue_route_request_header_ops(&mut ctx.pending_request_header_ops, m);
    }
    assert(route.request_header_modifier is None ==> ctx.pending_request_header_ops@
        =~= before.pending_request_header_ops@ + Seq::empty());
    if let Some(m) = &route.response_header_modifier {
        ctx.response_header_modifier = Some(m.copy());
    }
    if cors.len() > 0 {
        let base = match &ctx.response_header_modifier {
            Some(m) => Some(m.copy()),
            None => None,
        };
        ctx.response_header_modifier = Some(set_headers(base, &cors));
    }
    if let Some(host) = &route.url_rewrite_hostname {
        ctx.rewritten_host = Some(host.clone());
    }
    if let Some(full) = &route.url_rewrite_path_full {
        ctx.rewritten_path = Some(full.clone());
    } else if let Some(prefix) = &route.url_rewrite_path_prefix {
        match strip_prefix(path.as_str(), route.path_prefix.as_str()) {
            Some(suffix) => {
                ctx.rewritten_path = Some(concat(prefix.as_str(), suffix.as_str()));
            },
            None => {
                let bare = trim_end_char(route.path_prefix.as_str(), '/');
                if same_text(path.as_str(), bare.as_str()) {
                    ctx.rewritten_path = Some(prefix.clone());
                }
            },
        }
    }
    if route.request_timeout_ms > 0 {
        ctx.request_timeout_ms = Some(route.request_timeout_ms);
    }
    FilterAction::Continue
}

impl RouterFilter {
    /// Route a request: set its cluster and what its route changes, or answer
    /// it.
    pub fn on_request(&self, ctx: &mut HttpFilterContext<'_>) -> (r: FilterAction)
        requires
            self.wf(),
        ensures
            exists|found: Option<int>| #[trigger]
                finds(self.routes(), asked_of(*old(ctx)), found) && match found {
                    Some(i) => match own_answer(self.routes()[i], *old(ctx).request) {
                        Some(answer) => r.model() == answer && *final(ctx) == *old(ctx),
                        None => r.model() == Action::Continue && forwarded(
                            self.routes()[i],
                            *old(ctx),
                            *final(ctx),
                        ),
                    },
                    None => r.model() == unrouted(*old(ctx).request) && *final(ctx) == *old(ctx),
                },
    {
        let path: String = match &ctx.rewritten_path {
            Some(path) => path.clone(),
            None => ctx.request.uri.path.clone(),
        };
        let host: Option<String> = request_host(ctx.request);
        let host_text: Option<&str> = match &host {
            Some(h) => Some(h.as_str()),
            None => None,
        };
        let query: Option<&str> = match &ctx.request.uri.query {
            Some(q) => Some(q.as_str()),
            None => None,
        };
        let method: &str = ctx.request.method.as_str();
        let matched = self.match_route(
            path.as_str(),
            host_text,
            &ctx.request.headers,
            Some(method),
            query,
        );
        match matched {
            Some(route) => apply_route(route, ctx),
            None => {
                if is_grpc_request(&ctx.request.headers) {
                    return grpc_unimplemented();
                }
                crate::action::reject(404)
            },
        }
    }
}

/// At most one route is the one for a request.
pub proof fn law_best_route_unique(routes: Seq<Route>, asked: Asked, i: int, j: int)
    requires
        best_route(routes, asked, i),
        best_route(routes, asked, j),
    ensures
        i == j,
{
}

/// A route with a cross-origin policy answers preflight requests itself.
pub proof fn law_preflight_is_answered(route: Route, request: Request)
    requires
        route.cors is Some,
        request.method@ == "OPTIONS"@,
        text_at(request.lines(), "origin"@) is Some,
        text_at(request.lines(), "access-control-request-method"@) is Some,
    ensures
        own_answer(route, request) is Some,
{
}

/// A request that some route matches is routed.
pub proof fn law_match_is_routed(routes: Seq<Route>, asked: Asked, found: Option<int>, j: int)
    requires
        finds(routes, asked, found),
        0 <= j < routes.len(),
        route_matches(routes[j], asked),
    ensures
        found matches Some(i) && !outranks(routes[j], routes[i]),
{
}

} // verus!
