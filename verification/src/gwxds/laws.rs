//! What Gateway routes become: rows of a router that take what the routes ask
//! for, and clusters that hold their backends.

use vstd::prelude::*;

use crate::gwxds::backend::{backend_address, cluster_tls, qualified_host, repeated_endpoints, route_tls, weighted_endpoints};
use crate::gwxds::hostname::served_hosts;
use crate::gwxds::routes::{all_routes, any_path, for_hosts, for_matches, law_normal_prefix_matches_the_same, left_out, list_view, match_headers, model_of, path_of, redirect_of, route_redirect, routes_of, RouteModel};
use crate::gwxds::types::{Backend, BackendTls, EndpointModel, GwListener, GwRoute, RequestRedirect, RouteMatch};
use crate::ip::is_ip;
use crate::number::decimal;
use crate::path_match::prefix_matches;
use crate::route::{HeaderChanges, Route};
use crate::router::laws::law_root_prefix;
use crate::router::matching::{headers_fit, method_fits, path_fits, specificity};
use crate::text::{lower, opt_text, views};
use crate::text_laws::law_cut_at_first;

verus! {

/// Whether a row of the router comes from a match of a Gateway route.
pub open spec fn is_row_of(row: RouteModel, route: GwRoute, m: RouteMatch) -> bool {
    exists|host: Option<Seq<char>>|
        row == #[trigger] model_of(route, path_of(m, route.grpc_route), match_headers(m), host)
}

/// A row of a match with an exact path takes that path and no other, and ranks
/// as an exact path.
pub proof fn law_exact_match_row(route: GwRoute, m: RouteMatch, row: Route, path: Seq<char>, verdict: Option<bool>)
    requires
        is_row_of(row.model(), route, m),
        m.path_exact@.len() > 0,
        !route.grpc_route,
    ensures
        path_fits(row, path, verdict) <==> path == m.path_exact@,
        specificity(row) == usize::MAX,
{
}

/// A row of a match with a regular expression takes what that expression
/// matches, and ranks below exact paths.
pub proof fn law_regex_match_row(route: GwRoute, m: RouteMatch, row: Route, path: Seq<char>, verdict: Option<bool>)
    requires
        is_row_of(row.model(), route, m),
        m.path_exact@.len() == 0,
        m.path_regex@.len() > 0,
        !route.grpc_route,
    ensures
        path_fits(row, path, verdict) <==> verdict == Some(true),
        row.path_regex matches Some(pattern) && pattern@ == m.path_regex@,
        specificity(row) == usize::MAX - 1,
{
}

/// A row of a match with a path prefix takes what that prefix matches; one of a
/// match without a path takes every path.
pub proof fn law_prefix_match_row(route: GwRoute, m: RouteMatch, row: Route, path: Seq<char>, verdict: Option<bool>)
    requires
        is_row_of(row.model(), route, m),
        m.path_exact@.len() == 0,
        m.path_regex@.len() == 0,
        !route.grpc_route,
    ensures
        path_fits(row, path, verdict) <==> prefix_matches(path, m.path_prefix@),
        m.path_prefix@.len() == 0 ==> path_fits(row, path, verdict),
        specificity(row) == crate::path_match::prefix_specificity(m.path_prefix@),
{
    reveal_strlit("/");
    law_root_prefix(path);
    assert("/"@ =~= seq!['/']);
    if m.path_prefix@.len() > 0 {
        law_normal_prefix_matches_the_same(path, m.path_prefix@);
    } else {
        assert(m.path_prefix@ =~= Seq::empty());
    }
}

/// A row of a gRPC match takes POST requests alone, for the path of its service
/// and method, for all methods of its service, or for every path.
pub proof fn law_grpc_match_row(route: GwRoute, m: RouteMatch, row: Route, path: Seq<char>, verdict: Option<bool>)
    requires
        is_row_of(row.model(), route, m),
        route.grpc_route,
    ensures
        m.grpc_service@.len() > 0 && m.grpc_method@.len() > 0 ==> (path_fits(row, path, verdict)
            <==> path == seq!['/'] + m.grpc_service@ + seq!['/'] + m.grpc_method@),
        m.grpc_service@.len() > 0 && m.grpc_method@.len() == 0 ==> (path_fits(row, path, verdict)
            <==> prefix_matches(path, seq!['/'] + m.grpc_service@)),
        m.grpc_service@.len() == 0 && m.grpc_method@.len() > 0 ==> path_fits(row, path, verdict),
        row.methods matches Some(methods) && views(methods@) == seq!["POST"@],
        method_fits(row, Some("POST"@)),
        row.grpc_route,
{
    reveal_strlit("/");
    assert("/"@ =~= seq!['/']);
    law_root_prefix(path);
    assert(list_view(row.methods) == Some(seq!["POST"@]));
    let methods = row.methods->0@;
    assert(views(methods).len() == 1);
    assert(views(methods)[0] == methods[0]@);
}

/// A row takes the methods and requires the headers of its match; a match
/// without any takes every request.
pub proof fn law_match_row_constraints(
    route: GwRoute,
    m: RouteMatch,
    row: Route,
    lines: Map<Seq<char>, Seq<Option<Seq<char>>>>,
)
    requires
        is_row_of(row.model(), route, m),
    ensures
        !route.grpc_route && m.methods@.len() > 0 ==> (row.methods matches Some(methods) && views(
            methods@,
        ) == views(m.methods@)),
        !route.grpc_route && m.methods@.len() == 0 ==> row.methods is None,
        m.headers@.dom().finite() ==> (headers_fit(row.headers, lines) <==> forall|name: Seq<char>| #[trigger]
            m.headers@.contains_key(name) ==> crate::request::values_at(lines, name).contains(
                Some(m.headers@[name]),
            )),
        row.query_params is None,
        row.cors is None,
{
    if m.headers@.dom().finite() && m.headers@.dom().len() == 0 {
        assert(m.headers@.dom() =~= Set::empty());
        assert forall|name: Seq<char>| !#[trigger] m.headers@.contains_key(name) by {}
    }
}

/// A row carries what its route asks for besides the match: redirect, header
/// changes, whether its backends are there, and the cluster of its backends.
pub proof fn law_row_keeps_route(route: GwRoute, m: RouteMatch, row: RouteModel)
    requires
        is_row_of(row, route, m),
    ensures
        row.invalid_backend_ref == route.invalid_backend_ref,
        row.grpc_route == route.grpc_route,
        route.request_redirect is None ==> row.redirect is None,
        route.request_redirect matches Some(r) ==> row.redirect == redirect_of(r),
        route.backends@.len() == 0 && (route.request_redirect matches Some(r) && r.hostname@.len() > 0
            && r.status_code <= 65535) ==> row.cluster == "__redirect__"@,
        route.request_header_modifier is None ==> row.request_changes is None,
        route.response_header_modifier is None ==> row.response_changes is None,
        route.request_header_modifier matches Some(c) ==> row.request_changes == (if c.set@.len() + c.add@.len()
            + c.remove@.len() > 0 {
            Some(c@)
        } else {
            None::<HeaderChanges>
        }),
        route.response_header_modifier matches Some(c) ==> row.response_changes == (if c.set@.len()
            + c.add@.len() + c.remove@.len() > 0 {
            Some(c@)
        } else {
            None::<HeaderChanges>
        }),
        route.backends@.len() == 1 && !route.invalid_backend_ref ==> row.cluster == backend_address(
            route.backends@[0],
            route.key@,
        ),
        route.backends@.len() > 1 && !route.invalid_backend_ref ==> row.cluster == route.key@
            + "-backends"@,
        route.invalid_backend_ref && route.backends@.len() > 0 ==> row.cluster == "__invalid_backend__"@,
{
}

proof fn lemma_matches_rows(route: GwRoute, hosts: Seq<Option<Seq<char>>>, n: int)
    requires
        0 <= n <= route.matches@.len(),
    ensures
        forall|row: RouteModel| #[trigger]
            for_matches(route, hosts, n).contains(row) <==> exists|k: int, h: int|
                0 <= k < n && 0 <= h < hosts.len() && row == #[trigger] row_for(route, hosts, k, h),
        for_matches(route, hosts, n).len() == n * hosts.len(),
    decreases n,
{
    if n > 0 {
        lemma_matches_rows(route, hosts, n - 1);
        let earlier = for_matches(route, hosts, n - 1);
        let m = route.matches@[n - 1];
        let rows = for_hosts(route, path_of(m, route.grpc_route), match_headers(m), hosts);
        let all = for_matches(route, hosts, n);
        assert((n - 1) * hosts.len() + hosts.len() == n * hosts.len()) by (nonlinear_arith);
        assert forall|row: RouteModel| #[trigger] all.contains(row) <==> exists|k: int, h: int|
            0 <= k < n && 0 <= h < hosts.len() && row == #[trigger] row_for(route, hosts, k, h) by {
            if all.contains(row) {
                let x = all.index_of(row);
                if x < earlier.len() {
                    assert(earlier[x] == row);
                    assert(earlier.contains(row));
                } else {
                    assert(rows[x - earlier.len()] == row);
                    assert(row == row_for(route, hosts, n - 1, x - earlier.len()));
                }
            }
            if exists|k: int, h: int|
                0 <= k < n && 0 <= h < hosts.len() && row == #[trigger] row_for(route, hosts, k, h) {
                let (k, h) = choose|k: int, h: int|
                    0 <= k < n && 0 <= h < hosts.len() && row == #[trigger] row_for(route, hosts, k, h);
                if k < n - 1 {
                    assert(earlier.contains(row));
                    let x = earlier.index_of(row);
                    assert(all[x] == row);
                } else {
                    assert(all[earlier.len() + h] == rows[h]);
                }
            }
        }
    } else {
        assert(0 * hosts.len() == 0) by (nonlinear_arith);
    }
}

/// The row of match `k` of a route for host `h`.
pub open spec fn row_for(route: GwRoute, hosts: Seq<Option<Seq<char>>>, k: int, h: int) -> RouteModel {
    model_of(
        route,
        path_of(route.matches@[k], route.grpc_route),
        match_headers(route.matches@[k]),
        hosts[h],
    )
}

/// Every match of a route becomes one row for every host that the route serves,
/// and there are no other rows.
pub proof fn law_rows_of_matches(listener: GwListener, route: GwRoute)
    requires
        !left_out(listener, route),
        route.matches@.len() > 0,
    ensures
        ({
            let hosts = served_hosts(listener, route)->0;
            let rows = routes_of(listener, route);
            &&& rows.len() == route.matches@.len() * hosts.len()
            &&& forall|row: RouteModel| #[trigger]
                rows.contains(row) ==> exists|k: int|
                    0 <= k < route.matches@.len() && is_row_of(row, route, #[trigger] route.matches@[k])
                        && hosts.contains(row.host)
            &&& forall|k: int, h: int|
                0 <= k < route.matches@.len() && 0 <= h < hosts.len() ==> rows.contains(
                    #[trigger] row_for(route, hosts, k, h),
                ) && row_for(route, hosts, k, h).host == hosts[h]
        }),
{
    let hosts = served_hosts(listener, route)->0;
    let rows = routes_of(listener, route);
    lemma_matches_rows(route, hosts, route.matches@.len() as int);
    assert forall|row: RouteModel| #[trigger] rows.contains(row) implies exists|k: int|
        0 <= k < route.matches@.len() && is_row_of(row, route, #[trigger] route.matches@[k])
            && hosts.contains(row.host) by {
        let (k, h) = choose|k: int, h: int|
            0 <= k < route.matches@.len() && 0 <= h < hosts.len() && row == #[trigger] row_for(
                route,
                hosts,
                k,
                h,
            );
        assert(hosts[h] == row.host);
        assert(is_row_of(row, route, route.matches@[k]));
    }
    assert forall|k: int, h: int| 0 <= k < route.matches@.len() && 0 <= h < hosts.len() implies rows.contains(
        #[trigger] row_for(route, hosts, k, h),
    ) && row_for(route, hosts, k, h).host == hosts[h] by {
        assert(for_matches(route, hosts, route.matches@.len() as int).contains(
            row_for(route, hosts, k, h),
        ));
    }
}

/// A route without matches becomes one row for every host, which takes every
/// path, and POST alone where the route is for gRPC.
pub proof fn law_rows_without_matches(listener: GwListener, route: GwRoute, row: Route, path: Seq<char>, verdict: Option<bool>)
    requires
        !left_out(listener, route),
        route.matches@.len() == 0,
        routes_of(listener, route).contains(row.model()),
    ensures
        path_fits(row, path, verdict),
        specificity(row) == 1,
        row.headers is None,
        !route.grpc_route ==> row.methods is None,
        route.grpc_route ==> (row.methods matches Some(methods) && views(methods@) == seq!["POST"@]),
        served_hosts(listener, route)->0.contains(opt_text(row.host)),
        routes_of(listener, route).len() == served_hosts(listener, route)->0.len(),
{
    let hosts = served_hosts(listener, route)->0;
    let rows = routes_of(listener, route);
    reveal_strlit("/");
    assert("/"@ =~= seq!['/']);
    law_root_prefix(path);
    let x = rows.index_of(row.model());
    assert(rows[x] == model_of(route, any_path(route.grpc_route), None, hosts[x]));
    assert(hosts[x] == opt_text(row.host));
}

/// A route leads somewhere unless its hosts and the listener's have nothing in
/// common, one of its backends is an inference pool, or none of its backends has
/// weight; redirects and routes with invalid backends need no weight.
pub proof fn law_routes_that_are_left_out(listener: GwListener, route: GwRoute)
    ensures
        served_hosts(listener, route) is None ==> routes_of(listener, route).len() == 0,
        (exists|i: int|
            0 <= i < route.backends@.len() && (#[trigger] route.backends@[i]).inference_pool is Some)
            ==> routes_of(listener, route).len() == 0,
        !route.invalid_backend_ref && route_redirect(route) is None && (forall|i: int|
            0 <= i < route.backends@.len() ==> (#[trigger] route.backends@[i]).weight == 0)
            ==> routes_of(listener, route).len() == 0,
        served_hosts(listener, route) is Some && (forall|i: int|
            0 <= i < route.backends@.len() ==> (#[trigger] route.backends@[i]).inference_pool is None)
            && (route.invalid_backend_ref || route_redirect(route) is Some || exists|i: int|
            0 <= i < route.backends@.len() && (#[trigger] route.backends@[i]).weight > 0) ==> !left_out(
            listener,
            route,
        ),
{
}

/// Rows come in the order of the Gateway routes.
pub proof fn law_rows_in_order(listener: GwListener, routes: Seq<GwRoute>, n: int)
    requires
        0 < n <= routes.len(),
    ensures
        all_routes(listener, routes, n) == all_routes(listener, routes, n - 1) + routes_of(
            listener,
            routes[n - 1],
        ),
        forall|k: int, row: RouteModel|
            0 <= k < n && #[trigger] routes_of(listener, routes[k]).contains(row) ==> all_routes(
                listener,
                routes,
                n,
            ).contains(row),
    decreases n,
{
    let earlier = all_routes(listener, routes, n - 1);
    let own = routes_of(listener, routes[n - 1]);
    let all = all_routes(listener, routes, n);
    if n > 1 {
        law_rows_in_order(listener, routes, n - 1);
    }
    assert forall|k: int, row: RouteModel|
        0 <= k < n && #[trigger] routes_of(listener, routes[k]).contains(row) implies all.contains(row) by {
        if k < n - 1 {
            assert(earlier.contains(row));
            let x = earlier.index_of(row);
            assert(all[x] == row);
        } else {
            let x = own.index_of(row);
            assert(all[earlier.len() + x] == row);
        }
    }
}

/// A redirect leads to its host with the path and query of the request. The
/// scheme is plain HTTP, the status 302 and the port that of the scheme unless
/// they are given.
pub proof fn law_redirect(redirect: RequestRedirect)
    ensures
        redirect.hostname@.len() == 0 || redirect.status_code > 65535 <==> redirect_of(redirect) is None,
        redirect_of(redirect) matches Some((status, location)) ==> {
            &&& redirect.status_code != 0 ==> status == redirect.status_code
            &&& redirect.status_code == 0 ==> status == 302
            &&& redirect.scheme@.len() > 0 && redirect.port != 0 ==> location == redirect.scheme@
                + "://"@ + redirect.hostname@ + ":"@ + decimal(redirect.port as nat) + "${path}${query}"@
            &&& redirect.scheme@.len() > 0 && redirect.port == 0 ==> location == redirect.scheme@
                + "://"@ + redirect.hostname@ + "${path}${query}"@
            &&& redirect.scheme@.len() == 0 && redirect.port == 0 ==> location == "http"@ + "://"@
                + redirect.hostname@ + "${path}${query}"@
            &&& redirect.scheme@.len() == 0 && redirect.port != 0 ==> location == "http"@ + "://"@
                + redirect.hostname@ + ":"@ + decimal(redirect.port as nat) + "${path}${query}"@
        },
{
}

/// A bare service name is reached in the namespace of its route; addresses,
/// names with dots and the local host are reached as they are.
pub proof fn law_qualified_host(host: Seq<char>, namespace: Seq<char>, rest: Seq<char>)
    requires
        !namespace.contains('/'),
    ensures
        ({
            let key = namespace + seq!['/'] + rest;
            &&& host.contains('.') ==> qualified_host(host, key) == host
            &&& is_ip(host) ==> qualified_host(host, key) == host
            &&& lower(host) == "localhost"@ ==> qualified_host(host, key) == host
            &&& namespace.len() == 0 ==> qualified_host(host, key) == host
            &&& namespace.len() > 0 && !host.contains('.') && !is_ip(host) && lower(host)
                != "localhost"@ ==> qualified_host(host, key) == host + "."@ + namespace
                + ".svc.cluster.local"@
        }),
{
    law_cut_at_first(namespace, '/', rest);
    reveal_strlit("localhost");
    assert(lower("localhost"@) =~= "localhost"@);
}

/// A backend is reached at its dial port, or else at its port.
pub proof fn law_backend_address(b: Backend, key: Seq<char>)
    ensures
        b.dial_port != 0 ==> backend_address(b, key) == qualified_host(b.host@, key) + ":"@ + decimal(
            b.dial_port as nat,
        ),
        b.dial_port == 0 ==> backend_address(b, key) == qualified_host(b.host@, key) + ":"@ + decimal(
            b.port as nat,
        ),
{
}

/// The weights of the first `n` backends together.
pub open spec fn total_weight(route: GwRoute, n: int) -> nat
    decreases n,
{
    if n <= 0 {
        0
    } else {
        total_weight(route, n - 1) + route.backends@[n - 1].weight as nat
    }
}

/// The endpoints of a route name each backend as often as its weight says, in
/// the order of the backends.
pub proof fn law_repeated_endpoints(route: GwRoute, n: int)
    requires
        0 <= n <= route.backends@.len(),
    ensures
        repeated_endpoints(route, n).len() == total_weight(route, n),
        forall|i: int, k: int|
            0 <= i < n && total_weight(route, i) <= k < total_weight(route, i + 1) ==> repeated_endpoints(
                route,
                n,
            )[k] == EndpointModel::Simple(
                #[trigger] address_at(route, i, k),
            ),
    decreases n,
{
    if n > 0 {
        law_repeated_endpoints(route, n - 1);
        lemma_weights_grow(route, n - 1);
        let earlier = repeated_endpoints(route, n - 1);
        let all = repeated_endpoints(route, n);
        assert forall|i: int, k: int|
            0 <= i < n && total_weight(route, i) <= k < total_weight(route, i + 1) implies all[k]
            == EndpointModel::Simple(#[trigger] address_at(route, i, k)) by {
            if i < n - 1 {
                assert(total_weight(route, i + 1) <= total_weight(route, n - 1));
                assert(all[k] == earlier[k]);
            }
        }
    }
}

/// The address of backend `i`.
pub open spec fn address_at(route: GwRoute, i: int, k: int) -> Seq<char> {
    backend_address(route.backends@[i], route.key@)
}

proof fn lemma_weights_grow(route: GwRoute, n: int)
    requires
        0 <= n,
    ensures
        forall|i: int| 0 <= i <= n ==> #[trigger] total_weight(route, i) <= total_weight(route, n),
    decreases n,
{
    if n > 0 {
        lemma_weights_grow(route, n - 1);
    }
}

/// The load balancer has one endpoint for each backend with weight, in order,
/// with its address and its weight.
pub proof fn law_weighted_endpoints(route: GwRoute, n: int)
    requires
        0 < n <= route.backends@.len(),
    ensures
        ({
            let b = route.backends@[n - 1];
            let all = weighted_endpoints(route, n);
            let earlier = weighted_endpoints(route, n - 1);
            &&& b.weight == 0 ==> all == earlier
            &&& b.weight > 0 ==> all.len() == earlier.len() + 1 && all.drop_last() == earlier
                && all.last().address() == backend_address(b, route.key@) && all.last().weight()
                == b.weight
            &&& b.weight == 1 ==> all.last() is Simple
            &&& b.weight > 1 ==> all.last() is Weighted
        }),
        weighted_endpoints(route, 0).len() == 0,
{
    let b = route.backends@[n - 1];
    if b.weight > 0 {
        assert(weighted_endpoints(route, n).drop_last() =~= weighted_endpoints(route, n - 1));
    }
}

/// TLS to a backend: certificates are verified exactly where there is an
/// authority, a client certificate needs its key, and the server name is that
/// of the backend. Invalid settings give no TLS.
pub proof fn law_cluster_tls(tls: BackendTls)
    ensures
        tls.invalid <==> cluster_tls(tls) is None,
        cluster_tls(tls) matches Some(t) ==> {
            &&& t.verify <==> t.ca is Some
            &&& tls.ca_cert@.len() > 0 ==> t.ca == Some(tls.ca_cert@)
            &&& tls.ca_cert@.len() == 0 ==> t.ca is None
            &&& tls.hostname@.len() > 0 ==> t.sni == Some(tls.hostname@)
            &&& tls.hostname@.len() == 0 ==> t.sni is None
            &&& t.client_cert is Some <==> tls.client_cert@.len() > 0 && tls.client_key@.len() > 0
            &&& t.client_cert matches Some((cert, key)) ==> cert == tls.client_cert@ && key
                == tls.client_key@
        },
{
}

/// A route's cluster speaks TLS as its first backend asks for.
pub proof fn law_route_tls(route: GwRoute)
    ensures
        route.backends@.len() == 0 ==> route_tls(route) is None,
        route.backends@.len() > 0 && route.backends@[0].tls is None ==> route_tls(route) is None,
        route.backends@.len() > 0 ==> (route.backends@[0].tls matches Some(tls) ==> route_tls(route)
            == cluster_tls(tls)),
{
}

} // verus!
