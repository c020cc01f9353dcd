//! Routes and clusters of a Gateway listener.

use vstd::prelude::*;

use crate::gwxds::backend::{all_weightless, backends_cluster_name, backends_name, build_route_tls, cluster_models, has_pool, repeat_endpoints, repeated_endpoints, route_tls, uses_pool, weightless, ClusterModel};
use crate::gwxds::hostname::{effective_route_hostnames, host_views, served_hosts};
use crate::gwxds::types::{Cluster, GwListener, GwRoute, RequestRedirect, RouteMatch};
use crate::number::{decimal, decimal_text};
use crate::path_match::{prefix_matches, prefix_specificity};
use crate::route::{HeaderChanges, RedirectAction, RequestHeaderModifier, Route};
use crate::text::{concat, concat3, copy_text, copy_texts, opt_text, same_text, trim_end, trim_end_char, views};
use crate::text_map::TextMap;

verus! {

/// A route as mathematical data.
pub struct RouteModel {
    pub path_prefix: Seq<char>,
    pub path_exact: Option<Seq<char>>,
    pub path_regex: Option<Seq<char>>,
    pub methods: Option<Seq<Seq<char>>>,
    pub host: Option<Seq<char>>,
    pub headers: Option<Map<Seq<char>, Seq<char>>>,
    pub redirect: Option<(u16, Seq<char>)>,
    pub request_changes: Option<HeaderChanges>,
    pub response_changes: Option<HeaderChanges>,
    pub invalid_backend_ref: bool,
    pub grpc_route: bool,
    pub cluster: Seq<char>,
    /// Whether anything else is set.
    pub more: bool,
}

pub open spec fn map_view(map: Option<TextMap>) -> Option<Map<Seq<char>, Seq<char>>> {
    match map {
        Some(m) => Some(m@),
        None => None,
    }
}

pub open spec fn list_view(list: Option<Vec<String>>) -> Option<Seq<Seq<char>>> {
    match list {
        Some(v) => Some(views(v@)),
        None => None,
    }
}

pub open spec fn redirect_view(redirect: Option<RedirectAction>) -> Option<(u16, Seq<char>)> {
    match redirect {
        Some(r) => Some((r.status, r.location@)),
        None => None,
    }
}

pub open spec fn changes_view(m: Option<RequestHeaderModifier>) -> Option<HeaderChanges> {
    match m {
        Some(c) => Some(c@),
        None => None,
    }
}

impl Route {
    pub open spec fn model(self) -> RouteModel {
        RouteModel {
            path_prefix: self.path_prefix@,
            path_exact: opt_text(self.path_exact),
            path_regex: opt_text(self.path_regex),
            methods: list_view(self.methods),
            host: opt_text(self.host),
            headers: map_view(self.headers),
            redirect: redirect_view(self.redirect),
            request_changes: changes_view(self.request_header_modifier),
            response_changes: changes_view(self.response_header_modifier),
            invalid_backend_ref: self.invalid_backend_ref,
            grpc_route: self.grpc_route,
            cluster: self.cluster@,
            more: self.query_params is Some || self.url_rewrite_hostname is Some
                || self.url_rewrite_path_full is Some || self.url_rewrite_path_prefix is Some
                || self.request_timeout_ms != 0 || self.backend_timeout_ms != 0 || self.cors is Some,
        }
    }
}

pub open spec fn route_models(routes: Seq<Route>) -> Seq<RouteModel> {
    routes.map_values(|r: Route| r.model())
}

/// The redirect that a route asks for; none without a hostname, and none with a
/// status that is out of range.
pub open spec fn redirect_of(redirect: RequestRedirect) -> Option<(u16, Seq<char>)> {
    let scheme = if redirect.scheme@.len() == 0 {
        "http"@
    } else {
        redirect.scheme@
    };
    let base = scheme + "://"@ + redirect.hostname@;
    let place = if redirect.port != 0 {
        base + ":"@ + decimal(redirect.port as nat)
    } else {
        base
    };
    if redirect.hostname@.len() == 0 || redirect.status_code > u16::MAX {
        None
    } else {
        Some(
            (
                if redirect.status_code == 0 {
                    302u16
                } else {
                    redirect.status_code as u16
                },
                place + "${path}${query}"@,
            ),
        )
    }
}

/// The redirect of a route.
pub open spec fn route_redirect(route: GwRoute) -> Option<(u16, Seq<char>)> {
    match route.request_redirect {
        Some(redirect) => redirect_of(redirect),
        None => None,
    }
}

/// Header changes; none where nothing is changed.
pub open spec fn changes_of(m: Option<RequestHeaderModifier>) -> Option<HeaderChanges> {
    match m {
        Some(c) => if c.set@.len() == 0 && c.add@.len() == 0 && c.remove@.len() == 0 {
            None
        } else {
            Some(c@)
        },
        None => None,
    }
}

/// A path prefix without trailing slashes; the root keeps its own.
pub open spec fn normal_prefix(prefix: Seq<char>) -> Seq<char> {
    if trim_end(prefix, '/').len() == 0 {
        "/"@
    } else {
        trim_end(prefix, '/')
    }
}

/// Path and methods that a match stands for. A gRPC service and method are a
/// path of two segments, requested with POST.
pub struct PathModel {
    pub prefix: Seq<char>,
    pub exact: Option<Seq<char>>,
    pub regex: Option<Seq<char>>,
    pub methods: Option<Seq<Seq<char>>>,
}

pub open spec fn post_only() -> Option<Seq<Seq<char>>> {
    Some(seq!["POST"@])
}

pub open spec fn path_of(m: RouteMatch, grpc: bool) -> PathModel {
    if grpc && (m.grpc_service@.len() > 0 || m.grpc_method@.len() > 0) {
        if m.grpc_service@.len() > 0 && m.grpc_method@.len() > 0 {
            PathModel {
                prefix: "/"@,
                exact: Some("/"@ + m.grpc_service@ + "/"@ + m.grpc_method@),
                regex: None,
                methods: post_only(),
            }
        } else if m.grpc_service@.len() > 0 {
            PathModel {
                prefix: "/"@ + m.grpc_service@,
                exact: None,
                regex: None,
                methods: post_only(),
            }
        } else {
            PathModel { prefix: "/"@, exact: None, regex: None, methods: post_only() }
        }
    } else {
        let methods = if grpc {
            post_only()
        } else if m.methods@.len() == 0 {
            None
        } else {
            Some(views(m.methods@))
        };
        if m.path_exact@.len() > 0 {
            PathModel { prefix: "/"@, exact: Some(m.path_exact@), regex: None, methods }
        } else if m.path_regex@.len() > 0 {
            PathModel { prefix: "/"@, exact: None, regex: Some(m.path_regex@), methods }
        } else if m.path_prefix@.len() > 0 {
            PathModel { prefix: normal_prefix(m.path_prefix@), exact: None, regex: None, methods }
        } else {
            PathModel { prefix: "/"@, exact: None, regex: None, methods }
        }
    }
}

/// The path and methods of a route without matches.
pub open spec fn any_path(grpc: bool) -> PathModel {
    PathModel {
        prefix: "/"@,
        exact: None,
        regex: None,
        methods: if grpc {
            post_only()
        } else {
            None
        },
    }
}

/// The header constraints of a match.
pub open spec fn match_headers(m: RouteMatch) -> Option<Map<Seq<char>, Seq<char>>> {
    if m.headers@.dom().len() == 0 {
        None
    } else {
        Some(m.headers@)
    }
}

/// The name of the cluster that a route leads to.
pub open spec fn route_cluster(route: GwRoute) -> Seq<char> {
    if route_redirect(route) is Some && route.backends@.len() == 0 {
        "__redirect__"@
    } else if route.invalid_backend_ref {
        "__invalid_backend__"@
    } else {
        backends_name(route)
    }
}

/// Whether a route is left out on a listener: it leads nowhere, leads to an
/// inference pool, shares no host with the listener, or has no weight.
pub open spec fn left_out(listener: GwListener, route: GwRoute) -> bool {
    let leads = route_redirect(route) is Some || route.invalid_backend_ref;
    ||| route.backends@.len() == 0 && !leads
    ||| has_pool(route)
    ||| served_hosts(listener, route) is None
    ||| route.backends@.len() > 0 && !leads && weightless(route)
}

/// A route of a path, headers and a host.
pub open spec fn model_of(
    route: GwRoute,
    path: PathModel,
    headers: Option<Map<Seq<char>, Seq<char>>>,
    host: Option<Seq<char>>,
) -> RouteModel {
    RouteModel {
        path_prefix: path.prefix,
        path_exact: path.exact,
        path_regex: path.regex,
        methods: path.methods,
        host,
        headers,
        redirect: route_redirect(route),
        request_changes: changes_of(route.request_header_modifier),
        response_changes: changes_of(route.response_header_modifier),
        invalid_backend_ref: route.invalid_backend_ref,
        grpc_route: route.grpc_route,
        cluster: route_cluster(route),
        more: false,
    }
}

/// One route for each host.
pub open spec fn for_hosts(
    route: GwRoute,
    path: PathModel,
    headers: Option<Map<Seq<char>, Seq<char>>>,
    hosts: Seq<Option<Seq<char>>>,
) -> Seq<RouteModel> {
    hosts.map_values(|host: Option<Seq<char>>| model_of(route, path, headers, host))
}

/// The routes of the first `n` matches, each for every host.
pub open spec fn for_matches(route: GwRoute, hosts: Seq<Option<Seq<char>>>, n: int) -> Seq<RouteModel>
    decreases n,
{
    if n <= 0 {
        Seq::empty()
    } else {
        for_matches(route, hosts, n - 1) + for_hosts(
            route,
            path_of(route.matches@[n - 1], route.grpc_route),
            match_headers(route.matches@[n - 1]),
            hosts,
        )
    }
}

/// The routes that a Gateway route becomes on a listener.
pub open spec fn routes_of(listener: GwListener, route: GwRoute) -> Seq<RouteModel> {
    if left_out(listener, route) {
        Seq::empty()
    } else {
        let hosts = served_hosts(listener, route)->0;
        if route.matches@.len() == 0 {
            for_hosts(route, any_path(route.grpc_route), None, hosts)
        } else {
            for_matches(route, hosts, route.matches@.len() as int)
        }
    }
}

/// The routes of the first `n` Gateway routes on a listener.
pub open spec fn all_routes(listener: GwListener, routes: Seq<GwRoute>, n: int) -> Seq<RouteModel>
    decreases n,
{
    if n <= 0 {
        Seq::empty()
    } else {
        all_routes(listener, routes, n - 1) + routes_of(listener, routes[n - 1])
    }
}

/// Whether a cluster has a name.
pub open spec fn has_name(clusters: Seq<ClusterModel>, name: Seq<char>) -> bool {
    exists|i: int| 0 <= i < clusters.len() && (#[trigger] clusters[i]).name == name
}

/// The cluster of a route's backends.
pub open spec fn cluster_of(route: GwRoute) -> ClusterModel {
    ClusterModel {
        name: route_cluster(route),
        endpoints: repeated_endpoints(route, route.backends@.len() as int),
        tls: route_tls(route),
    }
}

/// The clusters of the first `n` Gateway routes on a listener: the first one of
/// each name.
pub open spec fn all_clusters(listener: GwListener, routes: Seq<GwRoute>, n: int) -> Seq<ClusterModel>
    decreases n,
{
    if n <= 0 {
        Seq::empty()
    } else {
        let earlier = all_clusters(listener, routes, n - 1);
        let route = routes[n - 1];
        if left_out(listener, route) || route.backends@.len() == 0 || has_name(
            earlier,
            route_cluster(route),
        ) {
            earlier
        } else {
            earlier.push(cluster_of(route))
        }
    }
}

/// The redirect that a route asks for.
pub fn proto_redirect_to_action(redirect: &RequestRedirect) -> (r: Option<RedirectAction>)
    ensures
        redirect_view(r) == redirect_of(*redirect),
{
    if redirect.hostname.as_str().is_empty() {
        return None;
    }
    if redirect.status_code > 65535 {
        return None;
    }
    let scheme: &str = if redirect.scheme.as_str().is_empty() {
        "http"
    } else {
        redirect.scheme.as_str()
    };
    let mut location = concat3(scheme, "://", redirect.hostname.as_str());
    if redirect.port != 0 {
        location.append(":");
        let port = decimal_text(redirect.port as u64);
        location.append(port.as_str());
    }
    location.append("${path}${query}");
    let status: u16 = if redirect.status_code == 0 {
        302
    } else {
        redirect.status_code as u16
    };
    Some(RedirectAction { status, location })
}

fn redirect_for(route: &GwRoute) -> (r: Option<RedirectAction>)
    ensures
        redirect_view(r) == route_redirect(*route),
{
    match &route.request_redirect {
        Some(redirect) => proto_redirect_to_action(redirect),
        None => None,
    }
}

/// Header changes; none where nothing is changed.
pub fn proto_http_request_header_modifier(m: &Option<RequestHeaderModifier>) -> (r: Option<
    RequestHeaderModifier,
>)
    ensures
        changes_view(r) == changes_of(*m),
{
    match m {
        Some(c) => if c.set.len() == 0 && c.add.len() == 0 && c.remove.len() == 0 {
            None
        } else {
            Some(c.copy())
        },
        None => None,
    }
}

/// A path prefix without trailing slashes; the root keeps its own.
pub fn normalize_prefix(prefix: &str) -> (r: String)
    ensures
        r@ == normal_prefix(prefix@),
{
    let trimmed = trim_end_char(prefix, '/');
    if trimmed.as_str().is_empty() {
        "/".to_owned()
    } else {
        trimmed
    }
}

/// Path and methods of routes.
struct PathParts {
    prefix: String,
    exact: Option<String>,
    regex: Option<String>,
    methods: Option<Vec<String>>,
}

impl PathParts {
    spec fn model(self) -> PathModel {
        PathModel {
            prefix: self.prefix@,
            exact: opt_text(self.exact),
            regex: opt_text(self.regex),
            methods: list_view(self.methods),
        }
    }
}

fn post_methods() -> (r: Option<Vec<String>>)
    ensures
        list_view(r) == post_only(),
{
    let mut methods: Vec<String> = Vec::new();
    methods.push("POST".to_owned());
    assert(views(methods@) =~= seq!["POST"@]);
    Some(methods)
}

/// Path and methods that a match stands for.
fn resolve_grpc_or_http_match(m: &RouteMatch, grpc_route: bool) -> (r: PathParts)
    ensures
        r.model() == path_of(*m, grpc_route),
{
    let service = !m.grpc_service.as_str().is_empty();
    let method = !m.grpc_method.as_str().is_empty();
    if grpc_route && (service || method) {
        if service && method {
            let mut path = concat3("/", m.grpc_service.as_str(), "/");
            path.append(m.grpc_method.as_str());
            PathParts {
                prefix: "/".to_owned(),
                exact: Some(path),
                regex: None,
                methods: post_methods(),
            }
        } else if service {
            PathParts {
                prefix: concat("/", m.grpc_service.as_str()),
                exact: None,
                regex: None,
                methods: post_methods(),
            }
        } else {
            PathParts { prefix: "/".to_owned(), exact: None, regex: None, methods: post_methods() }
        }
    } else {
        let methods: Option<Vec<String>> = if grpc_route {
            post_methods()
        } else if m.methods.len() == 0 {
            None
        } else {
            Some(copy_texts(&m.methods))
        };
        if !m.path_exact.as_str().is_empty() {
            PathParts {
                prefix: "/".to_owned(),
                exact: Some(m.path_exact.clone()),
                regex: None,
                methods,
            }
        } else if !m.path_regex.as_str().is_empty() {
            PathParts {
                prefix: "/".to_owned(),
                exact: None,
                regex: Some(m.path_regex.clone()),
                methods,
            }
        } else if !m.path_prefix.as_str().is_empty() {
            PathParts {
                prefix: normalize_prefix(m.path_prefix.as_str()),
                exact: None,
                regex: None,
                methods,
            }
        } else {
            PathParts { prefix: "/".to_owned(), exact: None, regex: None, methods }
        }
    }
}

fn copy_opt(s: &Option<String>) -> (r: Option<String>)
    ensures
        r == *s,
{
    match s {
        Some(t) => Some(t.clone()),
        None => None,
    }
}

fn make_route(
    route: &GwRoute,
    path: &PathParts,
    headers: &Option<TextMap>,
    host: &Option<String>,
    cluster: &str,
) -> (r: Route)
    requires
        cluster@ == route_cluster(*route),
    ensures
        r.model() == model_of(*route, path.model(), map_view(*headers), opt_text(*host)),
{
    let methods: Option<Vec<String>> = match &path.methods {
        Some(list) => Some(copy_texts(list)),
        None => None,
    };
    let headers: Option<TextMap> = match headers {
        Some(map) => Some(map.copy()),
        None => None,
    };
    Route {
        path_prefix: path.prefix.clone(),
        path_exact: copy_opt(&path.exact),
        path_regex: copy_opt(&path.regex),
        methods,
        host: copy_opt(host),
        headers,
        query_params: None,
        redirect: redirect_for(route),
        request_header_modifier: proto_http_request_header_modifier(&route.request_header_modifier),
        response_header_modifier: proto_http_request_header_modifier(
            &route.response_header_modifier,
        ),
        url_rewrite_hostname: None,
        url_rewrite_path_full: None,
        url_rewrite_path_prefix: None,
        request_timeout_ms: 0,
        backend_timeout_ms: 0,
        invalid_backend_ref: route.invalid_backend_ref,
        grpc_route: route.grpc_route,
        cors: None,
        cluster: copy_text(cluster),
    }
}

/// Add one route for each host.
fn expand_hosts(
    out: &mut Vec<Route>,
    route: &GwRoute,
    path: &PathParts,
    headers: &Option<TextMap>,
    hosts: &Vec<Option<String>>,
    cluster: &str,
)
    requires
        cluster@ == route_cluster(*route),
    ensures
        route_models(final(out)@) == route_models(old(out)@) + for_hosts(
            *route,
            path.model(),
            map_view(*headers),
            host_views(hosts@),
        ),
{
    let ghost start = route_models(out@);
    let ghost added = for_hosts(*route, path.model(), map_view(*headers), host_views(hosts@));
    let mut i: usize = 0;
    assert(start + added.take(0) =~= start);
    while i < hosts.len()
        invariant
            i <= hosts@.len(),
            cluster@ == route_cluster(*route),
            added == for_hosts(*route, path.model(), map_view(*headers), host_views(hosts@)),
            route_models(out@) == start + added.take(i as int),
        decreases hosts@.len() - i,
    {
        let ghost before = route_models(out@);
        let r = make_route(route, path, headers, &hosts[i], cluster);
        assert(r.model() == added[i as int]);
        out.push(r);
        assert(route_models(out@) =~= before.push(r.model()));
        assert(start + added.take(i + 1) =~= (start + added.take(i as int)).push(added[i as int]));
        i = i + 1;
    }
    assert(added.take(hosts@.len() as int) =~= added);
}

fn cluster_name_for(route: &GwRoute, redirects: bool) -> (r: String)
    requires
        redirects == (route_redirect(*route) is Some),
    ensures
        r@ == route_cluster(*route),
{
    if redirects && route.backends.len() == 0 {
        "__redirect__".to_owned()
    } else if route.invalid_backend_ref {
        "__invalid_backend__".to_owned()
    } else {
        backends_cluster_name(route)
    }
}

/// Whether a cluster has a name.
pub fn name_taken(clusters: &Vec<Cluster>, name: &str) -> (r: bool)
    ensures
        r == has_name(cluster_models(clusters@), name@),
{
    let ghost models = cluster_models(clusters@);
    let mut i: usize = 0;
    while i < clusters.len()
        invariant
            i <= clusters@.len(),
            models == cluster_models(clusters@),
            forall|k: int| 0 <= k < i ==> (#[trigger] models[k]).name != name@,
        decreases clusters@.len() - i,
    {
        assert(models[i as int] == clusters@[i as int].model());
        if same_text(clusters[i].name.as_str(), name) {
            return true;
        }
        i = i + 1;
    }
    false
}

/// The routes and the clusters of a resource on a listener.
pub fn build_routes_and_clusters(listener: &GwListener, gw_routes: &Vec<GwRoute>) -> (r: (
    Vec<Route>,
    Vec<Cluster>,
))
    ensures
        route_models(r.0@) == all_routes(*listener, gw_routes@, gw_routes@.len() as int),
        cluster_models(r.1@) == all_clusters(*listener, gw_routes@, gw_routes@.len() as int),
{
    let mut routes: Vec<Route> = Vec::new();
    let mut clusters: Vec<Cluster> = Vec::new();
    assert(route_models(routes@) =~= Seq::<RouteModel>::empty());
    assert(cluster_models(clusters@) =~= Seq::<ClusterModel>::empty());
    let mut i: usize = 0;
    while i < gw_routes.len()
        invariant
            i <= gw_routes@.len(),
            route_models(routes@) == all_routes(*listener, gw_routes@, i as int),
            cluster_models(clusters@) == all_clusters(*listener, gw_routes@, i as int),
        decreases gw_routes@.len() - i,
    {
        let route = &gw_routes[i];
        let ghost routes0 = route_models(routes@);
        let redirects = redirect_for(route).is_some();
        let leads = redirects || route.invalid_backend_ref;
        let lost = (route.backends.len() == 0 && !leads) || uses_pool(route) || (
        route.backends.len() > 0 && !leads && all_weightless(route));
        let served = effective_route_hostnames(listener, route);
        match served {
            Some(hosts) => {
                if !lost {
                    assert(!left_out(*listener, *route));
                    let cluster = cluster_name_for(route, redirects);
                    if route.backends.len() > 0 && !name_taken(&clusters, cluster.as_str()) {
                        let ghost before = cluster_models(clusters@);
                        let c = Cluster {
                            name: cluster.clone(),
                            endpoints: repeat_endpoints(route),
                            tls: build_route_tls(route),
                        };
                        assert(c.model() == cluster_of(*route));
                        clusters.push(c);
                        assert(cluster_models(clusters@) =~= before.push(c.model()));
                    }
                    if route.matches.len() == 0 {
                        let path = PathParts {
                            prefix: "/".to_owned(),
                            exact: None,
                            regex: None,
                            methods: if route.grpc_route {
                                post_methods()
                            } else {
                                None
                            },
                        };
                        expand_hosts(&mut routes, route, &path, &None, &hosts, cluster.as_str());
                    } else {
                        expand_matches(&mut routes, route, &hosts, cluster.as_str());
                    }
                } else {
                    assert(left_out(*listener, *route));
                    assert(routes0 + Seq::<RouteModel>::empty() =~= routes0);
                }
            },
            None => {
                assert(left_out(*listener, *route));
                assert(routes0 + Seq::<RouteModel>::empty() =~= routes0);
            },
        }
        i = i + 1;
    }
    (routes, clusters)
}

/// Add the routes of all matches of a Gateway route, each for every host.
fn expand_matches(
    out: &mut Vec<Route>,
    route: &GwRoute,
    hosts: &Vec<Option<String>>,
    cluster: &str,
)
    requires
        cluster@ == route_cluster(*route),
    ensures
        route_models(final(out)@) == route_models(old(out)@) + for_matches(
            *route,
            host_views(hosts@),
            route.matches@.len() as int,
        ),
{
    let ghost start = route_models(out@);
    assert(start + Seq::<RouteModel>::empty() =~= start);
    let mut j: usize = 0;
    while j < route.matches.len()
        invariant
            j <= route.matches@.len(),
            cluster@ == route_cluster(*route),
            route_models(out@) == start + for_matches(*route, host_views(hosts@), j as int),
        decreases route.matches@.len() - j,
    {
        let ghost before = route_models(out@);
        let m = &route.matches[j];
        let path = resolve_grpc_or_http_match(m, route.grpc_route);
        let headers: Option<TextMap> = if m.headers.len() == 0 {
            None
        } else {
            Some(m.headers.copy())
        };
        expand_hosts(out, route, &path, &headers, hosts, cluster);
        assert(route_models(out@) =~= start + for_matches(*route, host_views(hosts@), j + 1));
        j = j + 1;
    }
}

/// A normalized prefix matches the same paths, and is as specific.
pub proof fn law_normal_prefix_matches_the_same(path: Seq<char>, prefix: Seq<char>)
    ensures
        prefix_matches(path, normal_prefix(prefix)) == prefix_matches(path, prefix),
        prefix_specificity(normal_prefix(prefix)) == prefix_specificity(prefix),
        normal_prefix(normal_prefix(prefix)) == normal_prefix(prefix),
{
    reveal_strlit("/");
    lemma_trim_idempotent(prefix);
    if trim_end(prefix, '/').len() == 0 {
        assert("/"@.drop_last() =~= Seq::<char>::empty());
        assert(trim_end("/"@, '/') == trim_end(Seq::<char>::empty(), '/'));
    }
}

proof fn lemma_trim_idempotent(s: Seq<char>)
    ensures
        trim_end(trim_end(s, '/'), '/') == trim_end(s, '/'),
    decreases s.len(),
{
    if s.len() > 0 && s.last() == '/' {
        lemma_trim_idempotent(s.drop_last());
    }
}

/// No two clusters of a resource have the same name.
pub proof fn law_cluster_names_differ(listener: GwListener, routes: Seq<GwRoute>, n: int, i: int, j: int)
    requires
        0 <= n <= routes.len(),
        0 <= i < j < all_clusters(listener, routes, n).len(),
    ensures
        all_clusters(listener, routes, n)[i].name != all_clusters(listener, routes, n)[j].name,
    decreases n,
{
    if n > 0 {
        let earlier = all_clusters(listener, routes, n - 1);
        if j < earlier.len() {
            law_cluster_names_differ(listener, routes, n - 1, i, j);
        } else {
            assert(!has_name(earlier, route_cluster(routes[n - 1])));
            assert(earlier[i].name != route_cluster(routes[n - 1]));
        }
    }
}

} // verus!
