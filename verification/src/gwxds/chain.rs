//! Filters of a listener: the load balancer, and the router for TLS
//! passthrough.

use vstd::prelude::*;

use crate::gwxds::backend::{backend_address, backend_cluster_name, backends_cluster_name, backends_name, build_route_tls, cluster_models, has_pool, route_tls, uses_pool, weigh_endpoints, weighted_endpoints, ClusterModel};
use crate::gwxds::hostname::{effective_route_hostnames, host_views, served_hosts};
use crate::gwxds::routes::{has_name, name_taken};
use crate::gwxds::types::{Cluster, FilterConfig, GwListener, GwRoute};
use crate::sni::router::SniRouteEntry;
use crate::text::{opt_text, same_text, views};

verus! {

/// The cluster that the load balancer has for a route.
pub open spec fn lb_cluster(route: GwRoute) -> ClusterModel {
    ClusterModel {
        name: backends_name(route),
        endpoints: weighted_endpoints(route, route.backends@.len() as int),
        tls: route_tls(route),
    }
}

/// The clusters of a load balancer after the first `n` routes, where `before`
/// were there: one for the backends of each route, the first one of each name.
pub open spec fn lb_clusters(before: Seq<ClusterModel>, routes: Seq<GwRoute>, n: int) -> Seq<
    ClusterModel,
>
    decreases n,
{
    if n <= 0 {
        before
    } else {
        let earlier = lb_clusters(before, routes, n - 1);
        let route = routes[n - 1];
        if route.backends@.len() == 0 || has_pool(route) || has_name(earlier, backends_name(route)) {
            earlier
        } else {
            earlier.push(lb_cluster(route))
        }
    }
}

/// Add the clusters of routes to those of a load balancer.
pub fn add_lb_clusters(clusters: &mut Vec<Cluster>, routes: &Vec<GwRoute>)
    ensures
        cluster_models(final(clusters)@) == lb_clusters(
            cluster_models(old(clusters)@),
            routes@,
            routes@.len() as int,
        ),
{
    let ghost start = cluster_models(clusters@);
    let mut i: usize = 0;
    while i < routes.len()
        invariant
            i <= routes@.len(),
            cluster_models(clusters@) == lb_clusters(start, routes@, i as int),
        decreases routes@.len() - i,
    {
        let route = &routes[i];
        if route.backends.len() > 0 && !uses_pool(route) {
            let name = backends_cluster_name(route);
            if !name_taken(clusters, name.as_str()) {
                let ghost before = cluster_models(clusters@);
                let c = Cluster {
                    name,
                    endpoints: weigh_endpoints(route),
                    tls: build_route_tls(route),
                };
                assert(c.model() == lb_cluster(*route));
                clusters.push(c);
                assert(cluster_models(clusters@) =~= before.push(c.model()));
            }
        }
        i = i + 1;
    }
}

/// The load balancer for routes.
pub fn build_lb_entry(routes: &Vec<GwRoute>) -> (r: FilterConfig)
    ensures
        r matches FilterConfig::LoadBalancer { clusters } && cluster_models(clusters@) == lb_clusters(
            Seq::empty(),
            routes@,
            routes@.len() as int,
        ),
{
    let mut clusters: Vec<Cluster> = Vec::new();
    assert(cluster_models(clusters@) =~= Seq::<ClusterModel>::empty());
    add_lb_clusters(&mut clusters, routes);
    FilterConfig::LoadBalancer { clusters }
}

/// A passthrough route as mathematical data.
pub struct SniModel {
    pub names: Seq<Seq<char>>,
    pub upstream: Seq<char>,
}

/// The passthrough routes and the default upstream.
pub struct SniState {
    pub routes: Seq<SniModel>,
    pub default: Option<Seq<char>>,
}

impl SniRouteEntry {
    pub open spec fn model(self) -> SniModel {
        SniModel { names: views(self.server_names@), upstream: self.upstream@ }
    }
}

pub open spec fn sni_models(routes: Seq<SniRouteEntry>) -> Seq<SniModel> {
    routes.map_values(|e: SniRouteEntry| e.model())
}

/// Whether a route has a name already.
pub open spec fn name_seen(routes: Seq<SniModel>, name: Seq<char>) -> bool {
    exists|k: int| 0 <= k < routes.len() && (#[trigger] routes[k]).names.contains(name)
}

/// The names among the first `n` hosts that no route has.
pub open spec fn new_names(routes: Seq<SniModel>, hosts: Seq<Option<Seq<char>>>, n: int) -> Seq<
    Seq<char>,
>
    decreases n,
{
    if n <= 0 {
        Seq::empty()
    } else {
        let earlier = new_names(routes, hosts, n - 1);
        match hosts[n - 1] {
            Some(name) => if name_seen(routes, name) {
                earlier
            } else {
                earlier.push(name)
            },
            None => earlier,
        }
    }
}

/// The state after one more Gateway route. A route for any host gives the
/// default upstream, where there is none yet; one whose names are all taken
/// gives nothing.
pub open spec fn sni_step(state: SniState, listener: GwListener, route: GwRoute) -> SniState {
    match served_hosts(listener, route) {
        Some(hosts) if route.backends@.len() > 0 => {
            let names = new_names(state.routes, hosts, hosts.len() as int);
            let upstream = backend_address(route.backends@[0], route.key@);
            if names.len() > 0 {
                SniState {
                    routes: state.routes.push(SniModel { names, upstream }),
                    default: state.default,
                }
            } else if hosts.contains(None) && state.default is None {
                SniState { routes: state.routes, default: Some(upstream) }
            } else {
                state
            }
        },
        _ => state,
    }
}

/// The state after the first `n` routes of a listener.
pub open spec fn sni_state(before: SniState, listener: GwListener, routes: Seq<GwRoute>, n: int) -> SniState
    decreases n,
{
    if n <= 0 {
        before
    } else {
        sni_step(sni_state(before, listener, routes, n - 1), listener, routes[n - 1])
    }
}

pub open spec fn state_of(routes: Seq<SniRouteEntry>, default: Option<String>) -> SniState {
    SniState { routes: sni_models(routes), default: opt_text(default) }
}

fn is_seen(routes: &Vec<SniRouteEntry>, name: &str) -> (r: bool)
    ensures
        r == name_seen(sni_models(routes@), name@),
{
    let ghost models = sni_models(routes@);
    let mut i: usize = 0;
    while i < routes.len()
        invariant
            i <= routes@.len(),
            models == sni_models(routes@),
            forall|k: int| 0 <= k < i ==> !(#[trigger] models[k]).names.contains(name@),
        decreases routes@.len() - i,
    {
        let names = &routes[i].server_names;
        assert(models[i as int].names == views(names@));
        let mut j: usize = 0;
        while j < names.len()
            invariant
                j <= names@.len(),
                i < routes@.len(),
                models == sni_models(routes@),
                models[i as int].names == views(names@),
                forall|k: int| 0 <= k < j ==> #[trigger] views(names@)[k] != name@,
            decreases names@.len() - j,
        {
            assert(views(names@)[j as int] == names@[j as int]@);
            if same_text(names[j].as_str(), name) {
                assert(models[i as int].names.contains(name@));
                return true;
            }
            j = j + 1;
        }
        i = i + 1;
    }
    false
}

fn fresh_names(routes: &Vec<SniRouteEntry>, hosts: &Vec<Option<String>>) -> (r: Vec<String>)
    ensures
        views(r@) == new_names(sni_models(routes@), host_views(hosts@), hosts@.len() as int),
{
    let mut out: Vec<String> = Vec::new();
    assert(views(out@) =~= Seq::<Seq<char>>::empty());
    let ghost all = host_views(hosts@);
    let mut i: usize = 0;
    while i < hosts.len()
        invariant
            i <= hosts@.len(),
            all == host_views(hosts@),
            views(out@) == new_names(sni_models(routes@), all, i as int),
        decreases hosts@.len() - i,
    {
        assert(all[i as int] == opt_text(hosts@[i as int]));
        let ghost earlier = views(out@);
        if let Some(name) = &hosts[i] {
            if !is_seen(routes, name.as_str()) {
                out.push(name.clone());
                assert(views(out@) =~= earlier.push(name@));
            }
        }
        i = i + 1;
    }
    out
}

/// Whether any host is served.
fn serves_any_host(hosts: &Vec<Option<String>>) -> (r: bool)
    ensures
        r == host_views(hosts@).contains(None),
{
    let ghost all = host_views(hosts@);
    let mut i: usize = 0;
    while i < hosts.len()
        invariant
            i <= hosts@.len(),
            all == host_views(hosts@),
            forall|k: int| 0 <= k < i ==> (#[trigger] all[k]) is Some,
        decreases hosts@.len() - i,
    {
        assert(all[i as int] == opt_text(hosts@[i as int]));
        if hosts[i].is_none() {
            assert(all.contains(all[i as int]));
            return true;
        }
        i = i + 1;
    }
    false
}

/// Add the routes of a listener to those of a passthrough router.
pub fn add_sni_routes(
    routes: &mut Vec<SniRouteEntry>,
    default_upstream: &mut Option<String>,
    listener: &GwListener,
    gw_routes: &Vec<GwRoute>,
)
    ensures
        state_of(final(routes)@, *final(default_upstream)) == sni_state(
            state_of(old(routes)@, *old(default_upstream)),
            *listener,
            gw_routes@,
            gw_routes@.len() as int,
        ),
{
    let ghost start = state_of(routes@, *default_upstream);
    let mut i: usize = 0;
    while i < gw_routes.len()
        invariant
            i <= gw_routes@.len(),
            state_of(routes@, *default_upstream) == sni_state(
                start,
                *listener,
                gw_routes@,
                i as int,
            ),
        decreases gw_routes@.len() - i,
    {
        let route = &gw_routes[i];
        if route.backends.len() > 0 {
            if let Some(hosts) = effective_route_hostnames(listener, route) {
                let upstream = backend_cluster_name(&route.backends[0], route.key.as_str());
                let names = fresh_names(routes, &hosts);
                assert(host_views(hosts@).len() == hosts@.len());
                assert(views(names@).len() == names@.len());
                let ghost before = sni_models(routes@);
                if names.len() > 0 {
                    let entry = SniRouteEntry { server_names: names, upstream };
                    routes.push(entry);
                    assert(sni_models(routes@) =~= before.push(entry.model()));
                } else if serves_any_host(&hosts) && default_upstream.is_none() {
                    *default_upstream = Some(upstream);
                }
            }
        }
        i = i + 1;
    }
}

/// No name belongs to two passthrough routes.
pub open spec fn names_apart(routes: Seq<SniModel>) -> bool {
    forall|a: int, b: int, name: Seq<char>|
        0 <= a < b < routes.len() && #[trigger] routes[a].names.contains(name)
            ==> !(#[trigger] routes[b].names.contains(name))
}

proof fn lemma_new_names(routes: Seq<SniModel>, hosts: Seq<Option<Seq<char>>>, n: int)
    requires
        0 <= n <= hosts.len(),
    ensures
        forall|name: Seq<char>| #[trigger]
            new_names(routes, hosts, n).contains(name) ==> !name_seen(routes, name),
    decreases n,
{
    if n > 0 {
        lemma_new_names(routes, hosts, n - 1);
        let earlier = new_names(routes, hosts, n - 1);
        let now = new_names(routes, hosts, n);
        assert forall|name: Seq<char>| #[trigger] now.contains(name) implies !name_seen(
            routes,
            name,
        ) by {
            let k = now.index_of(name);
            if k < earlier.len() {
                assert(earlier[k] == name);
                assert(earlier.contains(name));
            }
        }
    }
}

/// Adding a Gateway route keeps the names of passthrough routes apart.
pub proof fn law_sni_names_stay_apart(state: SniState, listener: GwListener, route: GwRoute)
    requires
        names_apart(state.routes),
    ensures
        names_apart(sni_step(state, listener, route).routes),
{
    let next = sni_step(state, listener, route).routes;
    if let Some(hosts) = served_hosts(listener, route) {
        lemma_new_names(state.routes, hosts, hosts.len() as int);
        assert forall|a: int, b: int, name: Seq<char>|
            0 <= a < b < next.len() && #[trigger] next[a].names.contains(name) implies !(
        #[trigger] next[b].names.contains(name)) by {
            if b < state.routes.len() {
                assert(next[a] == state.routes[a] && next[b] == state.routes[b]);
            } else {
                assert(next[a] == state.routes[a]);
                assert(name_seen(state.routes, name));
            }
        }
    }
}

} // verus!
