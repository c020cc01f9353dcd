//! What routes lead to: every cluster that a router names is one that the load
//! balancer beside it has.

use vstd::prelude::*;

use crate::gwxds::backend::{backends_name, has_pool, ClusterModel};
use crate::gwxds::chain::lb_clusters;
use crate::gwxds::hostname::served_hosts;
use crate::gwxds::routes::{all_clusters, all_routes, any_path, for_hosts, for_matches, has_name, left_out, match_headers, path_of, route_cluster, route_redirect, routes_of, RouteModel};
use crate::gwxds::translate::{config_clusters, group_clusters, group_lb, group_routes, member_listener, merged, passes_tls, GroupModel};
use crate::gwxds::types::{GwListener, GwRoute, Resource};

verus! {

/// Whether a route of the router needs no cluster: it redirects without
/// backends, or its backends are invalid and it is answered with an error.
pub open spec fn needs_no_cluster(row: RouteModel) -> bool {
    row.invalid_backend_ref || (row.redirect is Some && row.cluster == "__redirect__"@)
}

/// Whether a route of the router comes from a Gateway route.
spec fn comes_from(row: RouteModel, route: GwRoute) -> bool {
    &&& row.cluster == route_cluster(route)
    &&& row.redirect == route_redirect(route)
    &&& row.invalid_backend_ref == route.invalid_backend_ref
}

proof fn lemma_matches_come(route: GwRoute, hosts: Seq<Option<Seq<char>>>, n: int, x: int)
    requires
        0 <= n,
        0 <= x < for_matches(route, hosts, n).len(),
    ensures
        comes_from(for_matches(route, hosts, n)[x], route),
    decreases n,
{
    if n > 0 {
        let earlier = for_matches(route, hosts, n - 1);
        let rows = for_hosts(
            route,
            path_of(route.matches@[n - 1], route.grpc_route),
            match_headers(route.matches@[n - 1]),
            hosts,
        );
        if x < earlier.len() {
            lemma_matches_come(route, hosts, n - 1, x);
            assert((earlier + rows)[x] == earlier[x]);
        } else {
            assert((earlier + rows)[x] == rows[x - earlier.len()]);
        }
    }
}

proof fn lemma_rows_come(listener: GwListener, route: GwRoute, x: int)
    requires
        0 <= x < routes_of(listener, route).len(),
    ensures
        !left_out(listener, route),
        comes_from(routes_of(listener, route)[x], route),
{
    let hosts = served_hosts(listener, route)->0;
    if route.matches@.len() > 0 {
        lemma_matches_come(route, hosts, route.matches@.len() as int, x);
    } else {
        let rows = for_hosts(route, any_path(route.grpc_route), None, hosts);
        assert(comes_from(rows[x], route));
    }
}

/// The Gateway route that a route of the router comes from.
proof fn lemma_all_rows_come(listener: GwListener, routes: Seq<GwRoute>, n: int, x: int) -> (k: int)
    requires
        0 <= n <= routes.len(),
        0 <= x < all_routes(listener, routes, n).len(),
    ensures
        0 <= k < n,
        !left_out(listener, routes[k]),
        comes_from(all_routes(listener, routes, n)[x], routes[k]),
    decreases n,
{
    if n <= 0 {
        0
    } else {
        let earlier = all_routes(listener, routes, n - 1);
        let rows = routes_of(listener, routes[n - 1]);
        if x < earlier.len() {
            assert((earlier + rows)[x] == earlier[x]);
            lemma_all_rows_come(listener, routes, n - 1, x)
        } else {
            assert((earlier + rows)[x] == rows[x - earlier.len()]);
            lemma_rows_come(listener, routes[n - 1], x - earlier.len());
            n - 1
        }
    }
}

proof fn lemma_push_keeps(clusters: Seq<ClusterModel>, c: ClusterModel, name: Seq<char>)
    requires
        has_name(clusters, name) || c.name == name,
    ensures
        has_name(clusters.push(c), name),
{
    let more = clusters.push(c);
    if has_name(clusters, name) {
        let i = choose|i: int| 0 <= i < clusters.len() && (#[trigger] clusters[i]).name == name;
        assert(more[i].name == name);
    } else {
        assert(more[clusters.len() as int].name == name);
    }
}

proof fn lemma_lb_keeps(before: Seq<ClusterModel>, routes: Seq<GwRoute>, n: int, name: Seq<char>)
    requires
        has_name(before, name),
    ensures
        has_name(lb_clusters(before, routes, n), name),
    decreases n,
{
    if n > 0 {
        lemma_lb_keeps(before, routes, n - 1, name);
        let earlier = lb_clusters(before, routes, n - 1);
        let now = lb_clusters(before, routes, n);
        if now != earlier {
            lemma_push_keeps(earlier, now.last(), name);
        }
    }
}

proof fn lemma_lb_has(before: Seq<ClusterModel>, routes: Seq<GwRoute>, n: int, k: int)
    requires
        0 <= k < n <= routes.len(),
        routes[k].backends@.len() > 0,
        !has_pool(routes[k]),
    ensures
        has_name(lb_clusters(before, routes, n), backends_name(routes[k])),
    decreases n,
{
    let name = backends_name(routes[k]);
    let earlier = lb_clusters(before, routes, n - 1);
    let now = lb_clusters(before, routes, n);
    if k < n - 1 {
        lemma_lb_has(before, routes, n - 1, k);
    }
    if now != earlier {
        lemma_push_keeps(earlier, now.last(), name);
    }
}

/// On a listener that routes requests, each route of the router leads to a
/// cluster of the load balancer, unless it redirects or its backends are
/// invalid.
pub proof fn law_routes_are_served(resources: Seq<Resource>, members: Seq<usize>, n: int, x: int)
    requires
        0 <= n <= members.len(),
        0 <= x < group_routes(resources, members, n).len(),
    ensures
        ({
            let row = group_routes(resources, members, n)[x];
            needs_no_cluster(row) || has_name(group_lb(resources, members, n), row.cluster)
        }),
    decreases n,
{
    if n > 0 {
        let m = members[n - 1];
        let listener = member_listener(resources, m);
        let list = resources[m as int].routes@;
        let count = list.len() as int;
        let earlier = group_routes(resources, members, n - 1);
        let rows = all_routes(listener, list, count);
        let before = group_lb(resources, members, n - 1);
        if x < earlier.len() {
            assert((earlier + rows)[x] == earlier[x]);
            law_routes_are_served(resources, members, n - 1, x);
            if has_name(before, earlier[x].cluster) {
                lemma_lb_keeps(before, list, count, earlier[x].cluster);
            }
        } else {
            assert((earlier + rows)[x] == rows[x - earlier.len()]);
            let k = lemma_all_rows_come(listener, list, count, x - earlier.len());
            if list[k].backends@.len() > 0 {
                lemma_lb_has(before, list, count, k);
            }
        }
    }
}

proof fn lemma_clusters_have(listener: GwListener, routes: Seq<GwRoute>, n: int, k: int)
    requires
        0 <= k < n <= routes.len(),
        routes[k].backends@.len() > 0,
        !left_out(listener, routes[k]),
    ensures
        has_name(all_clusters(listener, routes, n), route_cluster(routes[k])),
    decreases n,
{
    let name = route_cluster(routes[k]);
    let earlier = all_clusters(listener, routes, n - 1);
    let now = all_clusters(listener, routes, n);
    if k < n - 1 {
        lemma_clusters_have(listener, routes, n - 1, k);
    }
    if now != earlier {
        lemma_push_keeps(earlier, now.last(), name);
    }
}

proof fn lemma_joined_keeps(a: Seq<ClusterModel>, b: Seq<ClusterModel>, name: Seq<char>)
    requires
        has_name(a, name) || has_name(b, name),
    ensures
        has_name(a + b, name),
{
    if has_name(a, name) {
        let i = choose|i: int| 0 <= i < a.len() && (#[trigger] a[i]).name == name;
        assert((a + b)[i].name == name);
    } else {
        let i = choose|i: int| 0 <= i < b.len() && (#[trigger] b[i]).name == name;
        assert((a + b)[a.len() + i].name == name);
    }
}

proof fn lemma_group_clusters_have(resources: Seq<Resource>, members: Seq<usize>, n: int, x: int)
    requires
        0 <= n <= members.len(),
        0 <= x < group_routes(resources, members, n).len(),
    ensures
        ({
            let row = group_routes(resources, members, n)[x];
            needs_no_cluster(row) || has_name(group_clusters(resources, members, n), row.cluster)
        }),
    decreases n,
{
    if n > 0 {
        let m = members[n - 1];
        let listener = member_listener(resources, m);
        let list = resources[m as int].routes@;
        let count = list.len() as int;
        let earlier = group_routes(resources, members, n - 1);
        let rows = all_routes(listener, list, count);
        let before = group_clusters(resources, members, n - 1);
        let own = all_clusters(listener, list, count);
        let row = group_routes(resources, members, n)[x];
        if x < earlier.len() {
            assert((earlier + rows)[x] == earlier[x]);
            lemma_group_clusters_have(resources, members, n - 1, x);
        } else {
            assert((earlier + rows)[x] == rows[x - earlier.len()]);
            let k = lemma_all_rows_come(listener, list, count, x - earlier.len());
            if list[k].backends@.len() > 0 {
                lemma_clusters_have(listener, list, count, k);
            }
        }
        if !needs_no_cluster(row) {
            lemma_joined_keeps(before, own, row.cluster);
        }
    }
}

proof fn lemma_merged_keeps(before: Seq<ClusterModel>, list: Seq<ClusterModel>, n: int, name: Seq<char>)
    requires
        0 <= n <= list.len(),
        has_name(before, name) || has_name(list.take(n), name),
    ensures
        has_name(merged(before, list, n), name),
    decreases n,
{
    if n > 0 {
        let earlier = merged(before, list, n - 1);
        let now = merged(before, list, n);
        if !has_name(before, name) && !has_name(list.take(n - 1), name) {
            let i = choose|i: int| 0 <= i < n && (#[trigger] list.take(n)[i]).name == name;
            if i < n - 1 {
                assert(list.take(n - 1)[i].name == name);
            }
            assert(list[n - 1].name == name);
        } else {
            lemma_merged_keeps(before, list, n - 1, name);
        }
        if now != earlier {
            lemma_push_keeps(earlier, list[n - 1], name);
        }
    }
}

/// Each route of a listener that routes requests leads to a cluster of the
/// configuration, unless it redirects or its backends are invalid.
pub proof fn law_routed_clusters_are_configured(
    resources: Seq<Resource>,
    groups: Seq<GroupModel>,
    n: int,
    g: int,
    x: int,
)
    requires
        0 <= g < n <= groups.len(),
        !passes_tls(resources, groups[g].members),
        0 <= x < group_routes(resources, groups[g].members, groups[g].members.len() as int).len(),
    ensures
        ({
            let row = group_routes(resources, groups[g].members, groups[g].members.len() as int)[x];
            needs_no_cluster(row) || has_name(config_clusters(resources, groups, n), row.cluster)
        }),
    decreases n,
{
    let row = group_routes(resources, groups[g].members, groups[g].members.len() as int)[x];
    let earlier = config_clusters(resources, groups, n - 1);
    let members = groups[n - 1].members;
    let list = group_clusters(resources, members, members.len() as int);
    assert(list.take(list.len() as int) =~= list);
    if g < n - 1 {
        law_routed_clusters_are_configured(resources, groups, n - 1, g, x);
    } else {
        lemma_group_clusters_have(resources, members, members.len() as int, x);
    }
    if !needs_no_cluster(row) && !passes_tls(resources, members) {
        lemma_merged_keeps(earlier, list, list.len() as int, row.cluster);
    }
}

} // verus!
