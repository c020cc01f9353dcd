//! What a proxy configuration holds of the resources that it is made from.

use vstd::prelude::*;
use vstd::utf8::encode_utf8;

use crate::gwxds::backend::{backend_address, backends_name, has_pool, repeated_endpoints, route_tls, weighted_endpoints, ClusterModel};
use crate::gwxds::chain::{lb_clusters, name_seen, new_names, sni_state, sni_step, SniModel, SniState};
use crate::gwxds::bind::{bind_less, lemma_bind_total, Bind};
use crate::gwxds::hashing::{hex_text, text_hash, writes};
use crate::gwxds::hostname::{below, common_host, common_hosts, pattern_of, served_hosts, HostModel};
use crate::gwxds::laws::{is_row_of, row_for};
use crate::gwxds::routes::{all_clusters, all_routes, has_name, left_out, route_cluster};
use crate::gwxds::translate::{config_clusters, group_chain, group_clusters, group_listener, group_name, group_routes, is_translation, listener_of, member_keys, member_listener, merged, passes_tls, GroupModel};
use crate::gwxds::types::{Config, GwListener, GwRoute, Protocol, ProtocolKind, Resource};
use crate::number::{decimal, digit};
use crate::streaming::laws::hex_number;
use crate::text::{is_whitespace, lower, trim, views};
use crate::text_laws::{law_stripped, law_trim, law_whitespace};

verus! {

/// A listener listens on its port at every address, speaks TCP where its protocol
/// does and HTTP otherwise, and has TLS where certificate and key are there.
pub proof fn law_listener(gw: GwListener, chain: Seq<char>, name: Seq<char>)
    ensures
        ({
            let l = listener_of(gw, chain, name);
            &&& l.name == name
            &&& l.address == "0.0.0.0:"@ + decimal(gw.port as nat)
            &&& l.filter_chains.len() == 1 && l.filter_chains[0] == chain
            &&& gw.protocol == 3 || gw.protocol == 4 || gw.protocol == 5 <==> l.protocol == ProtocolKind::Tcp
            &&& l.protocol == ProtocolKind::Tcp || l.protocol == ProtocolKind::Http
            &&& gw.tls is None ==> l.tls is None
            &&& gw.tls matches Some(tls) ==> {
                &&& tls.cert_pem@.len() > 0 && tls.key_pem@.len() > 0 ==> l.tls == Some(
                    (tls.cert_pem@, tls.key_pem@),
                )
                &&& tls.cert_pem@.len() == 0 || tls.key_pem@.len() == 0 ==> l.tls is None
            }
        }),
{
}

/// A protocol is read back from its number.
pub proof fn law_protocol_numbers(p: Protocol, n: i32)
    ensures
        Protocol::of_code(p.code()) == p,
        n < 0 || n > 5 ==> Protocol::of_code(n) == Protocol::Unknown,
{
}

/// The listener of one resource has the resource's key as its name; one for
/// several is named by the port and a hash of their keys.
pub proof fn law_group_name(resources: Seq<Resource>, members: Seq<usize>)
    requires
        members.len() > 0,
        resources[members[0] as int].listener is Some,
    ensures
        members.len() == 1 ==> group_name(resources, members) == resources[members[0] as int].key@,
        members.len() > 1 ==> ("gwxds-merge-"@ + decimal(
            resources[members[0] as int].listener->0.port as nat,
        ) + "-"@).is_prefix_of(group_name(resources, members)) && group_name(resources, members).len()
            == ("gwxds-merge-"@ + decimal(resources[members[0] as int].listener->0.port as nat) + "-"@).len()
            + 16,
{
    if members.len() > 1 {
        let front = "gwxds-merge-"@ + decimal(resources[members[0] as int].listener->0.port as nat) + "-"@;
        let name = group_name(resources, members);
        let back = name.skip(front.len() as int);
        lemma_hex_len(
            text_hash(member_keys(resources, members)) as nat,
            16,
        );
        assert(name.subrange(0, front.len() as int) =~= front);
    }
}

proof fn lemma_hex_len(n: nat, width: nat)
    ensures
        hex_text(n, width).len() == width,
    decreases width,
{
    if width > 0 {
        lemma_hex_len(n / 16, (width - 1) as nat);
    }
}

/// The group's listener is that of its first resource, with the group's own
/// filter chain.
pub proof fn law_group_listener(resources: Seq<Resource>, members: Seq<usize>)
    requires
        members.len() > 0,
    ensures
        ({
            let l = group_listener(resources, members);
            let gw = resources[members[0] as int].listener->0;
            &&& l.name == group_name(resources, members)
            &&& l.address == "0.0.0.0:"@ + decimal(gw.port as nat)
            &&& l.filter_chains.len() == 1 && l.filter_chains[0] == group_name(resources, members)
                + "-chain"@
        }),
{
}

/// A configuration has a listener and a filter chain for each group. A chain
/// that passes TLS through has the router of server names alone; any other has
/// the router before the load balancer.
pub proof fn law_chains(cfg: Config, resources: Seq<Resource>, groups: Seq<GroupModel>, g: int)
    requires
        is_translation(cfg, resources, groups),
        0 <= g < groups.len(),
    ensures
        cfg.listeners@.len() == groups.len(),
        cfg.filter_chains@.len() == groups.len(),
        cfg.listeners@[g].filter_chains@.len() == 1,
        cfg.listeners@[g].filter_chains@[0]@ == cfg.filter_chains@[g].name@,
        cfg.listeners@[g].name@ == group_name(resources, groups[g].members),
        passes_tls(resources, groups[g].members) ==> cfg.filter_chains@[g].filters@.len() == 1
            && cfg.filter_chains@[g].filters@[0] is SniRouter,
        !passes_tls(resources, groups[g].members) ==> cfg.filter_chains@[g].filters@.len() == 2
            && cfg.filter_chains@[g].filters@[0] is Router && cfg.filter_chains@[g].filters@[1] is LoadBalancer,
{
    let chain = cfg.filter_chains@[g];
    let l = cfg.listeners@[g];
    assert(l.model() == group_listener(resources, groups[g].members));
    let names = views(l.filter_chains@);
    assert(names == l.model().filter_chains);
    assert(names.len() == l.filter_chains@.len());
    assert(names[0] == l.filter_chains@[0]@);
}

/// TLS is passed through exactly on listeners of that protocol.
pub proof fn law_passthrough(resources: Seq<Resource>, members: Seq<usize>)
    ensures
        passes_tls(resources, members) <==> member_listener(resources, members[0]).protocol == 4,
        passes_tls(resources, members) <==> group_chain(resources, members) is Passthrough,
{
}

/// Whether a text is in lowercase and has no whitespace at its ends.
pub open spec fn is_tidy(s: Seq<char>) -> bool {
    s.len() > 0 && !is_whitespace(s[0]) && !is_whitespace(s.last()) && lower(s) == s
}

/// A hostname is read as a pattern: a star and a dot before a domain stand for
/// the hosts below it, anything else for itself. Letter case and whitespace at
/// the ends do not count.
pub proof fn law_host_pattern(a: Seq<char>, host: Seq<char>, domain: Seq<char>, b: Seq<char>)
    requires
        forall|k: int| 0 <= k < a.len() ==> is_whitespace(#[trigger] a[k]),
        forall|k: int| 0 <= k < b.len() ==> is_whitespace(#[trigger] b[k]),
        host.len() > 0,
        host[0] != '*',
        !is_whitespace(host[0]),
        !is_whitespace(host.last()),
        domain.len() > 0,
        !is_whitespace(domain.last()),
    ensures
        pattern_of(a + host + b) == HostModel::Exact(lower(host)),
        pattern_of(a + (seq!['*', '.'] + domain) + b) == HostModel::Wildcard(lower(domain)),
{
    reveal_strlit("*.");
    assert("*."@ =~= seq!['*', '.']);
    law_trim(a, host, b);
    let wide = seq!['*', '.'] + domain;
    assert(wide[0] == '*' && wide.last() == domain.last());
    law_whitespace('*');
    law_trim(a, wide, b);
    law_stripped(wide, "*."@, domain);
    if "*."@.is_prefix_of(host) {
        assert(host.subrange(0, 2)[0] == '*');
    }
}

/// The host that a listener and a route have in common: the same name, a name
/// below the other's wildcard, or the narrower one of two wildcards.
pub proof fn law_common_host(host: Seq<char>, other: Seq<char>, front: Seq<char>, domain: Seq<char>)
    requires
        is_tidy(host),
        host[0] != '*',
        is_tidy(other),
        other[0] != '*',
        is_tidy(domain),
        domain[0] != '*',
        front.len() > 0,
        host == front + seq!['.'] + domain,
    ensures
        common_host(host, host) == Some(host),
        host != other ==> common_host(host, other) is None,
        common_host(seq!['*', '.'] + domain, host) == Some(host),
        common_host(host, seq!['*', '.'] + domain) == Some(host),
        common_host(seq!['*', '.'] + domain, domain) is None,
        common_host(seq!['*', '.'] + domain, seq!['*', '.'] + host) == Some(seq!['*', '.'] + host),
        common_host(seq!['*', '.'] + host, seq!['*', '.'] + domain) == Some(seq!['*', '.'] + host),
{
    reveal_strlit("*.");
    assert("*."@ =~= seq!['*', '.']);
    let none = Seq::<char>::empty();
    assert(none + host + none =~= host);
    assert(none + other + none =~= other);
    let wide = seq!['*', '.'] + domain;
    let deep = seq!['*', '.'] + host;
    assert(none + wide + none =~= wide);
    assert(none + deep + none =~= deep);
    law_host_pattern(none, host, domain, none);
    law_host_pattern(none, other, host, none);
    let dotted = seq!['.'] + domain;
    assert(host.subrange(host.len() - dotted.len(), host.len() as int) =~= dotted);
    assert(below(host, domain));
    assert(none + domain + none =~= domain);
    law_host_pattern(none, domain, host, none);
    assert(!(seq!['.'] + host).is_suffix_of(domain));
}

/// The hosts of a route on a listener: where the listener names none, those that
/// the route names, in their order.
pub proof fn law_hosts_of_any_listener(hostnames: Seq<String>, n: int)
    requires
        0 <= n <= hostnames.len(),
    ensures
        common_hosts(Seq::empty(), hostnames, n).len() == n,
        forall|k: int|
            0 <= k < n ==> #[trigger] common_hosts(Seq::empty(), hostnames, n)[k] == Some(hostnames[k]@),
    decreases n,
{
    if n > 0 {
        law_hosts_of_any_listener(hostnames, n - 1);
    }
}

/// The hosts of a route on a listener with a hostname: exactly those that the two
/// have in common.
pub proof fn law_hosts_of_listener(listener: Seq<char>, hostnames: Seq<String>, n: int, host: Seq<char>)
    requires
        listener.len() > 0,
        0 <= n <= hostnames.len(),
    ensures
        common_hosts(listener, hostnames, n).contains(Some(host)) <==> exists|i: int|
            0 <= i < n && common_host(listener, (#[trigger] hostnames[i])@) == Some(host),
        !common_hosts(listener, hostnames, n).contains(None),
    decreases n,
{
    if n > 0 {
        law_hosts_of_listener(listener, hostnames, n - 1, host);
        let earlier = common_hosts(listener, hostnames, n - 1);
        let hosts = common_hosts(listener, hostnames, n);
        if earlier.contains(Some(host)) {
            let k = earlier.index_of(Some(host));
            assert(hosts[k] == Some(host));
        }
        if common_host(listener, hostnames[n - 1]@) == Some(host) {
            assert(hosts[hosts.len() - 1] == Some(host));
        }
        if hosts.contains(Some(host)) {
            let k = hosts.index_of(Some(host));
            if k < earlier.len() {
                assert(earlier[k] == Some(host));
                let i = choose|i: int|
                    0 <= i < n - 1 && common_host(listener, (#[trigger] hostnames[i])@) == Some(host);
                assert(0 <= i < n && common_host(listener, hostnames[i]@) == Some(host));
            } else {
                assert(common_host(listener, hostnames[n - 1]@) == Some(host));
            }
        }
        if hosts.contains(None) {
            let k = hosts.index_of(None);
            assert(k < earlier.len());
            assert(earlier[k] is None);
        }
    }
}

/// A route without hostnames serves the listener's, or every host. A route with
/// none in common with the listener serves nothing.
pub proof fn law_served_hosts(listener: GwListener, route: GwRoute)
    ensures
        ({
            let name = trim(listener.hostname@);
            &&& route.hostnames@.len() == 0 && name.len() == 0 ==> (served_hosts(listener, route) matches Some(
                hosts,
            ) && hosts.len() == 1 && hosts[0] is None)
            &&& route.hostnames@.len() == 0 && name.len() > 0 ==> (served_hosts(listener, route) matches Some(
                hosts,
            ) && hosts.len() == 1 && hosts[0] == Some(name))
            &&& route.hostnames@.len() > 0 ==> match served_hosts(listener, route) {
                Some(hosts) => hosts.len() > 0 && hosts == common_hosts(
                    name,
                    route.hostnames@,
                    route.hostnames@.len() as int,
                ),
                None => common_hosts(name, route.hostnames@, route.hostnames@.len() as int).len() == 0,
            }
        }),
{
}

/// Whether a cluster is that of a route's backends in a load balancer: under the
/// name that the route goes to, with its weighted endpoints and its TLS.
pub open spec fn balances(c: ClusterModel, route: GwRoute) -> bool {
    &&& c.name == backends_name(route)
    &&& c.endpoints == weighted_endpoints(route, route.backends@.len() as int)
    &&& c.tls == route_tls(route)
}

/// A load balancer has a cluster for the backends of each route, the first one of
/// each name, and no others than those that were there.
pub proof fn law_balanced_clusters(before: Seq<ClusterModel>, routes: Seq<GwRoute>, n: int)
    requires
        0 <= n <= routes.len(),
    ensures
        before.is_prefix_of(lb_clusters(before, routes, n)),
        forall|i: int|
            0 <= i < n && (#[trigger] routes[i]).backends@.len() > 0 && !has_pool(routes[i]) ==> has_name(
                lb_clusters(before, routes, n),
                backends_name(routes[i]),
            ),
        forall|x: int|
            before.len() <= x < lb_clusters(before, routes, n).len() ==> exists|i: int|
                0 <= i < n && balances(#[trigger] lb_clusters(before, routes, n)[x], #[trigger] routes[i])
                    && routes[i].backends@.len() > 0,
    decreases n,
{
    if n > 0 {
        law_balanced_clusters(before, routes, n - 1);
        let earlier = lb_clusters(before, routes, n - 1);
        let now = lb_clusters(before, routes, n);
        let last = routes[n - 1];
        assert(earlier.is_prefix_of(now));
        assert(now.subrange(0, before.len() as int) =~= earlier.subrange(0, before.len() as int));
        assert forall|i: int|
            0 <= i < n && (#[trigger] routes[i]).backends@.len() > 0 && !has_pool(routes[i]) implies has_name(
            now,
            backends_name(routes[i]),
        ) by {
            if i < n - 1 {
                let k = choose|k: int|
                    0 <= k < earlier.len() && (#[trigger] earlier[k]).name == backends_name(routes[i]);
                assert(now[k].name == backends_name(routes[i]));
            } else if !has_name(earlier, backends_name(last)) {
                assert(now[now.len() - 1].name == backends_name(last));
            }
        }
        assert forall|x: int| before.len() <= x < now.len() implies exists|i: int|
            0 <= i < n && balances(#[trigger] now[x], #[trigger] routes[i]) && routes[i].backends@.len() > 0 by {
            if x < earlier.len() {
                assert(now[x] == earlier[x]);
                let i = choose|i: int|
                    0 <= i < n - 1 && balances(earlier[x], #[trigger] routes[i]) && routes[i].backends@.len()
                        > 0;
                assert(balances(now[x], routes[i]));
            } else {
                assert(balances(now[x], last));
                assert(last == routes[n - 1]);
            }
        }
    }
}

/// Whether a cluster is that of a route: under the name that its rows go to, with
/// the endpoints of its backends and their TLS.
pub open spec fn serves(c: ClusterModel, route: GwRoute) -> bool {
    &&& c.name == route_cluster(route)
    &&& c.endpoints == repeated_endpoints(route, route.backends@.len() as int)
    &&& c.tls == route_tls(route)
}

/// The clusters of routes on a listener: one for each route that is served and
/// has backends, the first one of each name, and no others.
pub proof fn law_clusters_of_routes(listener: GwListener, routes: Seq<GwRoute>, n: int)
    requires
        0 <= n <= routes.len(),
    ensures
        forall|i: int|
            0 <= i < n && !left_out(listener, #[trigger] routes[i]) && routes[i].backends@.len() > 0 ==> has_name(
                all_clusters(listener, routes, n),
                route_cluster(routes[i]),
            ),
        forall|x: int|
            0 <= x < all_clusters(listener, routes, n).len() ==> exists|i: int|
                0 <= i < n && serves(#[trigger] all_clusters(listener, routes, n)[x], #[trigger] routes[i])
                    && !left_out(listener, routes[i]),
    decreases n,
{
    if n > 0 {
        law_clusters_of_routes(listener, routes, n - 1);
        let earlier = all_clusters(listener, routes, n - 1);
        let now = all_clusters(listener, routes, n);
        let last = routes[n - 1];
        assert forall|i: int|
            0 <= i < n && !left_out(listener, #[trigger] routes[i]) && routes[i].backends@.len() > 0 implies has_name(
            now,
            route_cluster(routes[i]),
        ) by {
            if i < n - 1 {
                let k = choose|k: int|
                    0 <= k < earlier.len() && (#[trigger] earlier[k]).name == route_cluster(routes[i]);
                assert(now[k].name == route_cluster(routes[i]));
            } else if !has_name(earlier, route_cluster(last)) {
                assert(now[now.len() - 1].name == route_cluster(last));
            }
        }
        assert forall|x: int| 0 <= x < now.len() implies exists|i: int|
            0 <= i < n && serves(#[trigger] now[x], #[trigger] routes[i]) && !left_out(listener, routes[i]) by {
            if x < earlier.len() {
                assert(now[x] == earlier[x]);
                let i = choose|i: int|
                    0 <= i < n - 1 && serves(earlier[x], #[trigger] routes[i]) && !left_out(
                        listener,
                        routes[i],
                    );
                assert(serves(now[x], routes[i]));
            } else {
                assert(serves(now[x], last));
                assert(last == routes[n - 1]);
            }
        }
    }
}

/// Merging keeps the clusters that were there, brings in each name of the list,
/// and takes the first cluster of a name.
pub proof fn law_merged_clusters(before: Seq<ClusterModel>, list: Seq<ClusterModel>, n: int)
    requires
        0 <= n <= list.len(),
    ensures
        before.is_prefix_of(merged(before, list, n)),
        forall|k: int| 0 <= k < n ==> has_name(merged(before, list, n), (#[trigger] list[k]).name),
        forall|x: int|
            before.len() <= x < merged(before, list, n).len() ==> list.contains(
                #[trigger] merged(before, list, n)[x],
            ),
        forall|k: int|
            0 <= k < n && !has_name(before, (#[trigger] list[k]).name) && (forall|j: int|
                0 <= j < k ==> (#[trigger] list[j]).name != list[k].name) ==> merged(before, list, n).contains(
                list[k],
            ),
    decreases n,
{
    if n > 0 {
        law_merged_clusters(before, list, n - 1);
        let earlier = merged(before, list, n - 1);
        let now = merged(before, list, n);
        assert(earlier.is_prefix_of(now));
        assert(now.subrange(0, before.len() as int) =~= earlier.subrange(0, before.len() as int));
        assert forall|k: int| 0 <= k < n implies has_name(now, (#[trigger] list[k]).name) by {
            if k < n - 1 {
                let i = choose|i: int| 0 <= i < earlier.len() && (#[trigger] earlier[i]).name == list[k].name;
                assert(now[i].name == list[k].name);
            } else if !has_name(earlier, list[k].name) {
                assert(now[now.len() - 1].name == list[k].name);
            }
        }
        assert forall|x: int| before.len() <= x < now.len() implies list.contains(#[trigger] now[x]) by {
            if x < earlier.len() {
                assert(now[x] == earlier[x]);
            } else {
                assert(now[x] == list[n - 1]);
            }
        }
        assert forall|k: int|
            0 <= k < n && !has_name(before, (#[trigger] list[k]).name) && (forall|j: int|
                0 <= j < k ==> (#[trigger] list[j]).name != list[k].name) implies now.contains(list[k]) by {
            if k < n - 1 {
                let i = earlier.index_of(list[k]);
                assert(now[i] == list[k]);
            } else {
                lemma_new_name(before, list, n - 1, list[k].name);
                assert(now[now.len() - 1] == list[k]);
            }
        }
    }
}

proof fn lemma_new_name(before: Seq<ClusterModel>, list: Seq<ClusterModel>, n: int, name: Seq<char>)
    requires
        0 <= n <= list.len(),
        !has_name(before, name),
        forall|j: int| 0 <= j < n ==> (#[trigger] list[j]).name != name,
    ensures
        !has_name(merged(before, list, n), name),
    decreases n,
{
    if n > 0 {
        lemma_new_name(before, list, n - 1, name);
        let earlier = merged(before, list, n - 1);
        let now = merged(before, list, n);
        if has_name(now, name) {
            let i = choose|i: int| 0 <= i < now.len() && (#[trigger] now[i]).name == name;
            if i < earlier.len() {
                assert(earlier[i].name == name);
            } else {
                assert(now[i] == list[n - 1]);
            }
        }
    }
}

/// The router of a group holds the rows of each of its resources.
pub proof fn law_group_rows(resources: Seq<Resource>, members: Seq<usize>, n: int, k: int, x: int)
    requires
        0 <= k < n <= members.len(),
        ({
            let r = resources[members[k] as int];
            0 <= x < all_routes(r.listener->0, r.routes@, r.routes@.len() as int).len()
        }),
    ensures
        ({
            let r = resources[members[k] as int];
            group_routes(resources, members, n).contains(
                all_routes(r.listener->0, r.routes@, r.routes@.len() as int)[x],
            )
        }),
    decreases n,
{
    let r = resources[members[k] as int];
    let row = all_routes(r.listener->0, r.routes@, r.routes@.len() as int)[x];
    let earlier = group_routes(resources, members, n - 1);
    let now = group_routes(resources, members, n);
    if k < n - 1 {
        law_group_rows(resources, members, n - 1, k, x);
        let i = earlier.index_of(row);
        assert(now[i] == row);
    } else {
        assert(now[earlier.len() + x] == row);
    }
}

/// A configuration has a cluster of each name that the clusters of its groups
/// have, but for those that pass TLS through.
pub proof fn law_configured_names(resources: Seq<Resource>, groups: Seq<GroupModel>, n: int, g: int, x: int)
    requires
        0 <= g < n <= groups.len(),
        !passes_tls(resources, groups[g].members),
        0 <= x < group_clusters(resources, groups[g].members, groups[g].members.len() as int).len(),
    ensures
        has_name(
            config_clusters(resources, groups, n),
            group_clusters(resources, groups[g].members, groups[g].members.len() as int)[x].name,
        ),
    decreases n,
{
    let name = group_clusters(resources, groups[g].members, groups[g].members.len() as int)[x].name;
    let earlier = config_clusters(resources, groups, n - 1);
    let now = config_clusters(resources, groups, n);
    let members = groups[n - 1].members;
    let list = group_clusters(resources, members, members.len() as int);
    law_merged_clusters(earlier, list, list.len() as int);
    if g < n - 1 {
        law_configured_names(resources, groups, n - 1, g, x);
        let i = choose|i: int| 0 <= i < earlier.len() && (#[trigger] earlier[i]).name == name;
        assert(now[i] == earlier[i]) by {
            if !passes_tls(resources, members) {
                assert(now.subrange(0, earlier.len() as int)[i] == earlier[i]);
            }
        }
        assert(now[i].name == name);
    } else {
        assert(list[x].name == name);
    }
}

/// One more route of a listener that passes TLS through: the server names that no
/// earlier route has go to its first backend, and all earlier ones stay. Where it
/// is for every host, its first backend is the default, unless there is one.
pub proof fn law_passthrough_route(state: SniState, listener: GwListener, route: GwRoute, k: int)
    requires
        served_hosts(listener, route) matches Some(hosts) && 0 <= k < hosts.len(),
        route.backends@.len() > 0,
    ensures
        ({
            let hosts = served_hosts(listener, route)->0;
            let next = sni_step(state, listener, route);
            let upstream = backend_address(route.backends@[0], route.key@);
            &&& state.routes.is_prefix_of(next.routes)
            &&& next.routes.len() <= state.routes.len() + 1
            &&& next.routes.len() > state.routes.len() ==> next.routes.last().upstream == upstream
                && next.default == state.default
            &&& hosts[k] matches Some(name) ==> (forall|i: int|
                0 <= i < state.routes.len() ==> !(#[trigger] state.routes[i]).names.contains(name))
                ==> next.routes.len() == state.routes.len() + 1 && next.routes.last().names.contains(name)
            &&& hosts.len() == 1 && hosts[0] is None && state.default is None ==> next.default == Some(upstream)
            &&& state.default is Some ==> next.default == state.default
        }),
{
    let hosts = served_hosts(listener, route)->0;
    let next = sni_step(state, listener, route);
    let n = hosts.len() as int;
    assert(next.routes.subrange(0, state.routes.len() as int) =~= state.routes);
    lemma_new_names_hold(state.routes, hosts, n, k);
    if hosts.len() == 1 && hosts[0] is None {
        reveal_with_fuel(new_names, 2);
        assert(hosts.contains(None)) by {
            assert(hosts[0] == None::<Seq<char>>);
        }
    }
}

proof fn lemma_new_names_hold(routes: Seq<SniModel>, hosts: Seq<Option<Seq<char>>>, n: int, k: int)
    requires
        0 <= n <= hosts.len(),
    ensures
        0 <= k < n && hosts[k] is Some && (forall|i: int|
            0 <= i < routes.len() ==> !(#[trigger] routes[i]).names.contains(hosts[k]->0)) ==> new_names(
            routes,
            hosts,
            n,
        ).contains(hosts[k]->0),
    decreases n,
{
    if n > 0 {
        lemma_new_names_hold(routes, hosts, n - 1, k);
        let earlier = new_names(routes, hosts, n - 1);
        let now = new_names(routes, hosts, n);
        if 0 <= k < n && hosts[k] is Some && (forall|i: int|
            0 <= i < routes.len() ==> !(#[trigger] routes[i]).names.contains(hosts[k]->0)) {
            let name = hosts[k]->0;
            if k < n - 1 {
                let i = earlier.index_of(name);
                assert(now[i] == name);
            } else {
                assert(now[now.len() - 1] == name);
            }
        }
    }
}

/// What a listener passes through stays: routes of a listener that come later
/// take no server name away, and each name that a route with backends serves has
/// an upstream in the end.
pub proof fn law_passthrough_names(
    before: SniState,
    listener: GwListener,
    routes: Seq<GwRoute>,
    n: int,
    i: int,
    name: Seq<char>,
)
    requires
        0 <= n <= routes.len(),
    ensures
        before.routes.is_prefix_of(sni_state(before, listener, routes, n).routes),
        before.default is Some ==> sni_state(before, listener, routes, n).default == before.default,
        0 <= i < n && routes[i].backends@.len() > 0 && (served_hosts(listener, routes[i]) matches Some(hosts)
            && hosts.contains(Some(name))) ==> name_seen(sni_state(before, listener, routes, n).routes, name),
    decreases n,
{
    if n > 0 {
        law_passthrough_names(before, listener, routes, n - 1, i, name);
        let earlier = sni_state(before, listener, routes, n - 1);
        let now = sni_state(before, listener, routes, n);
        let last = routes[n - 1];
        assert(earlier.routes.is_prefix_of(now.routes)) by {
            assert(now.routes.subrange(0, earlier.routes.len() as int) =~= earlier.routes);
        }
        assert(now.routes.subrange(0, before.routes.len() as int) =~= earlier.routes.subrange(
            0,
            before.routes.len() as int,
        ));
        if 0 <= i < n && routes[i].backends@.len() > 0 && (served_hosts(listener, routes[i]) matches Some(hosts)
            && hosts.contains(Some(name))) {
            if name_seen(earlier.routes, name) {
                let k = choose|k: int|
                    0 <= k < earlier.routes.len() && (#[trigger] earlier.routes[k]).names.contains(name);
                assert(now.routes[k].names.contains(name)) by {
                    assert(now.routes.subrange(0, earlier.routes.len() as int)[k] == earlier.routes[k]);
                }
            } else {
                assert(i == n - 1);
                let hosts = served_hosts(listener, last)->0;
                let k = hosts.index_of(Some(name));
                law_passthrough_route(earlier, listener, last, k);
                assert(now.routes[now.routes.len() - 1].names.contains(name));
            }
        }
    }
}

/// The clusters of a group are those of its resources.
pub proof fn law_group_clusters(resources: Seq<Resource>, members: Seq<usize>, n: int, k: int, x: int)
    requires
        0 <= k < n <= members.len(),
        ({
            let r = resources[members[k] as int];
            0 <= x < all_clusters(r.listener->0, r.routes@, r.routes@.len() as int).len()
        }),
    ensures
        ({
            let r = resources[members[k] as int];
            group_clusters(resources, members, n).contains(
                all_clusters(r.listener->0, r.routes@, r.routes@.len() as int)[x],
            )
        }),
    decreases n,
{
    let r = resources[members[k] as int];
    let cluster = all_clusters(r.listener->0, r.routes@, r.routes@.len() as int)[x];
    let earlier = group_clusters(resources, members, n - 1);
    let now = group_clusters(resources, members, n);
    if k < n - 1 {
        law_group_clusters(resources, members, n - 1, k, x);
        let i = earlier.index_of(cluster);
        assert(now[i] == cluster);
    } else {
        assert(now[earlier.len() + x] == cluster);
    }
}

/// Listeners are ordered by port, then by protocol, then by the hash of their
/// TLS material, which is zero without TLS.
pub proof fn law_listener_order(a: Bind, b: Bind)
    ensures
        a.port < b.port ==> bind_less(a, b) && !bind_less(b, a),
        a.port == b.port && a.protocol < b.protocol ==> bind_less(a, b) && !bind_less(b, a),
        a.port == b.port && a.protocol == b.protocol && a.tls is None && (b.tls matches Some(m) && text_hash(
            seq![m.cert_pem, m.key_pem, m.ca_pem, m.min_version],
        ) > 0) ==> bind_less(a, b),
        a.port == b.port && a.protocol == b.protocol && (a.tls matches Some(m) && b.tls matches Some(o)
            && text_hash(seq![m.cert_pem, m.key_pem, m.ca_pem, m.min_version]) < text_hash(
            seq![o.cert_pem, o.key_pem, o.ca_pem, o.min_version],
        )) ==> bind_less(a, b),
        !bind_less(a, a),
{
    lemma_bind_total(a, a);
}

/// A list of texts is hashed one after the other, with a byte that is not text
/// behind each.
pub proof fn law_hashed_texts(texts: Seq<Seq<char>>, more: Seq<char>)
    ensures
        writes(Seq::empty()).len() == 0,
        writes(texts.push(more)) == writes(texts).push(encode_utf8(more)).push(seq![0xffu8]),
{
    assert(texts.push(more).drop_last() =~= texts);
}

/// Sixteen to the power of `width`.
pub open spec fn range(width: nat) -> nat
    decreases width,
{
    if width == 0 {
        1
    } else {
        16 * range((width - 1) as nat)
    }
}

/// A number in hexadecimal, with zeros before it up to a width, reads back as it
/// was.
pub proof fn law_hex_text(n: nat, width: nat)
    requires
        n < range(width),
    ensures
        hex_text(n, width).len() == width,
        hex_number(hex_text(n, width)) == n,
    decreases width,
{
    if width > 0 {
        let front = hex_text(n / 16, (width - 1) as nat);
        assert(n / 16 < range((width - 1) as nat));
        law_hex_text(n / 16, (width - 1) as nat);
        assert(hex_text(n, width).drop_last() =~= front);
        let d = (n % 16) as u8;
        assert(hex_text(n, width).last() == digit(d));
    }
}

/// A row of a match is for one of the hosts that its route serves.
pub proof fn law_row_host(route: GwRoute, hosts: Seq<Option<Seq<char>>>, k: int, h: int)
    ensures
        row_for(route, hosts, k, h).host == hosts[h],
        is_row_of(row_for(route, hosts, k, h), route, route.matches@[k]),
{
}

/// A name that only ends like a domain, with no dot before it, is not below it.
pub proof fn law_no_common_host(front: Seq<char>, domain: Seq<char>)
    requires
        is_tidy(domain),
        domain[0] != '*',
        is_tidy(front + domain),
        front.len() > 0,
        front[0] != '*',
        front.last() != '.',
    ensures
        common_host(seq!['*', '.'] + domain, front + domain) is None,
        common_host(front + domain, seq!['*', '.'] + domain) is None,
        common_host(seq!['*', '.'] + domain, seq!['*', '.'] + (front + domain)) is None,
{
    let none = Seq::<char>::empty();
    let host = front + domain;
    let wide = seq!['*', '.'] + domain;
    let deep = seq!['*', '.'] + host;
    assert(host[0] == front[0]);
    law_host_pattern(none, host, domain, none);
    law_host_pattern(none, domain, host, none);
    assert(none + host + none =~= host);
    assert(none + wide + none =~= wide);
    assert(none + deep + none =~= deep);
    let dotted = seq!['.'] + domain;
    let k = front.len() - 1;
    if dotted.is_suffix_of(host) {
        assert(host.subrange(host.len() - dotted.len(), host.len() as int)[0] == dotted[0]);
        assert(host[k] == '.');
        assert(front[k] == front.last());
    }
}

/// A dot and a domain alone name no host below the domain.
pub proof fn law_no_empty_label(domain: Seq<char>)
    requires
        is_tidy(domain),
        domain[0] != '*',
        is_tidy(seq!['.'] + domain),
    ensures
        common_host(seq!['*', '.'] + domain, seq!['.'] + domain) is None,
        common_host(seq!['.'] + domain, seq!['*', '.'] + domain) is None,
{
    let none = Seq::<char>::empty();
    let host = seq!['.'] + domain;
    let wide = seq!['*', '.'] + domain;
    law_host_pattern(none, host, domain, none);
    law_host_pattern(none, domain, host, none);
    assert(none + host + none =~= host);
    assert(none + wide + none =~= wide);
}

} // verus!
