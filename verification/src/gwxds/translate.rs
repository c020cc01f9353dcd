//! Translation of Gateway resources into a proxy configuration.
//!
//! Resources whose listeners share port, protocol and TLS material are merged
//! into one listener, so that all their routes share one router. Each such group
//! becomes a listener on `0.0.0.0` and a filter chain of its own: a router and a
//! load balancer, or for TLS passthrough a router by server name.

use vstd::prelude::*;

use crate::gwxds::backend::{cluster_models, pair_model, ClusterModel};
use crate::gwxds::bind::{bind_less, bind_of, law_same_bind_is_merged, lemma_bind_total, lemma_bind_transitive, same_bind, Bind, MergeKey};
use crate::gwxds::chain::{add_lb_clusters, add_sni_routes, lb_clusters, sni_models, sni_state, state_of, SniModel, SniState};
use crate::gwxds::hashing::{hex_text, push_hex, text_hash, TextHasher};
use crate::gwxds::routes::{all_clusters, all_routes, build_routes_and_clusters, has_name, name_taken, route_models, RouteModel};
use crate::gwxds::types::{Cluster, Config, FilterChainConfig, FilterConfig, GwListener, InlinePair, Listener, Protocol, ProtocolKind, Resource};
use crate::number::{decimal, decimal_text};
use crate::route::Route;
use crate::sni::router::{SniRouteEntry, SniRouterConfig};
use crate::text::{concat, concat3, lemma_less_total, lemma_less_transitive, less, text_less, views};

verus! {

/// Seconds that a shutdown may take.
pub const SHUTDOWN_TIMEOUT_SECS: u64 = 30;

/// Resources that are merged, by their place.
pub struct Group<'a> {
    pub key: MergeKey<'a>,
    pub members: Vec<usize>,
}

/// A group as mathematical data.
pub struct GroupModel {
    pub key: Bind,
    pub members: Seq<usize>,
}

impl<'a> Group<'a> {
    pub open spec fn model(self) -> GroupModel {
        GroupModel { key: self.key.model(), members: self.members@ }
    }
}

pub open spec fn group_models(groups: Seq<Group<'_>>) -> Seq<GroupModel> {
    groups.map_values(|g: Group| g.model())
}

/// The members of a group with one more, in the order of the resources' keys:
/// behind those whose key is not greater.
pub open spec fn with_member(resources: Seq<Resource>, members: Seq<usize>, i: usize) -> Seq<usize>
    decreases members.len(),
{
    if members.len() == 0 {
        seq![i]
    } else if less(resources[i as int].key@, resources[members[0] as int].key@) {
        seq![i] + members
    } else {
        seq![members[0]] + with_member(resources, members.skip(1), i)
    }
}

/// The groups with one more resource, in the order of their keys.
pub open spec fn with_resource(
    resources: Seq<Resource>,
    groups: Seq<GroupModel>,
    key: Bind,
    i: usize,
) -> Seq<GroupModel>
    decreases groups.len(),
{
    if groups.len() == 0 {
        seq![GroupModel { key, members: seq![i] }]
    } else if groups[0].key == key {
        seq![GroupModel { key, members: with_member(resources, groups[0].members, i) }]
            + groups.skip(1)
    } else if bind_less(key, groups[0].key) {
        seq![GroupModel { key, members: seq![i] }] + groups
    } else {
        seq![groups[0]] + with_resource(resources, groups.skip(1), key, i)
    }
}

/// The groups of the first `n` resources. A resource without a listener is in
/// none.
pub open spec fn groups_of(resources: Seq<Resource>, n: int) -> Seq<GroupModel>
    decreases n,
{
    if n <= 0 {
        Seq::empty()
    } else {
        let earlier = groups_of(resources, n - 1);
        match resources[n - 1].listener {
            Some(listener) => with_resource(
                resources,
                earlier,
                bind_of(listener),
                (n - 1) as usize,
            ),
            None => earlier,
        }
    }
}

fn place_member(resources: &Vec<Resource>, members: &mut Vec<usize>, i: usize)
    requires
        i < resources@.len(),
        forall|k: int| 0 <= k < old(members)@.len() ==> (#[trigger] old(members)@[k]) < resources@.len(),
    ensures
        final(members)@ == with_member(resources@, old(members)@, i),
        forall|k: int| 0 <= k < final(members)@.len() ==> (#[trigger] final(members)@[k]) < resources@.len(),
{
    let ghost all = members@;
    let mut p: usize = 0;
    assert(all.take(0) + with_member(resources@, all.skip(0), i) =~= with_member(resources@, all, i)) by {
        assert(all.skip(0) =~= all);
    }
    while p < members.len()
        invariant
            p <= members@.len(),
            members@ == all,
            all == old(members)@,
            i < resources@.len(),
            forall|k: int| 0 <= k < all.len() ==> (#[trigger] all[k]) < resources@.len(),
            with_member(resources@, all, i) == all.take(p as int) + with_member(
                resources@,
                all.skip(p as int),
                i,
            ),
        decreases members@.len() - p,
    {
        let ghost rest = all.skip(p as int);
        assert(rest[0] == all[p as int]);
        let other: usize = members[p];
        if text_less(resources[i].key.as_str(), resources[other].key.as_str()) {
            members.insert(p, i);
            assert(members@ =~= all.take(p as int) + (seq![i] + rest));
            return ;
        }
        assert(rest.skip(1) =~= all.skip(p + 1));
        assert(all.take(p as int) + (seq![rest[0]] + with_member(resources@, rest.skip(1), i))
            =~= all.take(p + 1) + with_member(resources@, all.skip(p + 1), i));
        p = p + 1;
    }
    assert(all.skip(p as int) =~= Seq::<usize>::empty());
    members.push(i);
    assert(members@ =~= all.take(p as int) + seq![i]);
}

spec fn in_range(groups: Seq<Group<'_>>, n: int) -> bool {
    forall|g: int, k: int|
        0 <= g < groups.len() && 0 <= k < groups[g].members@.len() ==> (
        #[trigger] groups[g].members@[k]) < n
}

/// The keys of groups hold the hashes of their TLS material.
spec fn keys_wf(groups: Seq<Group<'_>>) -> bool {
    forall|g: int| 0 <= g < groups.len() ==> (#[trigger] groups[g]).key.wf()
}

fn place_resource<'a>(
    resources: &Vec<Resource>,
    groups: &mut Vec<Group<'a>>,
    key: MergeKey<'a>,
    i: usize,
)
    requires
        key.wf(),
        keys_wf(old(groups)@),
        i < resources@.len(),
        in_range(old(groups)@, resources@.len() as int),
    ensures
        group_models(final(groups)@) == with_resource(
            resources@,
            group_models(old(groups)@),
            key.model(),
            i,
        ),
        keys_wf(final(groups)@),
        in_range(final(groups)@, resources@.len() as int),
{
    let ghost all = group_models(groups@);
    let ghost bind = key.model();
    let mut p: usize = 0;
    assert(all.take(0) + with_resource(resources@, all.skip(0), bind, i) =~= with_resource(
        resources@,
        all,
        bind,
        i,
    )) by {
        assert(all.skip(0) =~= all);
    }
    while p < groups.len()
        invariant
            p <= groups@.len(),
            groups@ == old(groups)@,
            all == group_models(groups@),
            i < resources@.len(),
            key.wf(),
            bind == key.model(),
            keys_wf(groups@),
            in_range(groups@, resources@.len() as int),
            with_resource(resources@, all, bind, i) == all.take(p as int) + with_resource(
                resources@,
                all.skip(p as int),
                bind,
                i,
            ),
        decreases groups@.len() - p,
    {
        let ghost rest = all.skip(p as int);
        assert(rest[0] == groups@[p as int].model());
        if key.merges_with(&groups[p].key) {
            let ghost before = groups@;
            let mut g = groups.remove(p);
            assert(g == before[p as int]);
            place_member(resources, &mut g.members, i);
            groups.insert(p, g);
            assert(group_models(groups@) =~= all.take(p as int) + (seq![g.model()] + rest.skip(1)));
            assert(in_range(groups@, resources@.len() as int)) by {
                assert forall|a: int, k: int|
                    0 <= a < groups@.len() && 0 <= k < groups@[a].members@.len() implies (
                #[trigger] groups@[a].members@[k]) < resources@.len() by {
                    if a != p {
                        assert(groups@[a] == before[a]);
                        assert(before[a].members@[k] < resources@.len());
                    }
                }
            }
            return ;
        }
        if key.precedes(&groups[p].key) {
            let ghost before = groups@;
            let members: Vec<usize> = vec![i];
            let g = Group { key, members };
            assert(g.model().members =~= seq![i]);
            groups.insert(p, g);
            assert(group_models(groups@) =~= all.take(p as int) + (seq![g.model()] + rest));
            assert(in_range(groups@, resources@.len() as int)) by {
                assert forall|a: int, k: int|
                    0 <= a < groups@.len() && 0 <= k < groups@[a].members@.len() implies (
                #[trigger] groups@[a].members@[k]) < resources@.len() by {
                    if a < p {
                        assert(before[a].members@[k] < resources@.len());
                    } else if a > p {
                        assert(before[a - 1].members@[k] < resources@.len());
                    }
                }
            }
            return ;
        }
        assert(rest.skip(1) =~= all.skip(p + 1));
        assert(all.take(p as int) + (seq![rest[0]] + with_resource(
            resources@,
            rest.skip(1),
            bind,
            i,
        )) =~= all.take(p + 1) + with_resource(resources@, all.skip(p + 1), bind, i));
        p = p + 1;
    }
    assert(all.skip(p as int) =~= Seq::<GroupModel>::empty());
    let ghost before = groups@;
    let members: Vec<usize> = vec![i];
    let g = Group { key, members };
    assert(g.model().members =~= seq![i]);
    groups.push(g);
    assert(group_models(groups@) =~= all.take(p as int) + seq![g.model()]);
    assert(in_range(groups@, resources@.len() as int)) by {
        assert forall|a: int, k: int|
            0 <= a < groups@.len() && 0 <= k < groups@[a].members@.len() implies (
        #[trigger] groups@[a].members@[k]) < resources@.len() by {
            if a < p {
                assert(before[a].members@[k] < resources@.len());
            }
        }
    }
}

/// Group the resources that are merged, in the order of their keys.
pub fn group_resources<'a>(resources: &'a Vec<Resource>) -> (r: Vec<Group<'a>>)
    ensures
        group_models(r@) == groups_of(resources@, resources@.len() as int),
        forall|g: int, k: int|
            0 <= g < r@.len() && 0 <= k < r@[g].members@.len() ==> (#[trigger] r@[g].members@[k])
                < resources@.len(),
{
    let mut groups: Vec<Group<'a>> = Vec::new();
    assert(group_models(groups@) =~= Seq::<GroupModel>::empty());
    let mut i: usize = 0;
    while i < resources.len()
        invariant
            i <= resources@.len(),
            group_models(groups@) == groups_of(resources@, i as int),
            keys_wf(groups@),
            in_range(groups@, resources@.len() as int),
        decreases resources@.len() - i,
    {
        if let Some(listener) = &resources[i].listener {
            let key = MergeKey::from_listener(listener);
            place_resource(resources, &mut groups, key, i);
        }
        i = i + 1;
    }
    groups
}

/// The keys of the resources of a group.
pub open spec fn member_keys(resources: Seq<Resource>, members: Seq<usize>) -> Seq<Seq<char>> {
    members.map_values(|m: usize| resources[m as int].key@)
}

/// The port of the first resource of a group.
pub open spec fn group_port(resources: Seq<Resource>, members: Seq<usize>) -> u32 {
    match resources[members[0] as int].listener {
        Some(listener) => listener.port,
        None => 0,
    }
}

/// The name of a group's listener: the resource's own key, or one made for all of
/// them.
pub open spec fn group_name(resources: Seq<Resource>, members: Seq<usize>) -> Seq<char> {
    if members.len() == 1 {
        resources[members[0] as int].key@
    } else {
        "gwxds-merge-"@ + decimal(group_port(resources, members) as nat) + "-"@ + hex_text(
            text_hash(member_keys(resources, members)) as nat,
            16,
        )
    }
}

/// The name of a group's listener.
pub fn merged_listener_name(resources: &Vec<Resource>, members: &Vec<usize>) -> (r: String)
    requires
        members@.len() > 0,
        forall|k: int| 0 <= k < members@.len() ==> (#[trigger] members@[k]) < resources@.len(),
    ensures
        r@ == group_name(resources@, members@),
{
    if members.len() == 1 {
        return resources[members[0]].key.clone();
    }
    let mut h = TextHasher::new();
    let ghost keys = member_keys(resources@, members@);
    let mut i: usize = 0;
    assert(keys.take(0) =~= Seq::<Seq<char>>::empty());
    while i < members.len()
        invariant
            i <= members@.len(),
            h.wf(),
            keys == member_keys(resources@, members@),
            forall|k: int| 0 <= k < members@.len() ==> (#[trigger] members@[k]) < resources@.len(),
            h.texts() == keys.take(i as int),
        decreases members@.len() - i,
    {
        let m: usize = members[i];
        h.push(resources[m].key.as_str());
        assert(keys.take(i + 1) =~= keys.take(i as int).push(keys[i as int]));
        i = i + 1;
    }
    assert(keys.take(members@.len() as int) =~= keys);
    let port: u32 = match &resources[members[0]].listener {
        Some(listener) => listener.port,
        None => 0,
    };
    let digits = decimal_text(port as u64);
    let mut out = concat3("gwxds-merge-", digits.as_str(), "-");
    push_hex(&mut out, h.finish(), 16);
    out
}

/// A listener as mathematical data.
pub struct ListenerModel {
    pub name: Seq<char>,
    pub address: Seq<char>,
    pub filter_chains: Seq<Seq<char>>,
    pub protocol: ProtocolKind,
    pub tls: Option<(Seq<char>, Seq<char>)>,
}

impl Listener {
    pub open spec fn model(self) -> ListenerModel {
        ListenerModel {
            name: self.name@,
            address: self.address@,
            filter_chains: views(self.filter_chains@),
            protocol: self.protocol,
            tls: pair_model(self.tls),
        }
    }
}

/// What a listener of a protocol speaks.
pub open spec fn kind_of(protocol: Protocol) -> ProtocolKind {
    match protocol {
        Protocol::Tcp | Protocol::Tls | Protocol::Udp => ProtocolKind::Tcp,
        Protocol::Http | Protocol::Https | Protocol::Unknown => ProtocolKind::Http,
    }
}

/// The listener for a Gateway listener. It has TLS where certificate and key are
/// there.
pub open spec fn listener_of(gw: GwListener, chain: Seq<char>, name: Seq<char>) -> ListenerModel {
    ListenerModel {
        name,
        address: "0.0.0.0:"@ + decimal(gw.port as nat),
        filter_chains: seq![chain],
        protocol: kind_of(Protocol::of_code(gw.protocol)),
        tls: match gw.tls {
            Some(tls) => if tls.cert_pem@.len() == 0 || tls.key_pem@.len() == 0 {
                None
            } else {
                Some((tls.cert_pem@, tls.key_pem@))
            },
            None => None,
        },
    }
}

/// The listener for a Gateway listener.
pub fn build_listener(gw: &GwListener, chain_name: &str, name: &str) -> (r: Listener)
    ensures
        r.model() == listener_of(*gw, chain_name@, name@),
{
    let protocol = match Protocol::from_number(gw.protocol) {
        Protocol::Tcp | Protocol::Tls | Protocol::Udp => ProtocolKind::Tcp,
        Protocol::Http | Protocol::Https | Protocol::Unknown => ProtocolKind::Http,
    };
    let tls: Option<InlinePair> = match &gw.tls {
        Some(t) => if t.cert_pem.as_str().is_empty() || t.key_pem.as_str().is_empty() {
            None
        } else {
            Some(InlinePair { cert_pem: t.cert_pem.clone(), key_pem: t.key_pem.clone() })
        },
        None => None,
    };
    let port = decimal_text(gw.port as u64);
    let mut chains: Vec<String> = Vec::new();
    chains.push(chain_name.to_owned());
    assert(views(chains@) =~= seq![chain_name@]);
    Listener {
        name: name.to_owned(),
        address: concat("0.0.0.0:", port.as_str()),
        filter_chains: chains,
        protocol,
        tls,
    }
}

/// A filter chain as mathematical data.
pub enum ChainModel {
    /// A router and a load balancer.
    Http { routes: Seq<RouteModel>, clusters: Seq<ClusterModel> },
    /// A router by server name.
    Passthrough(SniState),
}

/// Whether a filter chain is that of a name and a model.
pub open spec fn is_chain(chain: FilterChainConfig, name: Seq<char>, model: ChainModel) -> bool {
    &&& chain.name@ == name
    &&& match model {
        ChainModel::Http { routes, clusters } => {
            &&& chain.filters@.len() == 2
            &&& chain.filters@[0] matches FilterConfig::Router { routes: r } && route_models(r@)
                == routes
            &&& chain.filters@[1] matches FilterConfig::LoadBalancer { clusters: c }
                && cluster_models(c@) == clusters
        },
        ChainModel::Passthrough(state) => {
            &&& chain.filters@.len() == 1
            &&& chain.filters@[0] matches FilterConfig::SniRouter(cfg) && state_of(
                cfg.routes@,
                cfg.default_upstream,
            ) == state
        },
    }
}

/// The listener of a resource of a group.
pub open spec fn member_listener(resources: Seq<Resource>, m: usize) -> GwListener {
    resources[m as int].listener->0
}

/// The routes of the first `n` resources of a group.
pub open spec fn group_routes(resources: Seq<Resource>, members: Seq<usize>, n: int) -> Seq<RouteModel>
    decreases n,
{
    if n <= 0 {
        Seq::empty()
    } else {
        let m = members[n - 1];
        let list = resources[m as int].routes@;
        group_routes(resources, members, n - 1) + all_routes(
            member_listener(resources, m),
            list,
            list.len() as int,
        )
    }
}

/// The clusters of the first `n` resources of a group.
pub open spec fn group_clusters(resources: Seq<Resource>, members: Seq<usize>, n: int) -> Seq<
    ClusterModel,
>
    decreases n,
{
    if n <= 0 {
        Seq::empty()
    } else {
        let m = members[n - 1];
        let list = resources[m as int].routes@;
        group_clusters(resources, members, n - 1) + all_clusters(
            member_listener(resources, m),
            list,
            list.len() as int,
        )
    }
}

/// The load balancer's clusters of the first `n` resources of a group.
pub open spec fn group_lb(resources: Seq<Resource>, members: Seq<usize>, n: int) -> Seq<ClusterModel>
    decreases n,
{
    if n <= 0 {
        Seq::empty()
    } else {
        let list = resources[members[n - 1] as int].routes@;
        lb_clusters(group_lb(resources, members, n - 1), list, list.len() as int)
    }
}

/// The passthrough routes of the first `n` resources of a group.
pub open spec fn group_sni(resources: Seq<Resource>, members: Seq<usize>, n: int) -> SniState
    decreases n,
{
    if n <= 0 {
        SniState { routes: Seq::empty(), default: None }
    } else {
        let m = members[n - 1];
        let list = resources[m as int].routes@;
        sni_state(
            group_sni(resources, members, n - 1),
            member_listener(resources, m),
            list,
            list.len() as int,
        )
    }
}

/// Whether a group passes TLS through.
pub open spec fn passes_tls(resources: Seq<Resource>, members: Seq<usize>) -> bool {
    Protocol::of_code(member_listener(resources, members[0]).protocol) == Protocol::Tls
}

/// The filter chain of a group.
pub open spec fn group_chain(resources: Seq<Resource>, members: Seq<usize>) -> ChainModel {
    let n = members.len() as int;
    if passes_tls(resources, members) {
        ChainModel::Passthrough(group_sni(resources, members, n))
    } else {
        ChainModel::Http {
            routes: group_routes(resources, members, n),
            clusters: group_lb(resources, members, n),
        }
    }
}

/// Clusters with the first `n` of a list that have a new name.
pub open spec fn merged(before: Seq<ClusterModel>, list: Seq<ClusterModel>, n: int) -> Seq<ClusterModel>
    decreases n,
{
    if n <= 0 {
        before
    } else {
        let earlier = merged(before, list, n - 1);
        if has_name(earlier, list[n - 1].name) {
            earlier
        } else {
            earlier.push(list[n - 1])
        }
    }
}

/// The clusters of the first `n` groups: the first one of each name. Groups that
/// pass TLS through have none.
pub open spec fn config_clusters(resources: Seq<Resource>, groups: Seq<GroupModel>, n: int) -> Seq<
    ClusterModel,
>
    decreases n,
{
    if n <= 0 {
        Seq::empty()
    } else {
        let earlier = config_clusters(resources, groups, n - 1);
        let members = groups[n - 1].members;
        if passes_tls(resources, members) {
            earlier
        } else {
            let list = group_clusters(resources, members, members.len() as int);
            merged(earlier, list, list.len() as int)
        }
    }
}

pub open spec fn chain_name(name: Seq<char>) -> Seq<char> {
    name + "-chain"@
}

/// The listener of a group.
pub open spec fn group_listener(resources: Seq<Resource>, members: Seq<usize>) -> ListenerModel {
    let name = group_name(resources, members);
    listener_of(member_listener(resources, members[0]), chain_name(name), name)
}

/// Whether a configuration is that of resources in groups.
pub open spec fn is_translation(cfg: Config, resources: Seq<Resource>, groups: Seq<GroupModel>) -> bool {
    &&& cfg.listeners@.len() == groups.len()
    &&& cfg.filter_chains@.len() == groups.len()
    &&& forall|g: int|
        0 <= g < groups.len() ==> (#[trigger] cfg.listeners@[g]).model() == group_listener(
            resources,
            groups[g].members,
        )
    &&& forall|g: int|
        0 <= g < groups.len() ==> is_chain(
            #[trigger] cfg.filter_chains@[g],
            chain_name(group_name(resources, groups[g].members)),
            group_chain(resources, groups[g].members),
        )
    &&& cluster_models(cfg.clusters@) == config_clusters(resources, groups, groups.len() as int)
    &&& cfg.shutdown_timeout_secs == SHUTDOWN_TIMEOUT_SECS
}

/// A group is not empty, and its resources have listeners.
pub open spec fn is_group(resources: Seq<Resource>, members: Seq<usize>) -> bool {
    members.len() > 0 && forall|k: int|
        0 <= k < members.len() ==> (#[trigger] members[k]) < resources.len()
            && resources[members[k] as int].listener is Some
}

fn merge_clusters(clusters: &mut Vec<Cluster>, more: Vec<Cluster>)
    ensures
        cluster_models(final(clusters)@) == merged(
            cluster_models(old(clusters)@),
            cluster_models(more@),
            more@.len() as int,
        ),
{
    let ghost start = cluster_models(clusters@);
    let ghost list = cluster_models(more@);
    for cluster in it: more
        invariant
            it.seq() == more@,
            list == cluster_models(more@),
            cluster_models(clusters@) == merged(start, list, it.index() as int),
    {
        let ghost before = cluster_models(clusters@);
        assert(list[it.index() as int] == cluster.model());
        if !name_taken(clusters, cluster.name.as_str()) {
            clusters.push(cluster);
            assert(cluster_models(clusters@) =~= before.push(cluster.model()));
        }
    }
}

/// Routes and clusters of a group.
fn build_http_chain(resources: &Vec<Resource>, members: &Vec<usize>, name: String, clusters: &mut Vec<Cluster>) -> (r:
    FilterChainConfig)
    requires
        is_group(resources@, members@),
    ensures
        is_chain(
            r,
            name@,
            (ChainModel::Http {
                routes: group_routes(resources@, members@, members@.len() as int),
                clusters: group_lb(resources@, members@, members@.len() as int),
            }),
        ),
        cluster_models(final(clusters)@) == merged(
            cluster_models(old(clusters)@),
            group_clusters(resources@, members@, members@.len() as int),
            group_clusters(resources@, members@, members@.len() as int).len() as int,
        ),
{
    let mut routes: Vec<Route> = Vec::new();
    let mut found: Vec<Cluster> = Vec::new();
    let mut balanced: Vec<Cluster> = Vec::new();
    assert(route_models(routes@) =~= Seq::<RouteModel>::empty());
    assert(cluster_models(found@) =~= Seq::<ClusterModel>::empty());
    assert(cluster_models(balanced@) =~= Seq::<ClusterModel>::empty());
    let mut i: usize = 0;
    while i < members.len()
        invariant
            i <= members@.len(),
            is_group(resources@, members@),
            *clusters == *old(clusters),
            route_models(routes@) == group_routes(resources@, members@, i as int),
            cluster_models(found@) == group_clusters(resources@, members@, i as int),
            cluster_models(balanced@) == group_lb(resources@, members@, i as int),
        decreases members@.len() - i,
    {
        let ghost routes0 = routes@;
        let ghost found0 = found@;
        let m: usize = members[i];
        let resource = &resources[m];
        match &resource.listener {
            Some(listener) => {
                let (mut rs, mut cs) = build_routes_and_clusters(listener, &resource.routes);
                let ghost rs0 = rs@;
                let ghost cs0 = cs@;
                routes.append(&mut rs);
                found.append(&mut cs);
                assert(route_models(routes@) =~= route_models(routes0) + route_models(rs0));
                assert(cluster_models(found@) =~= cluster_models(found0) + cluster_models(cs0));
            },
            None => {},
        }
        add_lb_clusters(&mut balanced, &resource.routes);
        i = i + 1;
    }
    assert(cluster_models(found@).len() == found@.len());
    merge_clusters(clusters, found);
    let mut filters: Vec<FilterConfig> = Vec::new();
    filters.push(FilterConfig::Router { routes });
    filters.push(FilterConfig::LoadBalancer { clusters: balanced });
    FilterChainConfig { name, filters }
}

/// The router by server name of a group.
fn build_sni_filter_chain(resources: &Vec<Resource>, members: &Vec<usize>, name: String) -> (r:
    FilterChainConfig)
    requires
        is_group(resources@, members@),
    ensures
        is_chain(
            r,
            name@,
            ChainModel::Passthrough(group_sni(resources@, members@, members@.len() as int)),
        ),
{
    let mut routes: Vec<SniRouteEntry> = Vec::new();
    let mut default_upstream: Option<String> = None;
    assert(sni_models(routes@) =~= Seq::<SniModel>::empty());
    let mut i: usize = 0;
    while i < members.len()
        invariant
            i <= members@.len(),
            is_group(resources@, members@),
            state_of(routes@, default_upstream) == group_sni(resources@, members@, i as int),
        decreases members@.len() - i,
    {
        let m: usize = members[i];
        let resource = &resources[m];
        match &resource.listener {
            Some(listener) => {
                add_sni_routes(&mut routes, &mut default_upstream, listener, &resource.routes);
            },
            None => {},
        }
        i = i + 1;
    }
    let mut filters: Vec<FilterConfig> = Vec::new();
    filters.push(FilterConfig::SniRouter(SniRouterConfig { default_upstream, routes }));
    FilterChainConfig { name, filters }
}

proof fn lemma_member_in(resources: Seq<Resource>, members: Seq<usize>, i: usize)
    requires
        members.len() == 0 || is_group(resources, members),
        i < resources.len(),
        resources[i as int].listener is Some,
    ensures
        is_group(resources, with_member(resources, members, i)),
    decreases members.len(),
{
    if members.len() > 0 && !less(resources[i as int].key@, resources[members[0] as int].key@) {
        let rest = members.skip(1);
        assert forall|k: int| 0 <= k < rest.len() implies (#[trigger] rest[k]) < resources.len()
            && resources[rest[k] as int].listener is Some by {
            assert(rest[k] == members[k + 1]);
        }
        lemma_member_in(resources, rest, i);
        let tail = with_member(resources, rest, i);
        let all = with_member(resources, members, i);
        assert forall|k: int| 0 <= k < all.len() implies (#[trigger] all[k]) < resources.len()
            && resources[all[k] as int].listener is Some by {
            if k > 0 {
                assert(all[k] == tail[k - 1]);
            } else {
                assert(all[0] == members[0]);
            }
        }
    } else {
        let all = with_member(resources, members, i);
        assert forall|k: int| 0 <= k < all.len() implies (#[trigger] all[k]) < resources.len()
            && resources[all[k] as int].listener is Some by {
            if k > 0 {
                assert(all[k] == members[k - 1]);
            }
        }
    }
}

pub open spec fn are_groups(resources: Seq<Resource>, groups: Seq<GroupModel>) -> bool {
    forall|g: int| 0 <= g < groups.len() ==> is_group(resources, (#[trigger] groups[g]).members)
}

proof fn lemma_groups_with(resources: Seq<Resource>, groups: Seq<GroupModel>, key: Bind, i: usize)
    requires
        are_groups(resources, groups),
        i < resources.len(),
        resources[i as int].listener is Some,
    ensures
        are_groups(resources, with_resource(resources, groups, key, i)),
    decreases groups.len(),
{
    let all = with_resource(resources, groups, key, i);
    lemma_member_in(resources, Seq::empty(), i);
    assert(with_member(resources, Seq::empty(), i) =~= seq![i]);
    if groups.len() > 0 {
        let rest = groups.skip(1);
        assert forall|g: int| 0 <= g < rest.len() implies is_group(
            resources,
            (#[trigger] rest[g]).members,
        ) by {
            assert(rest[g] == groups[g + 1]);
        }
        assert(is_group(resources, groups[0].members));
        if groups[0].key == key {
            lemma_member_in(resources, groups[0].members, i);
            assert forall|g: int| 0 <= g < all.len() implies is_group(
                resources,
                (#[trigger] all[g]).members,
            ) by {
                if g > 0 {
                    assert(all[g] == rest[g - 1]);
                }
            }
        } else if bind_less(key, groups[0].key) {
            assert forall|g: int| 0 <= g < all.len() implies is_group(
                resources,
                (#[trigger] all[g]).members,
            ) by {
                if g > 0 {
                    assert(all[g] == groups[g - 1]);
                }
            }
        } else {
            lemma_groups_with(resources, rest, key, i);
            let tail = with_resource(resources, rest, key, i);
            assert forall|g: int| 0 <= g < all.len() implies is_group(
                resources,
                (#[trigger] all[g]).members,
            ) by {
                if g > 0 {
                    assert(all[g] == tail[g - 1]);
                } else {
                    assert(all[0] == groups[0]);
                }
            }
        }
    }
}

pub proof fn lemma_groups(resources: Seq<Resource>, n: int)
    requires
        0 <= n <= resources.len() <= usize::MAX,
    ensures
        are_groups(resources, groups_of(resources, n)),
    decreases n,
{
    if n > 0 {
        lemma_groups(resources, n - 1);
        if let Some(listener) = resources[n - 1].listener {
            lemma_groups_with(
                resources,
                groups_of(resources, n - 1),
                bind_of(listener),
                (n - 1) as usize,
            );
        }
    }
}

/// Translate Gateway resources into a configuration, with one listener for each
/// different port, protocol and TLS material.
pub fn translate(resources: &Vec<Resource>) -> (r: Config)
    ensures
        is_translation(r, resources@, groups_of(resources@, resources@.len() as int)),
        r.listeners@.len() == binds(resources@, resources@.len() as int).len(),
        r.filter_chains@.len() == r.listeners@.len(),
{
    let count: usize = resources.len();
    let groups = group_resources(resources);
    let ghost models = group_models(groups@);
    proof {
        lemma_groups(resources@, count as int);
        law_group_per_bind(resources@, count as int);
    }
    let mut listeners: Vec<Listener> = Vec::new();
    let mut filter_chains: Vec<FilterChainConfig> = Vec::new();
    let mut clusters: Vec<Cluster> = Vec::new();
    assert(cluster_models(clusters@) =~= Seq::<ClusterModel>::empty());
    let mut g: usize = 0;
    while g < groups.len()
        invariant
            g <= groups@.len(),
            models == group_models(groups@),
            are_groups(resources@, models),
            listeners@.len() == g,
            filter_chains@.len() == g,
            forall|k: int|
                0 <= k < g ==> (#[trigger] listeners@[k]).model() == group_listener(
                    resources@,
                    models[k].members,
                ),
            forall|k: int|
                0 <= k < g ==> is_chain(
                    #[trigger] filter_chains@[k],
                    chain_name(group_name(resources@, models[k].members)),
                    group_chain(resources@, models[k].members),
                ),
            cluster_models(clusters@) == config_clusters(resources@, models, g as int),
        decreases groups@.len() - g,
    {
        let members = &groups[g].members;
        assert(models[g as int].members == members@);
        assert(is_group(resources@, members@));
        assert(members@[0] < resources@.len());
        let name = merged_listener_name(resources, members);
        let chain = concat(name.as_str(), "-chain");
        if let Some(gw_listener) = &resources[members[0]].listener {
            let listener = build_listener(gw_listener, chain.as_str(), name.as_str());
            let passthrough = Protocol::from_number(gw_listener.protocol) == Protocol::Tls;
            let filter_chain = if passthrough {
                build_sni_filter_chain(resources, members, chain)
            } else {
                build_http_chain(resources, members, chain, &mut clusters)
            };
            listeners.push(listener);
            filter_chains.push(filter_chain);
        }
        g = g + 1;
    }
    Config { clusters, filter_chains, listeners, shutdown_timeout_secs: SHUTDOWN_TIMEOUT_SECS }
}

/// Whether a resource is in one of the groups.
pub open spec fn is_grouped(groups: Seq<GroupModel>, i: usize) -> bool {
    exists|g: int| 0 <= g < groups.len() && (#[trigger] groups[g]).members.contains(i)
}

/// Each group comes before the next, so that no key occurs twice.
pub open spec fn ascending(groups: Seq<GroupModel>) -> bool {
    forall|a: int, b: int|
        0 <= a < b < groups.len() ==> bind_less((#[trigger] groups[a]).key, (#[trigger] groups[b]).key)
}

/// Members of a group are listed once, in the order of their keys.
pub open spec fn in_order(resources: Seq<Resource>, members: Seq<usize>) -> bool {
    &&& members.no_duplicates()
    &&& forall|a: int, b: int|
        0 <= a < b < members.len() ==> !less(
            resources[#[trigger] members[b] as int].key@,
            resources[#[trigger] members[a] as int].key@,
        )
}

/// Whether a resource has a listener with a merge key.
pub open spec fn has_key(resources: Seq<Resource>, x: usize, key: Bind) -> bool {
    resources[x as int].listener matches Some(listener) && bind_of(listener) == key
}

/// A group holds resources with its key, each once, in order.
pub open spec fn is_keyed(resources: Seq<Resource>, group: GroupModel) -> bool {
    &&& in_order(resources, group.members)
    &&& forall|x: usize| #[trigger]
        group.members.contains(x) ==> has_key(resources, x, group.key)
}

proof fn lemma_with_member(resources: Seq<Resource>, members: Seq<usize>, i: usize)
    requires
        in_order(resources, members),
        !members.contains(i),
    ensures
        in_order(resources, with_member(resources, members, i)),
        forall|x: usize| #[trigger]
            with_member(resources, members, i).contains(x) <==> members.contains(x) || x == i,
    decreases members.len(),
{
    let all = with_member(resources, members, i);
    let key = resources[i as int].key@;
    if members.len() == 0 {
        assert(all[0] == i);
    } else {
        let first = resources[members[0] as int].key@;
        if less(key, first) {
            assert forall|x: usize| #[trigger] all.contains(x) <==> members.contains(x) || x == i by {
                assert(all[0] == i);
                if members.contains(x) {
                    let k = members.index_of(x);
                    assert(all[k + 1] == x);
                }
                if all.contains(x) {
                    let k = all.index_of(x);
                    if k > 0 {
                        assert(members[k - 1] == x);
                    }
                }
            }
            assert forall|a: int, b: int| 0 <= a < b < all.len() implies all[a] != all[b] && !less(
                resources[#[trigger] all[b] as int].key@,
                resources[#[trigger] all[a] as int].key@,
            ) by {
                assert(all[b] == members[b - 1]);
                if a == 0 {
                    assert(members.contains(members[b - 1]));
                    let other = resources[members[b - 1] as int].key@;
                    lemma_less_total(other, key);
                    if less(other, key) {
                        lemma_less_transitive(other, key, first);
                        if b - 1 > 0 {
                            assert(!less(other, first));
                        } else {
                            lemma_less_total(first, first);
                        }
                    }
                } else {
                    assert(all[a] == members[a - 1]);
                }
            }
        } else {
            let rest = members.skip(1);
            assert(in_order(resources, rest)) by {
                assert forall|a: int, b: int| 0 <= a < b < rest.len() implies rest[a] != rest[b]
                    && !less(
                    resources[#[trigger] rest[b] as int].key@,
                    resources[#[trigger] rest[a] as int].key@,
                ) by {
                    assert(rest[a] == members[a + 1] && rest[b] == members[b + 1]);
                }
            }
            assert(!rest.contains(i)) by {
                if rest.contains(i) {
                    let k = rest.index_of(i);
                    assert(members[k + 1] == i);
                }
            }
            lemma_with_member(resources, rest, i);
            let tail = with_member(resources, rest, i);
            assert forall|x: usize| #[trigger] all.contains(x) <==> members.contains(x) || x == i by {
                if all.contains(x) {
                    let k = all.index_of(x);
                    if k == 0 {
                        assert(members[0] == x);
                    } else {
                        assert(tail[k - 1] == x);
                        assert(tail.contains(x));
                        if rest.contains(x) {
                            let m = rest.index_of(x);
                            assert(members[m + 1] == x);
                        }
                    }
                }
                if members.contains(x) && members.index_of(x) == 0 {
                    assert(all[0] == x);
                } else if members.contains(x) || x == i {
                    if members.contains(x) {
                        let m = members.index_of(x);
                        assert(rest[m - 1] == x);
                    }
                    assert(tail.contains(x));
                    let k = tail.index_of(x);
                    assert(all[k + 1] == x);
                }
            }
            assert forall|a: int, b: int| 0 <= a < b < all.len() implies all[a] != all[b] && !less(
                resources[#[trigger] all[b] as int].key@,
                resources[#[trigger] all[a] as int].key@,
            ) by {
                assert(all[b] == tail[b - 1]);
                if a == 0 {
                    assert(all[0] == members[0]);
                    assert(tail.contains(tail[b - 1]));
                    if tail[b - 1] != i {
                        assert(rest.contains(tail[b - 1]));
                        let m = rest.index_of(tail[b - 1]);
                        assert(rest[m] == members[m + 1]);
                    } else {
                        assert(members.contains(members[0]));
                    }
                } else {
                    assert(all[a] == tail[a - 1]);
                }
            }
        }
    }
}

proof fn lemma_one_group(resources: Seq<Resource>, key: Bind, i: usize)
    requires
        has_key(resources, i, key),
    ensures
        is_keyed(resources, (GroupModel { key, members: seq![i] })),
        forall|x: usize| #[trigger] seq![i].contains(x) <==> x == i,
{
    assert(seq![i][0] == i);
}

proof fn lemma_with_resource(
    resources: Seq<Resource>,
    groups: Seq<GroupModel>,
    key: Bind,
    i: usize,
)
    requires
        ascending(groups),
        forall|g: int| 0 <= g < groups.len() ==> is_keyed(resources, #[trigger] groups[g]),
        !is_grouped(groups, i),
        has_key(resources, i, key),
    ensures
        ascending(with_resource(resources, groups, key, i)),
        forall|g: int|
            0 <= g < with_resource(resources, groups, key, i).len() ==> is_keyed(
                resources,
                #[trigger] with_resource(resources, groups, key, i)[g],
            ),
        forall|x: usize| #[trigger]
            is_grouped(with_resource(resources, groups, key, i), x) <==> is_grouped(groups, x) || x == i,
        forall|g: int|
            0 <= g < with_resource(resources, groups, key, i).len() ==> (
            #[trigger] with_resource(resources, groups, key, i)[g]).key == key || exists|h: int|
                0 <= h < groups.len() && (#[trigger] groups[h]).key == with_resource(
                    resources,
                    groups,
                    key,
                    i,
                )[g].key,
    decreases groups.len(),
{
    let all = with_resource(resources, groups, key, i);
    let alone = GroupModel { key, members: seq![i] };
    lemma_one_group(resources, key, i);
    if groups.len() == 0 {
        assert(all[0] == alone);
        assert forall|x: usize| #[trigger] is_grouped(all, x) <==> is_grouped(groups, x) || x == i by {
            if x == i {
                assert(all[0].members.contains(i));
            }
        }
    } else if groups[0].key == key {
        assert(!groups[0].members.contains(i));
        lemma_with_member(resources, groups[0].members, i);
        let grown = GroupModel { key, members: with_member(resources, groups[0].members, i) };
        assert(all[0] == grown);
        assert(is_keyed(resources, groups[0]));
        assert(is_keyed(resources, grown)) by {
            assert forall|x: usize| #[trigger] grown.members.contains(x) implies has_key(
                resources,
                x,
                key,
            ) by {
                if x != i {
                    assert(groups[0].members.contains(x));
                }
            }
        }
        assert forall|g: int| 0 < g < all.len() implies #[trigger] all[g] == groups[g] by {}
        assert forall|a: int, b: int| 0 <= a < b < all.len() implies bind_less(
            (#[trigger] all[a]).key,
            (#[trigger] all[b]).key,
        ) by {
            assert(bind_less(groups[a].key, groups[b].key));
        }
        assert forall|x: usize| #[trigger] is_grouped(all, x) <==> is_grouped(groups, x) || x == i by {
            if is_grouped(all, x) {
                let g = choose|g: int| 0 <= g < all.len() && (#[trigger] all[g]).members.contains(x);
                if g > 0 {
                    assert(groups[g].members.contains(x));
                } else if x != i {
                    assert(groups[0].members.contains(x));
                }
            }
            if is_grouped(groups, x) {
                let g = choose|g: int| 0 <= g < groups.len() && (#[trigger] groups[g]).members.contains(x);
                assert(all[g].members.contains(x));
            }
            if x == i {
                assert(all[0].members.contains(i));
            }
        }
        assert forall|g: int| 0 <= g < all.len() implies (#[trigger] all[g]).key == key || exists|h: int|
            0 <= h < groups.len() && (#[trigger] groups[h]).key == all[g].key by {
            if g > 0 {
                assert(groups[g].key == all[g].key);
            }
        }
    } else if bind_less(key, groups[0].key) {
        assert(all[0] == alone);
        assert forall|g: int| 0 < g < all.len() implies #[trigger] all[g] == groups[g - 1] by {}
        assert forall|a: int, b: int| 0 <= a < b < all.len() implies bind_less(
            (#[trigger] all[a]).key,
            (#[trigger] all[b]).key,
        ) by {
            if a == 0 {
                if b > 1 {
                    assert(bind_less(groups[0].key, groups[b - 1].key));
                    lemma_bind_transitive(key, groups[0].key, groups[b - 1].key);
                }
            } else {
                assert(bind_less(groups[a - 1].key, groups[b - 1].key));
            }
        }
        assert forall|x: usize| #[trigger] is_grouped(all, x) <==> is_grouped(groups, x) || x == i by {
            if is_grouped(all, x) {
                let g = choose|g: int| 0 <= g < all.len() && (#[trigger] all[g]).members.contains(x);
                if g > 0 {
                    assert(groups[g - 1].members.contains(x));
                }
            }
            if is_grouped(groups, x) {
                let g = choose|g: int| 0 <= g < groups.len() && (#[trigger] groups[g]).members.contains(x);
                assert(all[g + 1].members.contains(x));
            }
            if x == i {
                assert(all[0].members.contains(i));
            }
        }
        assert forall|g: int| 0 <= g < all.len() implies (#[trigger] all[g]).key == key || exists|h: int|
            0 <= h < groups.len() && (#[trigger] groups[h]).key == all[g].key by {
            if g > 0 {
                assert(groups[g - 1].key == all[g].key);
            }
        }
    } else {
        let rest = groups.skip(1);
        assert(ascending(rest)) by {
            assert forall|a: int, b: int| 0 <= a < b < rest.len() implies bind_less(
                (#[trigger] rest[a]).key,
                (#[trigger] rest[b]).key,
            ) by {
                assert(rest[a] == groups[a + 1] && rest[b] == groups[b + 1]);
            }
        }
        assert forall|g: int| 0 <= g < rest.len() implies is_keyed(resources, #[trigger] rest[g]) by {
            assert(rest[g] == groups[g + 1]);
        }
        assert(!is_grouped(rest, i)) by {
            if is_grouped(rest, i) {
                let g = choose|g: int| 0 <= g < rest.len() && (#[trigger] rest[g]).members.contains(i);
                assert(groups[g + 1].members.contains(i));
            }
        }
        lemma_with_resource(resources, rest, key, i);
        let tail = with_resource(resources, rest, key, i);
        assert(all[0] == groups[0]);
        assert forall|g: int| 0 < g < all.len() implies #[trigger] all[g] == tail[g - 1] by {}
        assert forall|a: int, b: int| 0 <= a < b < all.len() implies bind_less(
            (#[trigger] all[a]).key,
            (#[trigger] all[b]).key,
        ) by {
            assert(all[b] == tail[b - 1]);
            if a == 0 {
                if tail[b - 1].key != key {
                    let h = choose|h: int|
                        0 <= h < rest.len() && (#[trigger] rest[h]).key == tail[b - 1].key;
                    assert(rest[h] == groups[h + 1]);
                    assert(bind_less(groups[0].key, groups[h + 1].key));
                } else {
                    lemma_bind_total(key, groups[0].key);
                }
            } else {
                assert(all[a] == tail[a - 1]);
            }
        }
        assert forall|x: usize| #[trigger] is_grouped(all, x) <==> is_grouped(groups, x) || x == i by {
            if is_grouped(all, x) {
                let g = choose|g: int| 0 <= g < all.len() && (#[trigger] all[g]).members.contains(x);
                if g == 0 {
                    assert(groups[0].members.contains(x));
                } else {
                    assert(tail[g - 1].members.contains(x));
                    assert(is_grouped(tail, x));
                    if is_grouped(rest, x) {
                        let h = choose|h: int| 0 <= h < rest.len() && (#[trigger] rest[h]).members.contains(x);
                        assert(groups[h + 1].members.contains(x));
                    }
                }
            }
            if is_grouped(groups, x) || x == i {
                if is_grouped(groups, x) {
                    let g = choose|g: int| 0 <= g < groups.len() && (#[trigger] groups[g]).members.contains(x);
                    if g == 0 {
                        assert(all[0].members.contains(x));
                    } else {
                        assert(rest[g - 1].members.contains(x));
                        assert(is_grouped(rest, x));
                        assert(is_grouped(tail, x));
                        let h = choose|h: int| 0 <= h < tail.len() && (#[trigger] tail[h]).members.contains(x);
                        assert(all[h + 1].members.contains(x));
                    }
                } else {
                    assert(is_grouped(tail, x));
                    let h = choose|h: int| 0 <= h < tail.len() && (#[trigger] tail[h]).members.contains(x);
                    assert(all[h + 1].members.contains(x));
                }
            }
        }
        assert forall|g: int| 0 <= g < all.len() implies (#[trigger] all[g]).key == key || exists|h: int|
            0 <= h < groups.len() && (#[trigger] groups[h]).key == all[g].key by {
            if g == 0 {
                assert(groups[0].key == all[0].key);
            } else if tail[g - 1].key != key {
                let h = choose|h: int| 0 <= h < rest.len() && (#[trigger] rest[h]).key == tail[g - 1].key;
                assert(groups[h + 1].key == all[g].key);
            }
        }
    }
}

/// The groups of resources, one resource after the other.
proof fn lemma_grouping(resources: Seq<Resource>, n: int)
    requires
        0 <= n <= resources.len() <= usize::MAX,
    ensures
        ascending(groups_of(resources, n)),
        forall|g: int|
            0 <= g < groups_of(resources, n).len() ==> is_keyed(
                resources,
                #[trigger] groups_of(resources, n)[g],
            ),
        forall|i: usize| #[trigger]
            is_grouped(groups_of(resources, n), i) <==> i < n && resources[i as int].listener is Some,
    decreases n,
{
    if n > 0 {
        lemma_grouping(resources, n - 1);
        if let Some(listener) = resources[n - 1].listener {
            lemma_with_resource(
                resources,
                groups_of(resources, n - 1),
                bind_of(listener),
                (n - 1) as usize,
            );
        }
    } else {
        assert forall|i: usize| !#[trigger] is_grouped(groups_of(resources, n), i) by {}
    }
}

/// Whether two resources are in one group.
pub open spec fn share_group(groups: Seq<GroupModel>, i: usize, j: usize) -> bool {
    exists|g: int|
        0 <= g < groups.len() && (#[trigger] groups[g]).members.contains(i)
            && groups[g].members.contains(j)
}

/// Whether two resources have listeners with the same port, protocol and TLS
/// material.
pub open spec fn bound_alike(resources: Seq<Resource>, i: usize, j: usize) -> bool {
    match (resources[i as int].listener, resources[j as int].listener) {
        (Some(a), Some(b)) => same_bind(a, b),
        _ => false,
    }
}

/// Every resource with a listener is in a group, and no other is. Groups hold
/// resources of one merge key, each once, in the order of the resources' keys,
/// and no two groups have the same merge key. So two resources share a listener
/// exactly where their ports, protocols and TLS material are equal.
pub proof fn law_grouping(resources: Seq<Resource>, n: int)
    requires
        0 <= n <= resources.len() <= usize::MAX,
    ensures
        ascending(groups_of(resources, n)),
        forall|g: int|
            0 <= g < groups_of(resources, n).len() ==> is_keyed(
                resources,
                #[trigger] groups_of(resources, n)[g],
            ),
        forall|i: usize| #[trigger]
            is_grouped(groups_of(resources, n), i) <==> i < n && resources[i as int].listener is Some,
        forall|i: usize, j: usize|
            i < n && j < n ==> (#[trigger] share_group(groups_of(resources, n), i, j) <==> bound_alike(
                resources,
                i,
                j,
            )),
{
    let groups = groups_of(resources, n);
    lemma_grouping(resources, n);
    assert forall|i: usize, j: usize| i < n && j < n implies (#[trigger] share_group(groups, i, j)
        <==> bound_alike(resources, i, j)) by {
        if share_group(groups, i, j) {
            let g = choose|g: int|
                0 <= g < groups.len() && (#[trigger] groups[g]).members.contains(i)
                    && groups[g].members.contains(j);
            assert(is_keyed(resources, groups[g]));
            assert(has_key(resources, i, groups[g].key));
            assert(has_key(resources, j, groups[g].key));
            law_same_bind_is_merged(resources[i as int].listener->0, resources[j as int].listener->0);
        }
        if bound_alike(resources, i, j) {
            law_same_bind_is_merged(resources[i as int].listener->0, resources[j as int].listener->0);
            assert(is_grouped(groups, i) && is_grouped(groups, j));
            let g = choose|g: int| 0 <= g < groups.len() && (#[trigger] groups[g]).members.contains(i);
            let h = choose|h: int| 0 <= h < groups.len() && (#[trigger] groups[h]).members.contains(j);
            assert(is_keyed(resources, groups[g]) && is_keyed(resources, groups[h]));
            assert(has_key(resources, i, groups[g].key));
            assert(has_key(resources, j, groups[h].key));
            lemma_bind_total(groups[g].key, groups[g].key);
            if g < h {
                assert(bind_less(groups[g].key, groups[h].key));
            } else if h < g {
                assert(bind_less(groups[h].key, groups[g].key));
            }
        }
    }
}

/// The different ports, protocols and TLS material of the first `n` resources
/// that have a listener.
pub open spec fn binds(resources: Seq<Resource>, n: int) -> Set<Bind>
    decreases n,
{
    if n <= 0 {
        Set::empty()
    } else {
        match resources[n - 1].listener {
            Some(listener) => binds(resources, n - 1).insert(bind_of(listener)),
            None => binds(resources, n - 1),
        }
    }
}

proof fn lemma_binds(resources: Seq<Resource>, n: int)
    requires
        0 <= n <= resources.len() <= usize::MAX,
    ensures
        binds(resources, n).finite(),
        forall|x: usize, key: Bind|
            x < n && #[trigger] has_key(resources, x, key) ==> binds(resources, n).contains(key),
        forall|key: Bind| #[trigger]
            binds(resources, n).contains(key) ==> exists|x: usize|
                x < n && #[trigger] has_key(resources, x, key),
    decreases n,
{
    if n > 0 {
        lemma_binds(resources, n - 1);
        let last = (n - 1) as usize;
        assert forall|key: Bind| #[trigger] binds(resources, n).contains(key) implies exists|x: usize|
            x < n && #[trigger] has_key(resources, x, key) by {
            if binds(resources, n - 1).contains(key) {
                let x = choose|x: usize| x < n - 1 && #[trigger] has_key(resources, x, key);
                assert(has_key(resources, x, key));
            } else {
                assert(has_key(resources, last, key));
            }
        }
    }
}

/// There is one group for each different port, protocol and TLS material.
pub proof fn law_group_per_bind(resources: Seq<Resource>, n: int)
    requires
        0 <= n <= resources.len() <= usize::MAX,
    ensures
        groups_of(resources, n).len() == binds(resources, n).len(),
{
    let groups = groups_of(resources, n);
    let keys = groups.map_values(|g: GroupModel| g.key);
    law_grouping(resources, n);
    lemma_groups(resources, n);
    lemma_binds(resources, n);
    assert(keys.no_duplicates()) by {
        assert forall|a: int, b: int| 0 <= a < b < keys.len() implies keys[a] != keys[b] by {
            assert(bind_less(groups[a].key, groups[b].key));
            lemma_bind_total(groups[a].key, groups[a].key);
        }
    }
    keys.unique_seq_to_set();
    assert(keys.to_set() =~= binds(resources, n)) by {
        assert forall|key: Bind| keys.to_set().contains(key) <==> binds(resources, n).contains(key) by {
            if keys.contains(key) {
                let g = keys.index_of(key);
                let x = groups[g].members[0];
                assert(is_group(resources, groups[g].members));
                assert(groups[g].members.contains(x));
                assert(is_keyed(resources, groups[g]));
                assert(has_key(resources, x, key));
                assert(is_grouped(groups, x));
            }
            if binds(resources, n).contains(key) {
                let x = choose|x: usize| x < n && #[trigger] has_key(resources, x, key);
                assert(is_grouped(groups, x));
                let g = choose|g: int| 0 <= g < groups.len() && (#[trigger] groups[g]).members.contains(x);
                assert(is_keyed(resources, groups[g]));
                assert(has_key(resources, x, groups[g].key));
                assert(keys[g] == key);
            }
        }
    }
}

/// Clusters of a list with different names.
pub open spec fn named_apart(clusters: Seq<ClusterModel>) -> bool {
    forall|i: int, j: int|
        0 <= i < j < clusters.len() ==> (#[trigger] clusters[i]).name != (#[trigger] clusters[j]).name
}

proof fn lemma_merged_apart(before: Seq<ClusterModel>, list: Seq<ClusterModel>, n: int)
    requires
        named_apart(before),
        0 <= n <= list.len(),
    ensures
        named_apart(merged(before, list, n)),
    decreases n,
{
    if n > 0 {
        lemma_merged_apart(before, list, n - 1);
        let earlier = merged(before, list, n - 1);
        let now = merged(before, list, n);
        if !has_name(earlier, list[n - 1].name) {
            assert forall|i: int, j: int| 0 <= i < j < now.len() implies (#[trigger] now[i]).name != (
            #[trigger] now[j]).name by {
                assert(now[i] == earlier[i]);
                assert(earlier[i].name != list[n - 1].name);
            }
        }
    }
}

/// No two clusters of a configuration have the same name.
pub proof fn law_config_clusters_apart(resources: Seq<Resource>, groups: Seq<GroupModel>, n: int)
    requires
        0 <= n <= groups.len(),
    ensures
        named_apart(config_clusters(resources, groups, n)),
    decreases n,
{
    if n > 0 {
        law_config_clusters_apart(resources, groups, n - 1);
        let members = groups[n - 1].members;
        let list = group_clusters(resources, members, members.len() as int);
        lemma_merged_apart(
            config_clusters(resources, groups, n - 1),
            list,
            list.len() as int,
        );
    }
}

} // verus!
