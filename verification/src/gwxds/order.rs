//! The order of resources plays no part in their translation.

use vstd::prelude::*;

use crate::gwxds::backend::cluster_models;
use crate::gwxds::bind::{bind_less, bind_of, lemma_bind_total, Bind};
use crate::gwxds::translate::{chain_name, config_clusters, group_chain, group_clusters, group_lb, group_listener, group_name, group_routes, group_sni, groups_of, has_key, is_chain, is_grouped, is_keyed, is_translation, law_config_clusters_apart, law_grouping, lemma_groups, member_keys, named_apart, passes_tls, ChainModel, GroupModel};
use crate::gwxds::types::{Config, FilterChainConfig, Resource};
use crate::text::{lemma_less_total, less};

verus! {

/// No two resources have the same key.
pub open spec fn distinct_keys(resources: Seq<Resource>) -> bool {
    forall|i: int, j: int|
        0 <= i < j < resources.len() ==> (#[trigger] resources[i]).key@ != (#[trigger] resources[j]).key@
}

/// The same resources with a listener, in whatever order, beside any resources
/// without one.
pub open spec fn same_resources(a: Seq<Resource>, b: Seq<Resource>) -> bool {
    forall|r: Resource|
        #![trigger a.contains(r)]
        #![trigger b.contains(r)]
        r.listener is Some ==> (a.contains(r) <==> b.contains(r))
}

/// Whether two filter chains have the same name and the same filters.
pub open spec fn same_chain(a: FilterChainConfig, b: FilterChainConfig) -> bool {
    exists|name: Seq<char>, model: ChainModel| #[trigger]
        is_chain(a, name, model) && is_chain(b, name, model)
}

/// Whether two configurations have the same listeners and filter chains in the
/// same order, and the same clusters.
pub open spec fn same_config(a: Config, b: Config) -> bool {
    &&& a.listeners@.len() == b.listeners@.len()
    &&& forall|g: int|
        0 <= g < a.listeners@.len() ==> (#[trigger] a.listeners@[g]).model() == b.listeners@[g].model()
    &&& a.filter_chains@.len() == b.filter_chains@.len()
    &&& forall|g: int|
        0 <= g < a.filter_chains@.len() ==> same_chain(
            #[trigger] a.filter_chains@[g],
            b.filter_chains@[g],
        )
    &&& cluster_models(a.clusters@) == cluster_models(b.clusters@)
    &&& a.shutdown_timeout_secs == b.shutdown_timeout_secs
}

spec fn ascending_keys(keys: Seq<Bind>) -> bool {
    forall|i: int, j: int| 0 <= i < j < keys.len() ==> bind_less(#[trigger] keys[i], #[trigger] keys[j])
}

/// Two ascending lists of the same keys are the same.
proof fn lemma_keys_unique(a: Seq<Bind>, b: Seq<Bind>)
    requires
        ascending_keys(a),
        ascending_keys(b),
        forall|k: Bind| #[trigger] a.contains(k) <==> b.contains(k),
    ensures
        a == b,
    decreases a.len(),
{
    if a.len() == 0 {
        if b.len() > 0 {
            assert(b.contains(b[0]));
            assert(a.contains(b[0]));
        }
        assert(a =~= b);
    } else {
        assert(a.contains(a[0]));
        assert(b.contains(a[0]));
        assert(b.contains(b[0]));
        assert(a.contains(b[0]));
        let k = b.index_of(a[0]);
        let m = a.index_of(b[0]);
        if a[0] != b[0] {
            assert(bind_less(b[0], b[k]));
            assert(bind_less(a[0], a[m]));
            lemma_bind_total(a[0], b[0]);
        }
        let x = a.skip(1);
        let y = b.skip(1);
        assert forall|i: int, j: int| 0 <= i < j < x.len() implies bind_less(#[trigger] x[i], #[trigger] x[j]) by {
            assert(x[i] == a[i + 1] && x[j] == a[j + 1]);
        }
        assert forall|i: int, j: int| 0 <= i < j < y.len() implies bind_less(#[trigger] y[i], #[trigger] y[j]) by {
            assert(y[i] == b[i + 1] && y[j] == b[j + 1]);
        }
        assert forall|key: Bind| #[trigger] x.contains(key) <==> y.contains(key) by {
            lemma_bind_total(key, key);
            if x.contains(key) {
                let i = x.index_of(key);
                assert(a[i + 1] == key);
                assert(a.contains(key));
                assert(bind_less(a[0], a[i + 1]));
                let j = b.index_of(key);
                assert(y[j - 1] == key);
            }
            if y.contains(key) {
                let i = y.index_of(key);
                assert(b[i + 1] == key);
                assert(b.contains(key));
                assert(a.contains(key));
                assert(bind_less(b[0], b[i + 1]));
                let j = a.index_of(key);
                assert(x[j - 1] == key);
            }
        }
        lemma_keys_unique(x, y);
        assert(a =~= seq![a[0]] + x);
        assert(b =~= seq![b[0]] + y);
    }
}

spec fn ascending_resources(list: Seq<Resource>) -> bool {
    forall|i: int, j: int|
        0 <= i < j < list.len() ==> less((#[trigger] list[i]).key@, (#[trigger] list[j]).key@)
}

/// Two ascending lists of the same resources are the same.
proof fn lemma_resources_unique(a: Seq<Resource>, b: Seq<Resource>)
    requires
        ascending_resources(a),
        ascending_resources(b),
        forall|r: Resource| #[trigger] a.contains(r) <==> b.contains(r),
    ensures
        a == b,
    decreases a.len(),
{
    if a.len() == 0 {
        if b.len() > 0 {
            assert(b.contains(b[0]));
            assert(a.contains(b[0]));
        }
        assert(a =~= b);
    } else {
        assert(a.contains(a[0]));
        assert(b.contains(a[0]));
        assert(b.contains(b[0]));
        assert(a.contains(b[0]));
        let k = b.index_of(a[0]);
        let m = a.index_of(b[0]);
        lemma_less_total(a[0].key@, b[0].key@);
        if a[0] != b[0] {
            assert(less(b[0].key@, b[k].key@));
            assert(less(a[0].key@, a[m].key@));
        }
        let x = a.skip(1);
        let y = b.skip(1);
        assert forall|i: int, j: int| 0 <= i < j < x.len() implies less(
            (#[trigger] x[i]).key@,
            (#[trigger] x[j]).key@,
        ) by {
            assert(x[i] == a[i + 1] && x[j] == a[j + 1]);
        }
        assert forall|i: int, j: int| 0 <= i < j < y.len() implies less(
            (#[trigger] y[i]).key@,
            (#[trigger] y[j]).key@,
        ) by {
            assert(y[i] == b[i + 1] && y[j] == b[j + 1]);
        }
        assert forall|r: Resource| #[trigger] x.contains(r) <==> y.contains(r) by {
            lemma_less_total(r.key@, r.key@);
            if x.contains(r) {
                let i = x.index_of(r);
                assert(a[i + 1] == r);
                assert(a.contains(r));
                assert(less(a[0].key@, a[i + 1].key@));
                let j = b.index_of(r);
                assert(y[j - 1] == r);
            }
            if y.contains(r) {
                let i = y.index_of(r);
                assert(b[i + 1] == r);
                assert(b.contains(r));
                assert(a.contains(r));
                assert(less(b[0].key@, b[i + 1].key@));
                let j = a.index_of(r);
                assert(x[j - 1] == r);
            }
        }
        lemma_resources_unique(x, y);
        assert(a =~= seq![a[0]] + x);
        assert(b =~= seq![b[0]] + y);
    }
}

/// The resources of a group.
spec fn taken(resources: Seq<Resource>, members: Seq<usize>) -> Seq<Resource> {
    members.map_values(|m: usize| resources[m as int])
}

spec fn group_keys(groups: Seq<GroupModel>) -> Seq<Bind> {
    groups.map_values(|g: GroupModel| g.key)
}

/// Whether a resource has a listener with a merge key.
spec fn keyed(r: Resource, key: Bind) -> bool {
    r.listener matches Some(listener) && bind_of(listener) == key
}

/// Whether one of the resources has a listener with a merge key.
spec fn occurs(resources: Seq<Resource>, key: Bind) -> bool {
    exists|r: Resource| #[trigger] resources.contains(r) && keyed(r, key)
}

/// What the groups of resources are: one for each merge key, with the resources
/// that have it.
proof fn lemma_group(resources: Seq<Resource>, g: int)
    requires
        resources.len() <= usize::MAX,
        distinct_keys(resources),
        0 <= g < groups_of(resources, resources.len() as int).len(),
    ensures
        ({
            let group = groups_of(resources, resources.len() as int)[g];
            &&& group.members.len() > 0
            &&& ascending_resources(taken(resources, group.members))
            &&& forall|r: Resource| #[trigger]
                taken(resources, group.members).contains(r) <==> resources.contains(r) && keyed(r, group.key)
        }),
{
    let groups = groups_of(resources, resources.len() as int);
    let group = groups[g];
    let members = group.members;
    let list = taken(resources, members);
    law_grouping(resources, resources.len() as int);
    lemma_groups(resources, resources.len() as int);
    assert(is_keyed(resources, group));
    assert forall|k: int| 0 <= k < members.len() implies (#[trigger] members[k]) < resources.len() && keyed(
        resources[members[k] as int],
        group.key,
    ) by {
        assert(members.contains(members[k]));
        assert(has_key(resources, members[k], group.key));
        assert(is_grouped(groups, members[k]));
    }
    assert forall|i: int, j: int| 0 <= i < j < list.len() implies less(
        (#[trigger] list[i]).key@,
        (#[trigger] list[j]).key@,
    ) by {
        let a = members[i];
        let b = members[j];
        assert(a != b);
        assert(list[i] == resources[a as int] && list[j] == resources[b as int]);
        assert(!less(resources[b as int].key@, resources[a as int].key@));
        lemma_less_total(resources[a as int].key@, resources[b as int].key@);
        if a < b {
            assert(resources[a as int].key@ != resources[b as int].key@);
        } else {
            assert(resources[b as int].key@ != resources[a as int].key@);
        }
    }
    assert forall|r: Resource| #[trigger] list.contains(r) <==> resources.contains(r) && keyed(r, group.key) by {
        if list.contains(r) {
            let k = list.index_of(r);
            assert(resources[members[k] as int] == r);
        }
        if resources.contains(r) && keyed(r, group.key) {
            let x = resources.index_of(r) as usize;
            assert(resources[x as int] == r);
            assert(is_grouped(groups, x));
            let h = choose|h: int| 0 <= h < groups.len() && (#[trigger] groups[h]).members.contains(x);
            assert(is_keyed(resources, groups[h]));
            assert(has_key(resources, x, groups[h].key));
            lemma_bind_total(group.key, group.key);
            if h < g {
                assert(bind_less(groups[h].key, groups[g].key));
            } else if g < h {
                assert(bind_less(groups[g].key, groups[h].key));
            }
            let k = members.index_of(x);
            assert(list[k] == r);
        }
    }
}

proof fn lemma_group_keys(resources: Seq<Resource>)
    requires
        resources.len() <= usize::MAX,
        distinct_keys(resources),
    ensures
        ascending_keys(group_keys(groups_of(resources, resources.len() as int))),
        forall|key: Bind| #[trigger]
            group_keys(groups_of(resources, resources.len() as int)).contains(key) <==> occurs(
                resources,
                key,
            ),
{
    let groups = groups_of(resources, resources.len() as int);
    let keys = group_keys(groups);
    law_grouping(resources, resources.len() as int);
    assert forall|i: int, j: int| 0 <= i < j < keys.len() implies bind_less(#[trigger] keys[i], #[trigger] keys[j]) by {
        assert(bind_less(groups[i].key, groups[j].key));
    }
    assert forall|key: Bind| #[trigger] keys.contains(key) <==> occurs(resources, key) by {
        if keys.contains(key) {
            let g = keys.index_of(key);
            lemma_group(resources, g);
            let list = taken(resources, groups[g].members);
            assert(list.contains(list[0]));
            assert(resources.contains(list[0]));
        }
        if occurs(resources, key) {
            let r = choose|r: Resource| #[trigger] resources.contains(r) && keyed(r, key);
            let x = resources.index_of(r) as usize;
            assert(is_grouped(groups, x));
            let h = choose|h: int| 0 <= h < groups.len() && (#[trigger] groups[h]).members.contains(x);
            assert(is_keyed(resources, groups[h]));
            assert(has_key(resources, x, groups[h].key));
            assert(keys[h] == key);
        }
    }
}

/// The same groups, of the same resources.
spec fn same_groups(a: Seq<Resource>, x: Seq<GroupModel>, b: Seq<Resource>, y: Seq<GroupModel>) -> bool {
    &&& x.len() == y.len()
    &&& forall|g: int|
        0 <= g < x.len() ==> taken(a, (#[trigger] x[g]).members) == taken(b, y[g].members)
            && x[g].members.len() > 0
}

proof fn lemma_same_groups(a: Seq<Resource>, b: Seq<Resource>)
    requires
        a.len() <= usize::MAX,
        b.len() <= usize::MAX,
        distinct_keys(a),
        distinct_keys(b),
        same_resources(a, b),
    ensures
        same_groups(a, groups_of(a, a.len() as int), b, groups_of(b, b.len() as int)),
{
    let x = groups_of(a, a.len() as int);
    let y = groups_of(b, b.len() as int);
    lemma_group_keys(a);
    lemma_group_keys(b);
    assert forall|key: Bind| #[trigger] group_keys(x).contains(key) <==> group_keys(y).contains(key) by {
        if occurs(a, key) {
            let r = choose|r: Resource| #[trigger] a.contains(r) && keyed(r, key);
            assert(b.contains(r));
        }
        if occurs(b, key) {
            let r = choose|r: Resource| #[trigger] b.contains(r) && keyed(r, key);
            assert(a.contains(r));
        }
    }
    lemma_keys_unique(group_keys(x), group_keys(y));
    assert(group_keys(x).len() == x.len() && group_keys(y).len() == y.len());
    assert forall|g: int| 0 <= g < x.len() implies taken(a, (#[trigger] x[g]).members) == taken(
        b,
        y[g].members,
    ) && x[g].members.len() > 0 by {
        assert(group_keys(x)[g] == group_keys(y)[g]);
        lemma_group(a, g);
        lemma_group(b, g);
        let of_a = taken(a, x[g].members);
        let of_b = taken(b, y[g].members);
        assert forall|r: Resource| #[trigger] of_a.contains(r) <==> of_b.contains(r) by {
            if keyed(r, x[g].key) {
                assert(a.contains(r) <==> b.contains(r));
            }
        }
        lemma_resources_unique(of_a, of_b);
    }
}

/// What is made of a group depends on its resources alone.
proof fn lemma_same_parts(a: Seq<Resource>, x: Seq<usize>, b: Seq<Resource>, y: Seq<usize>, n: int)
    requires
        taken(a, x) == taken(b, y),
        0 <= n <= x.len(),
    ensures
        group_routes(a, x, n) == group_routes(b, y, n),
        group_clusters(a, x, n) == group_clusters(b, y, n),
        group_lb(a, x, n) == group_lb(b, y, n),
        group_sni(a, x, n) == group_sni(b, y, n),
    decreases n,
{
    assert(taken(a, x).len() == x.len() && taken(b, y).len() == y.len());
    if n > 0 {
        lemma_same_parts(a, x, b, y, n - 1);
        assert(taken(a, x)[n - 1] == a[x[n - 1] as int]);
        assert(taken(b, y)[n - 1] == b[y[n - 1] as int]);
    }
}

proof fn lemma_same_group(a: Seq<Resource>, x: Seq<usize>, b: Seq<Resource>, y: Seq<usize>)
    requires
        taken(a, x) == taken(b, y),
        x.len() > 0,
    ensures
        group_listener(a, x) == group_listener(b, y),
        group_name(a, x) == group_name(b, y),
        group_chain(a, x) == group_chain(b, y),
        passes_tls(a, x) == passes_tls(b, y),
        group_clusters(a, x, x.len() as int) == group_clusters(b, y, y.len() as int),
{
    assert(taken(a, x).len() == x.len() && taken(b, y).len() == y.len());
    lemma_same_parts(a, x, b, y, x.len() as int);
    assert(taken(a, x)[0] == a[x[0] as int]);
    assert(taken(b, y)[0] == b[y[0] as int]);
    assert(member_keys(a, x) =~= member_keys(b, y)) by {
        assert forall|k: int| 0 <= k < x.len() implies member_keys(a, x)[k] == member_keys(b, y)[k] by {
            assert(taken(a, x)[k] == a[x[k] as int]);
            assert(taken(b, y)[k] == b[y[k] as int]);
        }
    }
}

proof fn lemma_same_clusters(
    a: Seq<Resource>,
    x: Seq<GroupModel>,
    b: Seq<Resource>,
    y: Seq<GroupModel>,
    n: int,
)
    requires
        same_groups(a, x, b, y),
        0 <= n <= x.len(),
    ensures
        config_clusters(a, x, n) == config_clusters(b, y, n),
    decreases n,
{
    if n > 0 {
        lemma_same_clusters(a, x, b, y, n - 1);
        assert(taken(a, x[n - 1].members) == taken(b, y[n - 1].members));
        lemma_same_group(a, x[n - 1].members, b, y[n - 1].members);
    }
}

/// Resources with different keys are translated alike in whatever order they
/// come, and resources without a listener make no difference. The names of the
/// clusters are all different.
pub proof fn law_resource_order_is_ignored(a: Seq<Resource>, b: Seq<Resource>, x: Config, y: Config)
    requires
        a.len() <= usize::MAX,
        b.len() <= usize::MAX,
        distinct_keys(a),
        distinct_keys(b),
        same_resources(a, b),
        is_translation(x, a, groups_of(a, a.len() as int)),
        is_translation(y, b, groups_of(b, b.len() as int)),
    ensures
        same_config(x, y),
        named_apart(cluster_models(x.clusters@)),
{
    let of_a = groups_of(a, a.len() as int);
    let of_b = groups_of(b, b.len() as int);
    lemma_same_groups(a, b);
    lemma_same_clusters(a, of_a, b, of_b, of_a.len() as int);
    law_config_clusters_apart(a, of_a, of_a.len() as int);
    assert forall|g: int| 0 <= g < x.listeners@.len() implies (#[trigger] x.listeners@[g]).model()
        == y.listeners@[g].model() by {
        assert(taken(a, of_a[g].members) == taken(b, of_b[g].members));
        lemma_same_group(a, of_a[g].members, b, of_b[g].members);
        assert(y.listeners@[g].model() == group_listener(b, of_b[g].members));
    }
    assert forall|g: int| 0 <= g < x.filter_chains@.len() implies same_chain(
        #[trigger] x.filter_chains@[g],
        y.filter_chains@[g],
    ) by {
        assert(taken(a, of_a[g].members) == taken(b, of_b[g].members));
        lemma_same_group(a, of_a[g].members, b, of_b[g].members);
        let name = chain_name(group_name(a, of_a[g].members));
        let model = group_chain(a, of_a[g].members);
        assert(is_chain(x.filter_chains@[g], name, model));
        assert(is_chain(y.filter_chains@[g], name, model));
    }
}

} // verus!
