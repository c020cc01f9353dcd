//! Backends of routes: addresses, clusters and TLS.

use vstd::prelude::*;

use crate::gwxds::types::{Backend, BackendTls, Cluster, ClusterTls, Endpoint, EndpointModel, GwRoute, InlinePair};
use crate::ip::{ip_address, is_ip};
use crate::number::{decimal, decimal_text};
use crate::text::{before, before_char, concat, concat3, has_char, lower, opt_text, same_ignoring_case};

verus! {

/// The port that a backend is reached at.
pub open spec fn socket_port(b: Backend) -> u32 {
    if b.dial_port != 0 {
        b.dial_port
    } else {
        b.port
    }
}

/// The name that a host is reached by. A bare service name stands for the
/// service in the namespace of the route.
pub open spec fn qualified_host(host: Seq<char>, route_key: Seq<char>) -> Seq<char> {
    let namespace = before(route_key, '/');
    if lower(host) == lower("localhost"@) || is_ip(host) || host.contains('.') || namespace.len() == 0 {
        host
    } else {
        host + "."@ + namespace + ".svc.cluster.local"@
    }
}

/// Host and port of a backend.
pub open spec fn backend_address(b: Backend, route_key: Seq<char>) -> Seq<char> {
    qualified_host(b.host@, route_key) + ":"@ + decimal(socket_port(b) as nat)
}

/// The name of the cluster of a route's backends.
pub open spec fn backends_name(route: GwRoute) -> Seq<char> {
    if route.backends@.len() == 1 {
        backend_address(route.backends@[0], route.key@)
    } else {
        route.key@ + "-backends"@
    }
}

fn backend_socket_port(b: &Backend) -> (r: u32)
    ensures
        r == socket_port(*b),
{
    if b.dial_port != 0 {
        b.dial_port
    } else {
        b.port
    }
}

/// The name that a host is reached by.
pub fn qualify_k8s_service_host(host: &str, route_key: &str) -> (r: String)
    ensures
        r@ == qualified_host(host@, route_key@),
{
    if same_ignoring_case(host, "localhost") {
        return host.to_owned();
    }
    if ip_address(host) {
        return host.to_owned();
    }
    if has_char(host, '.') {
        return host.to_owned();
    }
    let namespace = before_char(route_key, '/');
    if namespace.as_str().is_empty() {
        return host.to_owned();
    }
    let mut out = concat3(host, ".", namespace.as_str());
    out.append(".svc.cluster.local");
    out
}

/// Host and port of a backend.
pub fn backend_cluster_name(b: &Backend, route_key: &str) -> (r: String)
    ensures
        r@ == backend_address(*b, route_key@),
{
    let host = qualify_k8s_service_host(b.host.as_str(), route_key);
    let port = decimal_text(backend_socket_port(b) as u64);
    concat3(host.as_str(), ":", port.as_str())
}

/// The name of the cluster of a route's backends.
pub fn backends_cluster_name(route: &GwRoute) -> (r: String)
    ensures
        r@ == backends_name(*route),
{
    if route.backends.len() == 1 {
        backend_cluster_name(&route.backends[0], route.key.as_str())
    } else {
        concat(route.key.as_str(), "-backends")
    }
}

/// Whether a backend of a route stands for an inference pool.
pub open spec fn has_pool(route: GwRoute) -> bool {
    exists|i: int|
        0 <= i < route.backends@.len() && (#[trigger] route.backends@[i]).inference_pool is Some
}

/// Whether no backend of a route has weight.
pub open spec fn weightless(route: GwRoute) -> bool {
    forall|i: int| 0 <= i < route.backends@.len() ==> (#[trigger] route.backends@[i]).weight == 0
}

/// Whether a backend of a route stands for an inference pool.
pub fn uses_pool(route: &GwRoute) -> (r: bool)
    ensures
        r == has_pool(*route),
{
    let mut i: usize = 0;
    while i < route.backends.len()
        invariant
            i <= route.backends@.len(),
            forall|k: int| 0 <= k < i ==> (#[trigger] route.backends@[k]).inference_pool is None,
        decreases route.backends@.len() - i,
    {
        if route.backends[i].inference_pool.is_some() {
            return true;
        }
        i = i + 1;
    }
    false
}

/// Whether no backend of a route has weight.
pub fn all_weightless(route: &GwRoute) -> (r: bool)
    ensures
        r == weightless(*route),
{
    let mut i: usize = 0;
    while i < route.backends.len()
        invariant
            i <= route.backends@.len(),
            forall|k: int| 0 <= k < i ==> (#[trigger] route.backends@[k]).weight == 0,
        decreases route.backends@.len() - i,
    {
        if route.backends[i].weight != 0 {
            return false;
        }
        i = i + 1;
    }
    true
}

/// TLS to a backend, as mathematical data.
pub struct TlsModel {
    pub ca: Option<Seq<char>>,
    pub client_cert: Option<(Seq<char>, Seq<char>)>,
    pub sni: Option<Seq<char>>,
    pub verify: bool,
}

/// A cluster as mathematical data: endpoints are addresses with weights.
pub struct ClusterModel {
    pub name: Seq<char>,
    pub endpoints: Seq<EndpointModel>,
    pub tls: Option<TlsModel>,
}

pub open spec fn pair_model(pair: Option<InlinePair>) -> Option<(Seq<char>, Seq<char>)> {
    match pair {
        Some(p) => Some((p.cert_pem@, p.key_pem@)),
        None => None,
    }
}

impl ClusterTls {
    pub open spec fn model(self) -> TlsModel {
        TlsModel {
            ca: opt_text(self.ca),
            client_cert: pair_model(self.client_cert),
            sni: opt_text(self.sni),
            verify: self.verify,
        }
    }
}

pub open spec fn tls_model(tls: Option<ClusterTls>) -> Option<TlsModel> {
    match tls {
        Some(t) => Some(t.model()),
        None => None,
    }
}

pub open spec fn endpoint_models(endpoints: Seq<Endpoint>) -> Seq<EndpointModel> {
    endpoints.map_values(|e: Endpoint| e.model())
}

impl Cluster {
    pub open spec fn model(self) -> ClusterModel {
        ClusterModel {
            name: self.name@,
            endpoints: endpoint_models(self.endpoints@),
            tls: tls_model(self.tls),
        }
    }
}

pub open spec fn cluster_models(clusters: Seq<Cluster>) -> Seq<ClusterModel> {
    clusters.map_values(|c: Cluster| c.model())
}

pub open spec fn nonempty_text(s: Seq<char>) -> Option<Seq<char>> {
    if s.len() == 0 {
        None
    } else {
        Some(s)
    }
}

/// TLS of the cluster of a backend. Certificates are verified where there is an
/// authority to verify them by.
pub open spec fn cluster_tls(tls: BackendTls) -> Option<TlsModel> {
    if tls.invalid {
        None
    } else {
        Some(
            TlsModel {
                ca: nonempty_text(tls.ca_cert@),
                client_cert: if tls.client_cert@.len() > 0 && tls.client_key@.len() > 0 {
                    Some((tls.client_cert@, tls.client_key@))
                } else {
                    None
                },
                sni: nonempty_text(tls.hostname@),
                verify: tls.ca_cert@.len() > 0,
            },
        )
    }
}

/// TLS of the cluster of a route: that of its first backend.
pub open spec fn route_tls(route: GwRoute) -> Option<TlsModel> {
    if route.backends@.len() > 0 {
        match route.backends@[0].tls {
            Some(tls) => cluster_tls(tls),
            None => None,
        }
    } else {
        None
    }
}

fn some_text(s: &String) -> (r: Option<String>)
    ensures
        opt_text(r) == nonempty_text(s@),
{
    if s.as_str().is_empty() {
        None
    } else {
        Some(s.clone())
    }
}

/// TLS of the cluster of a backend.
pub fn build_cluster_tls(tls: &BackendTls) -> (r: Option<ClusterTls>)
    ensures
        tls_model(r) == cluster_tls(*tls),
{
    if tls.invalid {
        return None;
    }
    let ca = some_text(&tls.ca_cert);
    let verify = ca.is_some();
    let client_cert: Option<InlinePair> = if !tls.client_cert.as_str().is_empty()
        && !tls.client_key.as_str().is_empty() {
        Some(InlinePair { cert_pem: tls.client_cert.clone(), key_pem: tls.client_key.clone() })
    } else {
        None
    };
    let sni = some_text(&tls.hostname);
    Some(ClusterTls { ca, client_cert, sni, verify })
}

/// TLS of the cluster of a route.
pub fn build_route_tls(route: &GwRoute) -> (r: Option<ClusterTls>)
    ensures
        tls_model(r) == route_tls(*route),
{
    if route.backends.len() > 0 {
        match &route.backends[0].tls {
            Some(tls) => build_cluster_tls(tls),
            None => None,
        }
    } else {
        None
    }
}

/// The endpoints of the first `n` backends: each address as often as its weight
/// says.
pub open spec fn repeated_endpoints(route: GwRoute, n: int) -> Seq<EndpointModel>
    decreases n,
{
    if n <= 0 {
        Seq::empty()
    } else {
        repeated_endpoints(route, n - 1) + Seq::new(
            route.backends@[n - 1].weight as nat,
            |k: int| EndpointModel::Simple(backend_address(route.backends@[n - 1], route.key@)),
        )
    }
}

/// The endpoint of a backend: an address alone where its weight is one, else
/// an address with its weight.
pub open spec fn backend_endpoint(b: Backend, route_key: Seq<char>) -> EndpointModel {
    if b.weight == 1 {
        EndpointModel::Simple(backend_address(b, route_key))
    } else {
        EndpointModel::Weighted(backend_address(b, route_key), b.weight)
    }
}

/// The endpoints of the first `n` backends: each address with its weight, where
/// it has any.
pub open spec fn weighted_endpoints(route: GwRoute, n: int) -> Seq<EndpointModel>
    decreases n,
{
    if n <= 0 {
        Seq::empty()
    } else if route.backends@[n - 1].weight == 0 {
        weighted_endpoints(route, n - 1)
    } else {
        weighted_endpoints(route, n - 1).push(backend_endpoint(route.backends@[n - 1], route.key@))
    }
}

/// The endpoints of a route's cluster, each address as often as its weight says.
pub fn repeat_endpoints(route: &GwRoute) -> (r: Vec<Endpoint>)
    ensures
        endpoint_models(r@) == repeated_endpoints(*route, route.backends@.len() as int),
{
    let mut out: Vec<Endpoint> = Vec::new();
    assert(endpoint_models(out@) =~= Seq::<EndpointModel>::empty());
    let mut i: usize = 0;
    while i < route.backends.len()
        invariant
            i <= route.backends@.len(),
            endpoint_models(out@) == repeated_endpoints(*route, i as int),
        decreases route.backends@.len() - i,
    {
        let b = &route.backends[i];
        let address = backend_cluster_name(b, route.key.as_str());
        let ghost pair = EndpointModel::Simple(address@);
        let ghost earlier = endpoint_models(out@);
        let weight: u32 = b.weight;
        let mut k: u32 = 0;
        while k < weight
            invariant
                k <= weight,
                pair == EndpointModel::Simple(address@),
                endpoint_models(out@) == earlier + Seq::new(k as nat, |j: int| pair),
            decreases weight - k,
        {
            let ghost before = endpoint_models(out@);
            out.push(Endpoint::Simple(address.clone()));
            assert(endpoint_models(out@) =~= before.push(pair));
            assert(Seq::new((k + 1) as nat, |j: int| pair) =~= Seq::new(k as nat, |j: int| pair).push(
                pair,
            ));
            k = k + 1;
        }
        assert(Seq::new(
            route.backends@[i as int].weight as nat,
            |j: int|
                EndpointModel::Simple(backend_address(route.backends@[i as int], route.key@)),
        ) =~= Seq::new(weight as nat, |j: int| pair));
        i = i + 1;
    }
    out
}

fn weighted_endpoint(b: &Backend, route_key: &str) -> (r: Endpoint)
    ensures
        r.model() == backend_endpoint(*b, route_key@),
{
    let address = backend_cluster_name(b, route_key);
    if b.weight == 1 {
        Endpoint::Simple(address)
    } else {
        Endpoint::Weighted { address, weight: b.weight }
    }
}

/// The endpoints of a route's cluster, each address with its weight.
pub fn weigh_endpoints(route: &GwRoute) -> (r: Vec<Endpoint>)
    ensures
        endpoint_models(r@) == weighted_endpoints(*route, route.backends@.len() as int),
{
    let mut out: Vec<Endpoint> = Vec::new();
    assert(endpoint_models(out@) =~= Seq::<EndpointModel>::empty());
    let mut i: usize = 0;
    while i < route.backends.len()
        invariant
            i <= route.backends@.len(),
            endpoint_models(out@) == weighted_endpoints(*route, i as int),
        decreases route.backends@.len() - i,
    {
        let b = &route.backends[i];
        let ghost earlier = endpoint_models(out@);
        if b.weight > 0 {
            let e = weighted_endpoint(b, route.key.as_str());
            out.push(e);
            assert(endpoint_models(out@) =~= earlier.push(e.model()));
        }
        i = i + 1;
    }
    out
}

/// Backends without weight get no endpoint, and all others keep theirs.
pub proof fn law_endpoints_have_weight(route: GwRoute, n: int)
    requires
        0 <= n <= route.backends@.len(),
    ensures
        forall|k: int|
            0 <= k < weighted_endpoints(route, n).len() ==> (#[trigger] weighted_endpoints(
                route,
                n,
            )[k]).weight() > 0,
        forall|i: int|
            0 <= i < n && (#[trigger] route.backends@[i]).weight > 0 ==> weighted_endpoints(
                route,
                n,
            ).contains(backend_endpoint(route.backends@[i], route.key@)),
    decreases n,
{
    if n > 0 {
        law_endpoints_have_weight(route, n - 1);
        let earlier = weighted_endpoints(route, n - 1);
        let now = weighted_endpoints(route, n);
        assert forall|i: int| 0 <= i < n && (#[trigger] route.backends@[i]).weight > 0 implies now.contains(
        backend_endpoint(route.backends@[i], route.key@)) by {
            let x = backend_endpoint(route.backends@[i], route.key@);
            if i < n - 1 {
                assert(earlier.contains(x));
                let k = earlier.index_of(x);
                assert(now[k] == x);
            } else {
                assert(now[now.len() - 1] == x);
            }
        }
    }
}

} // verus!
