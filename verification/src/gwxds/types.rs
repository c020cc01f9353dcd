//! Gateway resources: listeners, routes and backends as the control plane sends
//! them, and the configuration that they are translated into.

use vstd::prelude::*;

use crate::route::{RequestHeaderModifier, Route};
use crate::sni::router::SniRouterConfig;
use crate::text_map::TextMap;

verus! {

/// A Gateway listener with its routes.
#[derive(Debug)]
pub struct Resource {
    pub key: String,
    pub listener: Option<GwListener>,
    pub routes: Vec<GwRoute>,
}

/// A Gateway listener.
#[derive(Debug)]
pub struct GwListener {
    pub key: String,
    /// Hostname pattern; empty for every host.
    pub hostname: String,
    pub port: u32,
    /// Number of the protocol.
    pub protocol: i32,
    pub tls: Option<TlsConfig>,
    pub allowed_routes: Vec<String>,
}

/// TLS material of a listener.
#[derive(Debug)]
pub struct TlsConfig {
    pub cert_pem: String,
    pub key_pem: String,
    pub ca_pem: String,
    pub min_version: String,
}

/// A protocol.
#[derive(Clone, Copy, Debug, PartialEq, Eq, Structural)]
pub enum Protocol {
    Unknown,
    Http,
    Https,
    Tcp,
    Tls,
    Udp,
}

impl Protocol {
    /// The number of a protocol.
    pub open spec fn code(self) -> i32 {
        match self {
            Protocol::Unknown => 0,
            Protocol::Http => 1,
            Protocol::Https => 2,
            Protocol::Tcp => 3,
            Protocol::Tls => 4,
            Protocol::Udp => 5,
        }
    }

    /// The number of a protocol.
    pub fn number(self) -> (r: i32)
        ensures
            r == self.code(),
    {
        match self {
            Protocol::Unknown => 0,
            Protocol::Http => 1,
            Protocol::Https => 2,
            Protocol::Tcp => 3,
            Protocol::Tls => 4,
            Protocol::Udp => 5,
        }
    }

    /// The protocol with a number; one that no protocol has is unknown.
    pub open spec fn of_code(n: i32) -> Protocol {
        if n == 1 {
            Protocol::Http
        } else if n == 2 {
            Protocol::Https
        } else if n == 3 {
            Protocol::Tcp
        } else if n == 4 {
            Protocol::Tls
        } else if n == 5 {
            Protocol::Udp
        } else {
            Protocol::Unknown
        }
    }

    /// The protocol with a number.
    pub fn from_number(n: i32) -> (r: Protocol)
        ensures
            r == Protocol::of_code(n),
    {
        if n == 1 {
            Protocol::Http
        } else if n == 2 {
            Protocol::Https
        } else if n == 3 {
            Protocol::Tcp
        } else if n == 4 {
            Protocol::Tls
        } else if n == 5 {
            Protocol::Udp
        } else {
            Protocol::Unknown
        }
    }
}

/// A route of a Gateway listener.
#[derive(Debug)]
pub struct GwRoute {
    /// Namespace, name and rule, with slashes between them.
    pub key: String,
    pub listener_key: String,
    /// Hostname patterns; none for every host of the listener.
    pub hostnames: Vec<String>,
    pub matches: Vec<RouteMatch>,
    pub request_redirect: Option<RequestRedirect>,
    pub request_header_modifier: Option<RequestHeaderModifier>,
    pub response_header_modifier: Option<RequestHeaderModifier>,
    /// Whether the backends could not be resolved.
    pub invalid_backend_ref: bool,
    /// Whether the route is for gRPC.
    pub grpc_route: bool,
    /// Whether the route is for TLS passthrough.
    pub tls_route: bool,
    pub backends: Vec<Backend>,
}

/// What a route matches. Empty texts do not count.
#[derive(Debug)]
pub struct RouteMatch {
    pub path_exact: String,
    pub path_regex: String,
    pub path_prefix: String,
    pub methods: Vec<String>,
    pub headers: TextMap,
    pub grpc_service: String,
    pub grpc_method: String,
}

/// A redirect.
#[derive(Debug)]
pub struct RequestRedirect {
    pub scheme: String,
    pub hostname: String,
    /// Port; zero for that of the scheme.
    pub port: u32,
    /// Status; zero for 302.
    pub status_code: u32,
}

/// A backend of a route.
#[derive(Debug)]
pub struct Backend {
    pub host: String,
    pub port: u32,
    /// Port to connect to; zero for `port`.
    pub dial_port: u32,
    pub weight: u32,
    /// Name of the inference pool that the backend stands for.
    pub inference_pool: Option<String>,
    pub tls: Option<BackendTls>,
}

/// TLS to a backend.
#[derive(Debug)]
pub struct BackendTls {
    pub invalid: bool,
    pub ca_cert: String,
    pub client_cert: String,
    pub client_key: String,
    pub hostname: String,
}

/// What a listener speaks.
#[derive(Clone, Copy, Debug, PartialEq, Eq, Structural)]
pub enum ProtocolKind {
    Http,
    Tcp,
}

/// A certificate and its key.
#[derive(Debug)]
pub struct InlinePair {
    pub cert_pem: String,
    pub key_pem: String,
}

/// A listener of the proxy.
#[derive(Debug)]
pub struct Listener {
    pub name: String,
    pub address: String,
    pub filter_chains: Vec<String>,
    pub protocol: ProtocolKind,
    pub tls: Option<InlinePair>,
}

/// TLS to the endpoints of a cluster.
#[derive(Debug)]
pub struct ClusterTls {
    /// Certificate authority.
    pub ca: Option<String>,
    pub client_cert: Option<InlinePair>,
    /// Server name.
    pub sni: Option<String>,
    /// Whether certificates are verified.
    pub verify: bool,
}

/// An endpoint of a cluster.
#[derive(Debug)]
pub enum Endpoint {
    /// An address of weight 1.
    Simple(String),
    Weighted { address: String, weight: u32 },
}

/// An endpoint as mathematical data, in the form in which it is written.
pub enum EndpointModel {
    Simple(Seq<char>),
    Weighted(Seq<char>, u32),
}

impl EndpointModel {
    pub open spec fn address(self) -> Seq<char> {
        match self {
            EndpointModel::Simple(address) => address,
            EndpointModel::Weighted(address, _) => address,
        }
    }

    pub open spec fn weight(self) -> u32 {
        match self {
            EndpointModel::Simple(_) => 1,
            EndpointModel::Weighted(_, weight) => weight,
        }
    }
}

impl Endpoint {
    pub open spec fn model(self) -> EndpointModel {
        match self {
            Endpoint::Simple(address) => EndpointModel::Simple(address@),
            Endpoint::Weighted { address, weight } => EndpointModel::Weighted(address@, weight),
        }
    }

    /// The address of this endpoint.
    pub fn address(&self) -> (r: &str)
        ensures
            r@ == self.model().address(),
    {
        match self {
            Endpoint::Simple(address) => address.as_str(),
            Endpoint::Weighted { address, .. } => address.as_str(),
        }
    }

    /// The weight of this endpoint.
    pub fn weight(&self) -> (r: u32)
        ensures
            r == self.model().weight(),
    {
        match self {
            Endpoint::Simple(_) => 1,
            Endpoint::Weighted { weight, .. } => *weight,
        }
    }
}

/// A cluster.
#[derive(Debug)]
pub struct Cluster {
    pub name: String,
    pub endpoints: Vec<Endpoint>,
    pub tls: Option<ClusterTls>,
}

/// The configuration of a filter.
#[derive(Debug)]
pub enum FilterConfig {
    Router { routes: Vec<Route> },
    LoadBalancer { clusters: Vec<Cluster> },
    SniRouter(SniRouterConfig),
}

impl FilterConfig {
    pub open spec fn type_text(self) -> Seq<char> {
        match self {
            FilterConfig::Router { .. } => "router"@,
            FilterConfig::LoadBalancer { .. } => "load_balancer"@,
            FilterConfig::SniRouter(_) => "sni_router"@,
        }
    }

    /// The type of the filter.
    pub fn filter_type(&self) -> (r: &'static str)
        ensures
            r@ == self.type_text(),
    {
        match self {
            FilterConfig::Router { .. } => "router",
            FilterConfig::LoadBalancer { .. } => "load_balancer",
            FilterConfig::SniRouter(_) => "sni_router",
        }
    }
}

/// Filters that a listener runs in order. All of them fail closed.
#[derive(Debug)]
pub struct FilterChainConfig {
    pub name: String,
    pub filters: Vec<FilterConfig>,
}

/// The configuration of a proxy.
#[derive(Debug)]
pub struct Config {
    pub clusters: Vec<Cluster>,
    pub filter_chains: Vec<FilterChainConfig>,
    pub listeners: Vec<Listener>,
    pub shutdown_timeout_secs: u64,
}

/// An empty text.
fn empty_text() -> (r: String)
    ensures
        r@ == Seq::<char>::empty(),
{
    let r = String::new();
    assert(r@ =~= Seq::<char>::empty());
    r
}

impl Default for RouteMatch {
    fn default() -> (r: Self)
        ensures
            r.path_exact@.len() == 0,
            r.path_regex@.len() == 0,
            r.path_prefix@.len() == 0,
            r.methods@.len() == 0,
            r.headers@ == Map::<Seq<char>, Seq<char>>::empty(),
            r.grpc_service@.len() == 0,
            r.grpc_method@.len() == 0,
    {
        RouteMatch {
            path_exact: empty_text(),
            path_regex: empty_text(),
            path_prefix: empty_text(),
            methods: Vec::new(),
            headers: TextMap::new(),
            grpc_service: empty_text(),
            grpc_method: empty_text(),
        }
    }
}

impl Default for GwRoute {
    fn default() -> (r: Self)
        ensures
            r.key@.len() == 0,
            r.listener_key@.len() == 0,
            r.hostnames@.len() == 0,
            r.matches@.len() == 0,
            r.request_redirect is None,
            r.request_header_modifier is None,
            r.response_header_modifier is None,
            !r.invalid_backend_ref,
            !r.grpc_route,
            !r.tls_route,
            r.backends@.len() == 0,
    {
        GwRoute {
            key: empty_text(),
            listener_key: empty_text(),
            hostnames: Vec::new(),
            matches: Vec::new(),
            request_redirect: None,
            request_header_modifier: None,
            response_header_modifier: None,
            invalid_backend_ref: false,
            grpc_route: false,
            tls_route: false,
            backends: Vec::new(),
        }
    }
}

} // verus!
