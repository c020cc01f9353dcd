//! Gateway resources and the configuration made of them.

use praxis::gwxds::backend::{backend_cluster_name, qualify_k8s_service_host};
use praxis::gwxds::chain::build_lb_entry;
use praxis::gwxds::hostname::{effective_route_hostnames, intersect_listener_route_hostname};
use praxis::gwxds::translate::translate;
use praxis::gwxds::types::{
    Backend, BackendTls, Cluster, Endpoint, FilterConfig, GwListener, GwRoute, Protocol, ProtocolKind, RequestRedirect,
    Resource, RouteMatch, TlsConfig,
};
use praxis::route::{HeaderNameValue, RequestHeaderModifier, Route};
use praxis::sni::router::SniRouterConfig;

fn lb_clusters(entry: &FilterConfig) -> &Vec<Cluster> {
    match entry {
        FilterConfig::LoadBalancer { clusters } => clusters,
        other => panic!("expected a load balancer, got {}", other.filter_type()),
    }
}

fn routes_of(entry: &FilterConfig) -> &Vec<Route> {
    match entry {
        FilterConfig::Router { routes } => routes,
        other => panic!("expected a router, got {}", other.filter_type()),
    }
}

fn sni_of(entry: &FilterConfig) -> &SniRouterConfig {
    match entry {
        FilterConfig::SniRouter(config) => config,
        other => panic!("expected an SNI router, got {}", other.filter_type()),
    }
}

fn copy(backend: &Backend) -> Backend {
    Backend {
        host: backend.host.clone(),
        port: backend.port,
        dial_port: backend.dial_port,
        weight: backend.weight,
        inference_pool: backend.inference_pool.clone(),
        tls: None,
    }
}

#[test]
fn lb_entry_preserves_multi_backend_weights() {
    let resource = Resource {
        key: "ns/gw/http".into(),
        listener: Some(GwListener {
            key: "ns/gw/http".into(),
            hostname: "".into(),
            port: 80,
            protocol: 1,
            tls: None,
            allowed_routes: vec![],
        }),
        routes: vec![GwRoute {
            key: "ns/route/rule".into(),
            listener_key: "ns/gw/http".into(),
            hostnames: vec![],
            matches: vec![],
            request_redirect: None,
            request_header_modifier: None,
            invalid_backend_ref: false,
            backends: vec![
                Backend {
                    host: "a.ns.svc.cluster.local".into(),
                    port: 80,
                    dial_port: 0,
                    weight: 70,
                    inference_pool: None,
                    tls: None,
                },
                Backend {
                    host: "b.ns.svc.cluster.local".into(),
                    port: 80,
                    dial_port: 0,
                    weight: 30,
                    inference_pool: None,
                    tls: None,
                },
            ],
            ..Default::default()
        }],
    };

    let entry = build_lb_entry(&resource.routes);
    let clusters = lb_clusters(&entry);

    assert_eq!(clusters.len(), 1);
    let c = &clusters[0];
    assert_eq!(c.endpoints.len(), 2);
    assert_eq!(c.endpoints[0].address(), "a.ns.svc.cluster.local:80");
    assert_eq!(c.endpoints[0].weight(), 70);
    assert_eq!(c.endpoints[1].address(), "b.ns.svc.cluster.local:80");
    assert_eq!(c.endpoints[1].weight(), 30);
}

#[test]
fn lb_entry_omits_zero_weight_backends() {
    let resource = Resource {
        key: "ns/gw/http".into(),
        listener: Some(GwListener {
            key: "ns/gw/http".into(),
            hostname: "".into(),
            port: 80,
            protocol: 1,
            tls: None,
            allowed_routes: vec![],
        }),
        routes: vec![GwRoute {
            key: "ns/route/rule".into(),
            listener_key: "ns/gw/http".into(),
            hostnames: vec![],
            matches: vec![],
            request_redirect: None,
            request_header_modifier: None,
            invalid_backend_ref: false,
            backends: vec![
                Backend {
                    host: "a.ns.svc.cluster.local".into(),
                    port: 80,
                    dial_port: 0,
                    weight: 70,
                    inference_pool: None,
                    tls: None,
                },
                Backend {
                    host: "b.ns.svc.cluster.local".into(),
                    port: 80,
                    dial_port: 0,
                    weight: 30,
                    inference_pool: None,
                    tls: None,
                },
                Backend {
                    host: "c.ns.svc.cluster.local".into(),
                    port: 80,
                    dial_port: 0,
                    weight: 0,
                    inference_pool: None,
                    tls: None,
                },
            ],
            ..Default::default()
        }],
    };

    let entry = build_lb_entry(&resource.routes);
    let clusters = lb_clusters(&entry);

    assert_eq!(clusters.len(), 1);
    assert_eq!(clusters[0].endpoints.len(), 2);
}

#[test]
fn lb_entry_uses_dial_port_in_addresses() {
    let resource = Resource {
        key: "ns/gw/http".into(),
        listener: Some(GwListener {
            key: "ns/gw/http".into(),
            hostname: "".into(),
            port: 80,
            protocol: 1,
            tls: None,
            allowed_routes: vec![],
        }),
        routes: vec![GwRoute {
            key: "ns/route/rule".into(),
            listener_key: "ns/gw/http".into(),
            hostnames: vec![],
            matches: vec![],
            request_redirect: None,
            request_header_modifier: None,
            invalid_backend_ref: false,
            backends: vec![Backend {
                host: "svc.ns.svc.cluster.local".into(),
                port: 8080,
                dial_port: 3000,
                weight: 1,
                inference_pool: None,
                tls: None,
            }],
            ..Default::default()
        }],
    };

    let entry = build_lb_entry(&resource.routes);
    let clusters = lb_clusters(&entry);

    assert_eq!(clusters.len(), 1);
    assert_eq!(
        clusters[0].endpoints[0].address(),
        "svc.ns.svc.cluster.local:3000"
    );
}

#[test]
fn lb_entry_qualifies_short_same_namespace_service_host() {
    let resource = Resource {
        key: "ns/gw/http".into(),
        listener: Some(GwListener {
            key: "ns/gw/http".into(),
            hostname: "".into(),
            port: 80,
            protocol: 1,
            tls: None,
            allowed_routes: vec![],
        }),
        routes: vec![GwRoute {
            key: "gateway-conformance-infra/service-types/0".into(),
            listener_key: "ns/gw/http".into(),
            hostnames: vec![],
            matches: vec![],
            request_redirect: None,
            request_header_modifier: None,
            invalid_backend_ref: false,
            backends: vec![Backend {
                host: "headless".into(),
                port: 8080,
                dial_port: 3000,
                weight: 1,
                inference_pool: None,
                tls: None,
            }],
            ..Default::default()
        }],
    };

    let entry = build_lb_entry(&resource.routes);
    let clusters = lb_clusters(&entry);

    assert_eq!(clusters.len(), 1);
    assert_eq!(
        clusters[0].endpoints[0].address(),
        "headless.gateway-conformance-infra.svc.cluster.local:3000"
    );
}

#[test]
fn hostname_overlap_wildcard_and_exact() {
    assert!(intersect_listener_route_hostname("*.wildcard.io", "foo.wildcard.io").is_some());
    assert!(intersect_listener_route_hostname("*.wildcard.io", "foo.bar.wildcard.io").is_some());
    assert!(!intersect_listener_route_hostname("*.wildcard.io", "wildcard.io").is_some());
    assert!(intersect_listener_route_hostname("very.specific.com", "very.specific.com").is_some());
}

#[test]
fn hostname_intersection_narrows_wildcard_route_to_exact_listener() {
    assert_eq!(
        intersect_listener_route_hostname("very.specific.com", "*.specific.com"),
        Some("very.specific.com".into())
    );
    assert_eq!(intersect_listener_route_hostname("very.specific.com", "foo.specific.com"), None);
}

#[test]
fn hostname_intersection_multi_prefix_under_listener_wildcard() {
    assert_eq!(
        intersect_listener_route_hostname("*.bar.com", "multiple.prefixes.bar.com"),
        Some("multiple.prefixes.bar.com".into())
    );
    assert_eq!(
        intersect_listener_route_hostname("*.foo.com", "multiple.prefixes.foo.com"),
        Some("multiple.prefixes.foo.com".into())
    );
}

#[test]
fn merge_two_http_listeners_same_port() {
    let backend = Backend {
        host: "svc.ns.svc.cluster.local".into(),
        port: 80,
        dial_port: 0,
        weight: 1,
        inference_pool: None,
        tls: None,
    };

    let r1 = Resource {
        key: "ns/gw/l1".into(),
        listener: Some(GwListener {
            key: "ns/gw/l1".into(),
            hostname: "a.example.com".into(),
            port: 8080,
            protocol: Protocol::Http.number(),
            tls: None,
            allowed_routes: vec![],
        }),
        routes: vec![GwRoute {
            key: "ns/route/1".into(),
            listener_key: "ns/gw/l1".into(),
            hostnames: vec![],
            matches: vec![],
            request_redirect: None,
            request_header_modifier: None,
            invalid_backend_ref: false,
            backends: vec![copy(&backend)],
            ..Default::default()
        }],
    };

    let r2 = Resource {
        key: "ns/gw/l2".into(),
        listener: Some(GwListener {
            key: "ns/gw/l2".into(),
            hostname: "b.example.com".into(),
            port: 8080,
            protocol: Protocol::Http.number(),
            tls: None,
            allowed_routes: vec![],
        }),
        routes: vec![GwRoute {
            key: "ns/route/2".into(),
            listener_key: "ns/gw/l2".into(),
            hostnames: vec![],
            matches: vec![],
            request_redirect: None,
            request_header_modifier: None,
            invalid_backend_ref: false,
            backends: vec![backend],
            ..Default::default()
        }],
    };

    let cfg = translate(&vec![r1, r2]);
    assert_eq!(cfg.listeners.len(), 1);
    assert!(cfg.listeners[0].name.starts_with("gwxds-merge-8080-"));
    assert_eq!(cfg.filter_chains.len(), 1);

    let router = cfg.filter_chains[0]
        .filters
        .iter()
        .find(|f| f.filter_type() == "router")
        .expect("router filter");
    let n = routes_of(router).len();
    assert_eq!(n, 2, "expected one route row per merged listener hostname");
}

#[test]
fn invalid_backend_ref_emits_router_row_without_cluster() {
    let resource = Resource {
        key: "ns/gw/http".into(),
        listener: Some(GwListener {
            key: "ns/gw/http".into(),
            hostname: "".into(),
            port: 80,
            protocol: Protocol::Http.number(),
            tls: None,
            allowed_routes: vec![],
        }),
        routes: vec![GwRoute {
            key: "ns/route/bad".into(),
            listener_key: "ns/gw/http".into(),
            hostnames: vec![],
            matches: vec![],
            request_redirect: None,
            request_header_modifier: None,
            invalid_backend_ref: true,
            backends: vec![],
            ..Default::default()
        }],
    };

    let cfg = translate(&vec![resource]);
    assert!(cfg.clusters.is_empty(), "invalid backend route should not create clusters");

    let router = cfg.filter_chains[0]
        .filters
        .iter()
        .find(|f| f.filter_type() == "router")
        .expect("router filter");
    let row = &routes_of(router)[0];
    assert!(row.invalid_backend_ref);
}

#[test]
fn partial_invalid_backend_ref_produces_valid_config() {
    let resource = Resource {
        key: "ns/gw/http".into(),
        listener: Some(GwListener {
            key: "ns/gw/http".into(),
            hostname: "".into(),
            port: 80,
            protocol: Protocol::Http.number(),
            tls: None,
            allowed_routes: vec![],
        }),
        routes: vec![
            GwRoute {
                key: "ns/route/denied".into(),
                listener_key: "ns/gw/http".into(),
                hostnames: vec![],
                matches: vec![RouteMatch {
                    path_prefix: "/v2".into(),
                    ..Default::default()
                }],
                invalid_backend_ref: true,
                backends: vec![],
                ..Default::default()
            },
            GwRoute {
                key: "ns/route/allowed".into(),
                listener_key: "ns/gw/http".into(),
                hostnames: vec![],
                matches: vec![RouteMatch {
                    path_prefix: "/".into(),
                    ..Default::default()
                }],
                invalid_backend_ref: false,
                backends: vec![Backend {
                    host: "app-v1.other.svc.cluster.local".into(),
                    port: 8080,
                    dial_port: 0,
                    weight: 1,
                    inference_pool: None,
                    tls: None,
                }],
                ..Default::default()
            },
        ],
    };

    let cfg = translate(&vec![resource]);

    assert_eq!(cfg.clusters.len(), 1, "only the valid backend should produce a cluster");
    assert_eq!(cfg.clusters[0].name, "app-v1.other.svc.cluster.local:8080");

    let router = cfg.filter_chains[0]
        .filters
        .iter()
        .find(|f| f.filter_type() == "router")
        .expect("router filter");
    let routes = routes_of(router);
    assert_eq!(routes.len(), 2, "both routes should appear in router config");

    let denied_route = routes
        .iter()
        .find(|r| r.path_prefix == "/v2")
        .expect("denied /v2 route");
    assert_eq!(denied_route.cluster, "__invalid_backend__");
    assert!(denied_route.invalid_backend_ref);

    let lb = cfg.filter_chains[0]
        .filters
        .iter()
        .find(|f| f.filter_type() == "load_balancer")
        .expect("load_balancer filter");
    let valid = lb_clusters(lb);
    assert_eq!(valid.len(), 1, "LB should have only the valid cluster");
    let lb_cluster_names: Vec<&str> = valid.iter().map(|c| c.name.as_str()).collect();
    assert!(
        !lb_cluster_names.contains(&"__invalid_backend__"),
        "__invalid_backend__ should NOT appear in LB clusters"
    );
}

#[test]
fn grpc_route_service_method_becomes_exact_path() {
    let resource = Resource {
        key: "ns/gw/http".into(),
        listener: Some(GwListener {
            key: "ns/gw/http".into(),
            hostname: "".into(),
            port: 80,
            protocol: Protocol::Http.number(),
            tls: None,
            allowed_routes: vec![],
        }),
        routes: vec![GwRoute {
            key: "ns/grpc-route/0".into(),
            listener_key: "ns/gw/http".into(),
            hostnames: vec![],
            grpc_route: true,
            matches: vec![RouteMatch {
                grpc_service: "helloworld.Greeter".into(),
                grpc_method: "SayHello".into(),
                ..Default::default()
            }],
            backends: vec![Backend {
                host: "grpc-svc.ns.svc.cluster.local".into(),
                port: 50051,
                dial_port: 0,
                weight: 1,
                inference_pool: None,
                tls: None,
            }],
            ..Default::default()
        }],
    };

    let cfg = translate(&vec![resource]);
    let router = cfg.filter_chains[0]
        .filters
        .iter()
        .find(|f| f.filter_type() == "router")
        .expect("router filter");
    let routes = routes_of(router);
    assert_eq!(routes.len(), 1);
    let row = &routes[0];
    assert_eq!(row.path_exact.as_deref(), Some("/helloworld.Greeter/SayHello"));
    assert_eq!(row.methods.as_deref(), Some(&["POST".to_owned()][..]));
    assert!(row.grpc_route);
}

#[test]
fn grpc_route_service_only_becomes_prefix_path() {
    let resource = Resource {
        key: "ns/gw/http".into(),
        listener: Some(GwListener {
            key: "ns/gw/http".into(),
            hostname: "".into(),
            port: 80,
            protocol: Protocol::Http.number(),
            tls: None,
            allowed_routes: vec![],
        }),
        routes: vec![GwRoute {
            key: "ns/grpc-route/0".into(),
            listener_key: "ns/gw/http".into(),
            hostnames: vec![],
            grpc_route: true,
            matches: vec![RouteMatch {
                grpc_service: "helloworld.Greeter".into(),
                ..Default::default()
            }],
            backends: vec![Backend {
                host: "grpc-svc.ns.svc.cluster.local".into(),
                port: 50051,
                dial_port: 0,
                weight: 1,
                inference_pool: None,
                tls: None,
            }],
            ..Default::default()
        }],
    };

    let cfg = translate(&vec![resource]);
    let router = cfg.filter_chains[0]
        .filters
        .iter()
        .find(|f| f.filter_type() == "router")
        .expect("router filter");
    let routes = routes_of(router);
    let row = &routes[0];
    assert_eq!(row.path_prefix, "/helloworld.Greeter");
    assert!(row.path_exact.is_none());
    assert_eq!(row.methods.as_deref(), Some(&["POST".to_owned()][..]));
    assert!(row.grpc_route);
}

#[test]
fn grpc_route_wildcard_becomes_root_prefix() {
    let resource = Resource {
        key: "ns/gw/http".into(),
        listener: Some(GwListener {
            key: "ns/gw/http".into(),
            hostname: "".into(),
            port: 80,
            protocol: Protocol::Http.number(),
            tls: None,
            allowed_routes: vec![],
        }),
        routes: vec![GwRoute {
            key: "ns/grpc-route/0".into(),
            listener_key: "ns/gw/http".into(),
            hostnames: vec![],
            grpc_route: true,
            matches: vec![],
            backends: vec![Backend {
                host: "grpc-svc.ns.svc.cluster.local".into(),
                port: 50051,
                dial_port: 0,
                weight: 1,
                inference_pool: None,
                tls: None,
            }],
            ..Default::default()
        }],
    };

    let cfg = translate(&vec![resource]);
    let router = cfg.filter_chains[0]
        .filters
        .iter()
        .find(|f| f.filter_type() == "router")
        .expect("router filter");
    let routes = routes_of(router);
    let row = &routes[0];
    assert_eq!(row.path_prefix, "/");
    assert!(row.path_exact.is_none());
    assert_eq!(row.methods.as_deref(), Some(&["POST".to_owned()][..]));
    assert!(row.grpc_route);
}

#[test]
fn tls_passthrough_produces_sni_router_filter() {
    let resource = Resource {
        key: "ns/gw/tls".into(),
        listener: Some(GwListener {
            key: "ns/gw/tls".into(),
            hostname: "*.example.com".into(),
            port: 443,
            protocol: Protocol::Tls.number(),
            tls: None,
            allowed_routes: vec!["gateway.networking.k8s.io/TLSRoute".into()],
        }),
        routes: vec![GwRoute {
            key: "ns/tls-route/0".into(),
            listener_key: "ns/gw/tls".into(),
            hostnames: vec!["svc.example.com".into()],
            matches: vec![],
            request_redirect: None,
            request_header_modifier: None,
            invalid_backend_ref: false,
            tls_route: true,
            backends: vec![Backend {
                host: "svc.ns.svc.cluster.local".into(),
                port: 8443,
                dial_port: 0,
                weight: 1,
                inference_pool: None,
                tls: None,
            }],
            ..Default::default()
        }],
    };

    let cfg = translate(&vec![resource]);
    assert_eq!(cfg.listeners.len(), 1);
    assert_eq!(cfg.listeners[0].protocol, ProtocolKind::Tcp);
    assert_eq!(cfg.filter_chains.len(), 1);

    let sni_filter = cfg.filter_chains[0]
        .filters
        .iter()
        .find(|f| f.filter_type() == "sni_router")
        .expect("sni_router filter should be present for TLS passthrough");

    let routes = &sni_of(sni_filter).routes;
    assert_eq!(routes.len(), 1);

    let entry = &routes[0];
    let names = &entry.server_names;
    assert_eq!(names.len(), 1);
    assert_eq!(names[0], "svc.example.com");

    let upstream = &entry.upstream;
    assert_eq!(upstream, "svc.ns.svc.cluster.local:8443");

    assert!(
        cfg.filter_chains[0].filters.iter().all(|f| f.filter_type() != "router"),
        "TLS passthrough should not have an HTTP router filter"
    );
}

#[test]
fn tls_passthrough_multiple_routes_merged() {
    let backend1 = Backend {
        host: "svc1.ns.svc.cluster.local".into(),
        port: 8443,
        dial_port: 0,
        weight: 1,
        inference_pool: None,
        tls: None,
    };
    let backend2 = Backend {
        host: "svc2.ns.svc.cluster.local".into(),
        port: 9443,
        dial_port: 0,
        weight: 1,
        inference_pool: None,
        tls: None,
    };

    let r1 = Resource {
        key: "ns/gw/tls-1".into(),
        listener: Some(GwListener {
            key: "ns/gw/tls-1".into(),
            hostname: "*.example.com".into(),
            port: 443,
            protocol: Protocol::Tls.number(),
            tls: None,
            allowed_routes: vec![],
        }),
        routes: vec![GwRoute {
            key: "ns/tls-route-a/0".into(),
            listener_key: "ns/gw/tls-1".into(),
            hostnames: vec!["a.example.com".into()],
            tls_route: true,
            backends: vec![backend1],
            ..Default::default()
        }],
    };

    let r2 = Resource {
        key: "ns/gw/tls-2".into(),
        listener: Some(GwListener {
            key: "ns/gw/tls-2".into(),
            hostname: "*.example.com".into(),
            port: 443,
            protocol: Protocol::Tls.number(),
            tls: None,
            allowed_routes: vec![],
        }),
        routes: vec![GwRoute {
            key: "ns/tls-route-b/0".into(),
            listener_key: "ns/gw/tls-2".into(),
            hostnames: vec!["b.example.com".into()],
            tls_route: true,
            backends: vec![backend2],
            ..Default::default()
        }],
    };

    let cfg = translate(&vec![r1, r2]);
    assert_eq!(cfg.listeners.len(), 1, "TLS passthrough listeners on same port should merge");
    assert_eq!(cfg.filter_chains.len(), 1);

    let sni_filter = cfg.filter_chains[0]
        .filters
        .iter()
        .find(|f| f.filter_type() == "sni_router")
        .expect("sni_router filter");
    let routes = &sni_of(sni_filter).routes;
    assert_eq!(routes.len(), 2);
}

#[test]
fn tls_passthrough_empty_hostname_uses_route_hostnames() {
    let resource = Resource {
        key: "ns/gw/tls".into(),
        listener: Some(GwListener {
            key: "ns/gw/tls".into(),
            hostname: "".into(),
            port: 443,
            protocol: Protocol::Tls.number(),
            tls: None,
            allowed_routes: vec![],
        }),
        routes: vec![GwRoute {
            key: "ns/tls-route/0".into(),
            listener_key: "ns/gw/tls".into(),
            hostnames: vec!["foo.test.com".into(), "bar.test.com".into()],
            tls_route: true,
            backends: vec![Backend {
                host: "backend.ns.svc.cluster.local".into(),
                port: 443,
                dial_port: 0,
                weight: 1,
                inference_pool: None,
                tls: None,
            }],
            ..Default::default()
        }],
    };

    let cfg = translate(&vec![resource]);
    let sni_filter = cfg.filter_chains[0]
        .filters
        .iter()
        .find(|f| f.filter_type() == "sni_router")
        .expect("sni_router filter");
    let routes = &sni_of(sni_filter).routes;
    assert_eq!(routes.len(), 1);
    let names = &routes[0].server_names;
    assert_eq!(names.len(), 2);
    assert_eq!(names[0], "foo.test.com");
    assert_eq!(names[1], "bar.test.com");
}

#[test]
fn tls_passthrough_no_hostnames_becomes_default_upstream() {
    let resource = Resource {
        key: "ns/gw/tls".into(),
        listener: Some(GwListener {
            key: "ns/gw/tls".into(),
            hostname: "".into(),
            port: 443,
            protocol: Protocol::Tls.number(),
            tls: None,
            allowed_routes: vec![],
        }),
        routes: vec![GwRoute {
            key: "ns/tls-route/0".into(),
            listener_key: "ns/gw/tls".into(),
            hostnames: vec![],
            tls_route: true,
            backends: vec![Backend {
                host: "backend.ns.svc.cluster.local".into(),
                port: 443,
                dial_port: 0,
                weight: 1,
                inference_pool: None,
                tls: None,
            }],
            ..Default::default()
        }],
    };

    let cfg = translate(&vec![resource]);
    let sni_filter = cfg.filter_chains[0]
        .filters
        .iter()
        .find(|f| f.filter_type() == "sni_router")
        .expect("sni_router filter");

    assert!(
        sni_of(sni_filter).routes.is_empty(),
        "no explicit routes when both listener and route have no hostname"
    );

    let default = sni_of(sni_filter).default_upstream.as_deref().expect("default_upstream should be set");
    assert_eq!(default, "backend.ns.svc.cluster.local:443");
}

// More of the translation

fn backend(host: &str, port: u32) -> Backend {
    Backend { host: host.into(), port, dial_port: 0, weight: 1, inference_pool: None, tls: None }
}

fn listener(key: &str, port: u32, protocol: Protocol) -> GwListener {
    GwListener {
        key: key.into(),
        hostname: "".into(),
        port,
        protocol: protocol.number(),
        tls: None,
        allowed_routes: vec![],
    }
}

#[test]
fn service_hosts_are_qualified() {
    assert_eq!(qualify_k8s_service_host("svc", "ns"), "svc.ns.svc.cluster.local");
    assert_eq!(qualify_k8s_service_host("svc.other", "ns"), "svc.other");
    assert_eq!(qualify_k8s_service_host("a.b.c.test", "ns"), "a.b.c.test");
    assert_eq!(qualify_k8s_service_host("10.0.0.1", "ns"), "10.0.0.1");
}

#[test]
fn protocol_numbers_round_trip() {
    for p in [Protocol::Unknown, Protocol::Http, Protocol::Https, Protocol::Tcp, Protocol::Tls, Protocol::Udp] {
        assert_eq!(Protocol::from_number(p.number()), p);
    }
    assert_eq!(Protocol::from_number(77), Protocol::Unknown);
}

#[test]
fn resources_without_listener_are_ignored() {
    let cfg = translate(&vec![Resource { key: "k".into(), listener: None, routes: vec![] }]);
    assert!(cfg.listeners.is_empty() && cfg.filter_chains.is_empty() && cfg.clusters.is_empty());
}

#[test]
fn listeners_of_different_ports_stay_apart() {
    let cfg = translate(&vec![
        Resource { key: "a".into(), listener: Some(listener("a", 80, Protocol::Http)), routes: vec![] },
        Resource { key: "b".into(), listener: Some(listener("b", 81, Protocol::Http)), routes: vec![] },
    ]);
    assert_eq!(cfg.listeners.len(), 2);
    assert_eq!(cfg.listeners[0].address, "0.0.0.0:80");
    assert_eq!(cfg.listeners[0].protocol, ProtocolKind::Http);
    assert_eq!(cfg.listeners[0].filter_chains, vec![cfg.filter_chains[0].name.clone()]);
}

#[test]
fn clusters_are_listed_once() {
    let route = |key: &str| GwRoute {
        key: key.into(),
        backends: vec![backend("svc.ns.svc.cluster.local", 80)],
        ..Default::default()
    };
    let cfg = translate(&vec![Resource {
        key: "a".into(),
        listener: Some(listener("a", 80, Protocol::Http)),
        routes: vec![route("ns/r/1"), route("ns/r/2")],
    }]);
    assert_eq!(cfg.clusters.len(), 1);
    assert_eq!(cfg.clusters[0].name, "svc.ns.svc.cluster.local:80");
}

#[test]
fn redirects_and_header_changes_reach_the_router() {
    let cfg = translate(&vec![Resource {
        key: "a".into(),
        listener: Some(listener("a", 80, Protocol::Http)),
        routes: vec![GwRoute {
            key: "ns/r/0".into(),
            request_redirect: Some(RequestRedirect {
                scheme: "https".into(),
                hostname: "new.test".into(),
                port: 0,
                status_code: 301,
            }),
            request_header_modifier: Some(RequestHeaderModifier {
                set: vec![HeaderNameValue { name: "x-a".into(), value: "1".into() }],
                add: vec![],
                remove: vec![],
            }),
            ..Default::default()
        }],
    }]);
    let row = &routes_of(&cfg.filter_chains[0].filters[0])[0];
    let redirect = row.redirect.as_ref().unwrap();
    assert_eq!(redirect.status, 301);
    assert!(redirect.location.starts_with("https://new.test"));
    assert_eq!(row.request_header_modifier.as_ref().unwrap().set[0].name, "x-a");
}

#[test]
fn listener_certificates_are_taken_over() {
    let mut https = listener("a", 443, Protocol::Https);
    https.tls = Some(TlsConfig {
        cert_pem: "CERT".into(),
        key_pem: "KEY".into(),
        ca_pem: "".into(),
        min_version: "".into(),
    });
    let cfg = translate(&vec![Resource { key: "a".into(), listener: Some(https), routes: vec![] }]);
    let pair = cfg.listeners[0].tls.as_ref().unwrap();
    assert_eq!((pair.cert_pem.as_str(), pair.key_pem.as_str()), ("CERT", "KEY"));
}

#[test]
fn backend_tls_reaches_the_cluster() {
    let mut secured = backend("svc.ns.svc.cluster.local", 443);
    secured.tls = Some(BackendTls {
        invalid: false,
        ca_cert: "CA".into(),
        client_cert: "".into(),
        client_key: "".into(),
        hostname: "svc.test".into(),
    });
    let cfg = translate(&vec![Resource {
        key: "a".into(),
        listener: Some(listener("a", 80, Protocol::Http)),
        routes: vec![GwRoute { key: "ns/r/0".into(), backends: vec![secured], ..Default::default() }],
    }]);
    let tls = cfg.clusters[0].tls.as_ref().unwrap();
    assert_eq!(tls.sni.as_deref(), Some("svc.test"));
    assert_eq!(tls.ca.as_deref(), Some("CA"));
    assert!(tls.verify);
}

#[test]
fn hostnames_of_listener_and_route_meet() {
    let names = |hostname: &str, route: &[&str]| {
        let mut at = listener("a", 80, Protocol::Http);
        at.hostname = hostname.to_owned();
        let route = GwRoute { hostnames: route.iter().map(|s| (*s).to_owned()).collect(), ..Default::default() };
        effective_route_hostnames(&at, &route)
    };
    assert_eq!(names("a.test", &["b.test"]), None);
    assert_eq!(names("*.test", &["b.test"]), Some(vec![Some("b.test".to_owned())]));
    assert_eq!(names("", &[]), Some(vec![None]));
}

#[test]
fn equal_listeners_merge_under_equal_names() {
    let resources = || {
        vec![
            Resource { key: "b".into(), listener: Some(listener("b", 80, Protocol::Http)), routes: vec![] },
            Resource { key: "a".into(), listener: Some(listener("a", 80, Protocol::Http)), routes: vec![] },
        ]
    };
    let first = translate(&resources());
    let mut turned = resources();
    turned.reverse();
    let second = translate(&turned);
    assert_eq!(first.listeners.len(), 1);
    assert_eq!(first.listeners[0].name, second.listeners[0].name);
    assert_eq!(backend_cluster_name(&backend("svc", 80), "ns/r/0"), "svc.ns.svc.cluster.local:80");
}

#[test]
fn every_routed_cluster_is_served() {
    let route = |key: &str, backends: Vec<Backend>| GwRoute {
        key: key.into(),
        backends,
        ..Default::default()
    };
    let cfg = translate(&vec![
        Resource {
            key: "a".into(),
            listener: Some(listener("a", 80, Protocol::Http)),
            routes: vec![
                route("ns/one/0", vec![backend("svc", 80)]),
                route("ns/two/0", vec![backend("svc", 80), backend("other", 81)]),
            ],
        },
        Resource {
            key: "b".into(),
            listener: Some(listener("b", 80, Protocol::Http)),
            routes: vec![route("ns/three/0", vec![backend("svc", 80)])],
        },
    ]);
    let rows = routes_of(&cfg.filter_chains[0].filters[0]);
    let balanced = lb_clusters(&cfg.filter_chains[0].filters[1]);
    assert_eq!(rows.len(), 3);
    for row in rows {
        assert!(balanced.iter().any(|c| c.name == row.cluster));
        assert!(cfg.clusters.iter().any(|c| c.name == row.cluster));
    }
}

fn passthrough(key: &str, hostnames: &[&str], host: &str, port: u32) -> GwRoute {
    GwRoute {
        key: key.into(),
        listener_key: "ns/gw/tls".into(),
        hostnames: hostnames.iter().map(|h| (*h).to_owned()).collect(),
        tls_route: true,
        backends: vec![Backend {
            host: host.into(),
            port,
            dial_port: 0,
            weight: 1,
            inference_pool: None,
            tls: None,
        }],
        ..Default::default()
    }
}

fn listening(key: &str, hostname: &str, port: u32, protocol: Protocol, routes: Vec<GwRoute>) -> Resource {
    Resource {
        key: key.into(),
        listener: Some(GwListener {
            key: key.into(),
            hostname: hostname.into(),
            port,
            protocol: protocol.number(),
            tls: None,
            allowed_routes: vec![],
        }),
        routes,
    }
}

#[test]
fn passthrough_route_whose_names_are_taken_adds_nothing() {
    let cfg = translate(&vec![listening(
        "ns/gw/tls",
        "",
        443,
        Protocol::Tls,
        vec![passthrough("ns/a", &["x.test"], "a.ns", 1), passthrough("ns/b", &["x.test"], "b.ns", 2)],
    )]);
    let sni = sni_of(&cfg.filter_chains[0].filters[0]);
    assert_eq!(sni.routes.len(), 1);
    assert_eq!(sni.routes[0].server_names, vec!["x.test".to_owned()]);
    assert_eq!(sni.routes[0].upstream, "a.ns:1");
    assert!(sni.default_upstream.is_none());
}

#[test]
fn endpoints_of_weight_one_are_plain() {
    let backend = |host: &str, weight: u32| Backend {
        host: host.into(),
        port: 80,
        dial_port: 0,
        weight,
        inference_pool: None,
        tls: None,
    };
    let routes = vec![GwRoute {
        key: "ns/route/rule".into(),
        listener_key: "ns/gw/http".into(),
        backends: vec![backend("a.ns", 1), backend("b.ns", 200)],
        ..Default::default()
    }];
    let entry = build_lb_entry(&routes);
    let endpoints = &lb_clusters(&entry)[0].endpoints;
    let plain = endpoints.iter().filter(|e| matches!(e, Endpoint::Simple(_))).count();
    let weighted = endpoints
        .iter()
        .filter(|e| matches!(e, Endpoint::Weighted { weight, .. } if *weight == 200))
        .count();
    assert_eq!(plain + weighted, endpoints.len());
    assert!(plain > 0);
}

#[test]
fn order_of_resources_does_not_matter() {
    let resource = |key: &str, hostname: &str, port: u32| {
        listening(
            key,
            hostname,
            port,
            Protocol::Http,
            vec![GwRoute {
                key: format!("{key}/rule"),
                listener_key: key.into(),
                backends: vec![Backend {
                    host: format!("svc-{port}.ns"),
                    port: 80,
                    dial_port: 0,
                    weight: 1,
                    inference_pool: None,
                    tls: None,
                }],
                ..Default::default()
            }],
        )
    };
    let idle = Resource { key: "ns/idle".into(), listener: None, routes: vec![] };
    let a = translate(&vec![
        resource("ns/gw/a", "a.test", 80),
        resource("ns/gw/b", "b.test", 80),
        resource("ns/gw/c", "", 8080),
    ]);
    let b = translate(&vec![
        resource("ns/gw/c", "", 8080),
        idle,
        resource("ns/gw/b", "b.test", 80),
        resource("ns/gw/a", "a.test", 80),
    ]);
    let names = |cfg: &praxis::gwxds::types::Config| -> Vec<String> {
        cfg.listeners
            .iter()
            .map(|l| l.name.clone())
            .chain(cfg.filter_chains.iter().map(|c| c.name.clone()))
            .chain(cfg.clusters.iter().map(|c| c.name.clone()))
            .collect()
    };
    assert_eq!(names(&a), names(&b));
    assert_eq!(a.listeners.len(), 2);
    let mut clusters: Vec<String> = a.clusters.iter().map(|c| c.name.clone()).collect();
    let count = clusters.len();
    clusters.sort();
    clusters.dedup();
    assert_eq!(clusters.len(), count);
}

fn with_tls(key: &str, cert: &str, private: &str, ca: &str, version: &str) -> Resource {
    let mut resource = listening(key, "", 443, Protocol::Https, vec![]);
    resource.listener.as_mut().unwrap().tls = Some(TlsConfig {
        cert_pem: cert.into(),
        key_pem: private.into(),
        ca_pem: ca.into(),
        min_version: version.into(),
    });
    resource
}

#[test]
fn listeners_with_different_tls_material_stay_apart() {
    let cfg = translate(&vec![
        with_tls("ns/gw/a", "cert-a", "key-a", "", ""),
        with_tls("ns/gw/b", "cert-b", "key-b", "", ""),
    ]);
    assert_eq!(cfg.listeners.len(), 2);
    assert_eq!(cfg.filter_chains.len(), 2);
    let mut names: Vec<String> = cfg.listeners.iter().map(|l| l.name.clone()).collect();
    names.sort();
    assert_eq!(names, vec!["ns/gw/a".to_owned(), "ns/gw/b".to_owned()]);
    for listener in &cfg.listeners {
        let pair = listener.tls.as_ref().unwrap();
        let suffix = if listener.name == "ns/gw/a" { "a" } else { "b" };
        assert_eq!(pair.cert_pem, format!("cert-{suffix}"));
        assert_eq!(pair.key_pem, format!("key-{suffix}"));
        assert_eq!(listener.address, "0.0.0.0:443");
        assert_eq!(listener.filter_chains, vec![format!("{}-chain", listener.name)]);
    }
}

#[test]
fn every_part_of_the_tls_material_counts() {
    let base = || with_tls("ns/gw/a", "c", "k", "ca", "1.2");
    let count = |other: Resource| translate(&vec![base(), other]).listeners.len();
    assert_eq!(count(with_tls("ns/gw/b", "c", "k", "ca", "1.2")), 1);
    assert_eq!(count(with_tls("ns/gw/b", "x", "k", "ca", "1.2")), 2);
    assert_eq!(count(with_tls("ns/gw/b", "c", "x", "ca", "1.2")), 2);
    assert_eq!(count(with_tls("ns/gw/b", "c", "k", "x", "1.2")), 2);
    assert_eq!(count(with_tls("ns/gw/b", "c", "k", "ca", "1.3")), 2);
    assert_eq!(count(listening("ns/gw/b", "", 443, Protocol::Https, vec![])), 2);
    assert_eq!(count(with_tls("ns/gw/b", "ck", "", "ca", "1.2")), 2);
}
