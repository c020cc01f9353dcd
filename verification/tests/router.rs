//! Routes and the router.

use http::{HeaderMap, HeaderValue};
use praxis::action::FilterAction;
use praxis::path_match::{gateway_path_prefix_matches, gateway_path_prefix_specificity};
use praxis::path_sanitize::normalize_rewritten_path;
use praxis::query::parse_query_pairs;
use praxis::request::{HttpFilterContext, PendingRequestHeaderOp, Request, Uri};
use praxis::route::{HeaderNameValue, RedirectAction, RequestHeaderModifier, Route, RouteCorsPolicy};
use praxis::router::filter::{expand_redirect_location, RouterConfig, RouterFilter};
use praxis::router::matching::{
    path_specificity, route_matches_request, route_matches_with, should_stop_early, strip_port,
    update_best_match, ResolvedRoute,
};
use praxis::text_map::TextMap;

fn make_router(routes: Vec<Route>) -> RouterFilter {
    RouterFilter::new(routes).ok().expect("test routes should be valid")
}

fn text_map(entries: &[(&str, &str)]) -> TextMap {
    let mut map = TextMap::new();
    for (key, value) in entries {
        map.insert((*key).to_owned(), (*value).to_owned());
    }
    map
}

fn request(path: &str) -> Request {
    let (path, query) = match path.split_once('?') {
        Some((path, query)) => (path, Some(query.to_owned())),
        None => (path, None),
    };
    Request {
        method: "GET".to_owned(),
        uri: Uri { scheme: None, authority: None, path: path.to_owned(), query },
        headers: HeaderMap::new(),
    }
}

fn text(value: &serde_yaml::Value) -> String {
    value.as_str().unwrap().to_owned()
}

fn route_of(value: &serde_yaml::Value) -> Route {
    Route {
        path_prefix: value.get("path_prefix").map(text).unwrap_or_default(),
        host: value.get("host").map(text),
        headers: value.get("headers").map(|headers| {
            let mut map = TextMap::new();
            for (key, value) in headers.as_mapping().unwrap() {
                map.insert(text(key), text(value));
            }
            map
        }),
        cluster: value.get("cluster").map(text).unwrap_or_default(),
        ..Default::default()
    }
}

fn config(value: &serde_yaml::Value) -> RouterConfig {
    match value.get("routes") {
        Some(routes) => RouterConfig { routes: routes.as_sequence().unwrap().iter().map(route_of).collect() },
        None => RouterConfig::default(),
    }
}

// Route parsing

#[test]
fn parse_route_without_host() {
    let yaml = r#"
path_prefix: "/api"
cluster: "backend"
"#;
    let route = route_of(&serde_yaml::from_str(yaml).unwrap());
    assert_eq!(route.path_prefix, "/api", "path_prefix mismatch");
    assert_eq!(route.cluster, "backend", "cluster mismatch");
    assert!(route.host.is_none(), "host should be None when omitted");
}

#[test]
fn parse_route_with_headers() {
    let yaml = r#"
path_prefix: "/"
cluster: "backend"
headers:
  x-model: "sonnet-4-5"
  x-version: "v1"
"#;
    let route = route_of(&serde_yaml::from_str(yaml).unwrap());
    let headers = route.headers.unwrap();
    assert_eq!(headers.len(), 2, "should have 2 header constraints");
    assert_eq!(
        headers.get("x-model").unwrap(),
        "sonnet-4-5",
        "x-model header mismatch"
    );
    assert_eq!(headers.get("x-version").unwrap(), "v1", "x-version header mismatch");
}

#[test]
fn parse_route_with_host() {
    let yaml = r#"
path_prefix: "/"
host: "api.example.com"
cluster: "api"
"#;
    let route = route_of(&serde_yaml::from_str(yaml).unwrap());
    assert_eq!(route.host.as_deref(), Some("api.example.com"), "host should be parsed");
}

// Router

#[test]
fn match_root() {
    let router = make_router(vec![Route {
        path_prefix: "/".into(),
        cluster: "default".into(),
        ..Default::default()
    }]);
    let route = router.match_route("/anything", None, &HeaderMap::new(), None, None).unwrap();
    assert_eq!(route.cluster, "default", "root prefix should match any path");
}

#[test]
fn longest_prefix_wins() {
    let router = make_router(vec![
        Route {
            path_prefix: "/".into(),
            cluster: "default".into(),
            ..Default::default()
        },
        Route {
            path_prefix: "/api/".into(),
            cluster: "api".into(),
            ..Default::default()
        },
    ]);

    let route = router.match_route("/api/users", None, &HeaderMap::new(), None, None).unwrap();
    assert_eq!(route.cluster, "api", "longer /api/ prefix should win");

    let route = router.match_route("/static/main.js", None, &HeaderMap::new(), None, None).unwrap();
    assert_eq!(route.cluster, "default", "non-api path should fall back to root");
}

#[test]
fn host_filtering() {
    let router = make_router(vec![
        Route {
            path_prefix: "/".into(),
            host: Some("api.example.com".into()),
            cluster: "api".into(),
            ..Default::default()
        },
        Route {
            path_prefix: "/".into(),
            cluster: "default".into(),
            ..Default::default()
        },
    ]);

    let route = router
        .match_route("/", Some("api.example.com"), &HeaderMap::new(), None, None)
        .unwrap();
    assert_eq!(
        route.cluster, "api",
        "matching host should select host-specific route"
    );

    let route = router
        .match_route("/", Some("other.example.com"), &HeaderMap::new(), None, None)
        .unwrap();
    assert_eq!(
        route.cluster, "default",
        "non-matching host should fall back to default"
    );
}

#[test]
fn host_with_port() {
    let router = make_router(vec![Route {
        path_prefix: "/".into(),
        host: Some("api.example.com".into()),
        cluster: "api".into(),
        ..Default::default()
    }]);

    let route = router
        .match_route("/", Some("api.example.com:8080"), &HeaderMap::new(), None, None)
        .unwrap();
    assert_eq!(
        route.cluster, "api",
        "host with port should match after stripping port"
    );
}

#[test]
fn no_match() {
    let router = make_router(vec![Route {
        path_prefix: "/api/".into(),
        cluster: "api".into(),
        ..Default::default()
    }]);
    assert!(
        router.match_route("/other", None, &HeaderMap::new(), None, None).is_none(),
        "non-matching prefix should return None"
    );
}

#[test]
fn no_match_wrong_host() {
    let router = make_router(vec![Route {
        path_prefix: "/".into(),
        host: Some("api.example.com".into()),
        cluster: "api".into(),
        ..Default::default()
    }]);
    assert!(
        router.match_route("/", Some("other.com"), &HeaderMap::new(), None, None).is_none(),
        "wrong host should return no match"
    );
}

#[test]
fn from_config_parses_routes() {
    let yaml = serde_yaml::from_str::<serde_yaml::Value>(
        r#"
            routes:
              - path_prefix: "/api/"
                cluster: "api"
              - path_prefix: "/"
                cluster: "default"
            "#,
    )
    .unwrap();

    let filter = RouterFilter::from_config(config(&yaml)).ok().unwrap();

    assert_eq!(filter.name(), "router", "filter name should be router");
}

#[test]
fn from_config_empty_routes_key_missing() {
    let yaml = serde_yaml::Value::Mapping(serde_yaml::Mapping::new());

    let filter = RouterFilter::from_config(config(&yaml)).ok().unwrap();

    assert_eq!(filter.name(), "router", "missing routes key should still create router");
}

#[test]
fn on_request_sets_cluster_on_match() {
    let router = make_router(vec![Route {
        path_prefix: "/".into(),
        cluster: "default".into(),
        ..Default::default()
    }]);
    let req = request("/");
    let mut ctx = HttpFilterContext::new(&req);
    let action = router.on_request(&mut ctx);
    assert!(
        matches!(action, FilterAction::Continue),
        "matched route should continue"
    );
    assert_eq!(
        ctx.cluster.as_deref(),
        Some("default"),
        "cluster should be set to matched route"
    );
}

#[test]
fn on_request_rejects_on_no_match() {
    let router = make_router(vec![Route {
        path_prefix: "/api/".into(),
        cluster: "api".into(),
        ..Default::default()
    }]);
    let req = request("/other");
    let mut ctx = HttpFilterContext::new(&req);
    let action = router.on_request(&mut ctx);
    assert!(
        matches!(action, FilterAction::Reject(r) if r.status == 404),
        "unmatched route should reject with 404"
    );
    assert!(ctx.cluster.is_none(), "cluster should remain unset on no match");
}

#[test]
fn on_request_combined_host_and_path() {
    let router = make_router(vec![
        Route {
            path_prefix: "/".into(),
            host: Some("api.example.com".into()),
            cluster: "api".into(),
            ..Default::default()
        },
        Route {
            path_prefix: "/".into(),
            cluster: "default".into(),
            ..Default::default()
        },
    ]);

    let mut req = request("/v1/users");
    req.headers.insert("host", HeaderValue::from_static("api.example.com"));
    let mut ctx = HttpFilterContext::new(&req);
    drop(router.on_request(&mut ctx));
    assert_eq!(
        ctx.cluster.as_deref(),
        Some("api"),
        "host header should select api cluster"
    );

    let req2 = request("/v1/users");
    let mut ctx2 = HttpFilterContext::new(&req2);
    drop(router.on_request(&mut ctx2));
    assert_eq!(
        ctx2.cluster.as_deref(),
        Some("default"),
        "missing host should select default"
    );
}

#[test]
fn route_matches_by_header() {
    let router = make_router(vec![Route {
        path_prefix: "/".into(),
        headers: Some(text_map(&[("x-model", "sonnet-4-5")])),
        cluster: "sonnet".into(),
        ..Default::default()
    }]);

    let mut hdrs = HeaderMap::new();
    hdrs.insert("x-model", HeaderValue::from_static("sonnet-4-5"));
    let route = router.match_route("/chat", None, &hdrs, None, None).unwrap();
    assert_eq!(
        route.cluster, "sonnet",
        "matching header should select header-constrained route"
    );
}

#[test]
fn route_skips_mismatched_header() {
    let router = make_router(vec![Route {
        path_prefix: "/".into(),
        headers: Some(text_map(&[("x-model", "sonnet-4-5")])),
        cluster: "sonnet".into(),
        ..Default::default()
    }]);

    let mut hdrs = HeaderMap::new();
    hdrs.insert("x-model", HeaderValue::from_static("mistral-small-latest"));
    assert!(
        router.match_route("/chat", None, &hdrs, None, None).is_none(),
        "mismatched header value should return no match"
    );
}

#[test]
fn route_with_headers_wins_over_plain() {
    let router = make_router(vec![
        Route {
            path_prefix: "/".into(),
            headers: Some(text_map(&[("x-model", "sonnet-4-5")])),
            cluster: "sonnet".into(),
            ..Default::default()
        },
        Route {
            path_prefix: "/".into(),
            cluster: "default".into(),
            ..Default::default()
        },
    ]);

    let mut hdrs = HeaderMap::new();
    hdrs.insert("x-model", HeaderValue::from_static("sonnet-4-5"));
    let route = router.match_route("/chat", None, &hdrs, None, None).unwrap();
    assert_eq!(
        route.cluster, "sonnet",
        "header-constrained route should win over plain"
    );
}

#[test]
fn route_without_headers_used_as_fallback() {
    let router = make_router(vec![
        Route {
            path_prefix: "/".into(),
            headers: Some(text_map(&[("x-model", "sonnet-4-5")])),
            cluster: "sonnet".into(),
            ..Default::default()
        },
        Route {
            path_prefix: "/".into(),
            cluster: "default".into(),
            ..Default::default()
        },
    ]);

    let mut hdrs = HeaderMap::new();
    hdrs.insert("x-model", HeaderValue::from_static("mistral-small-latest"));
    let route = router.match_route("/chat", None, &hdrs, None, None).unwrap();
    assert_eq!(
        route.cluster, "default",
        "non-matching header should fall back to default"
    );
}

#[test]
fn host_falls_back_to_uri_authority() {
    let router = make_router(vec![
        Route {
            path_prefix: "/".into(),
            host: Some("api.example.com".into()),
            cluster: "api".into(),
            ..Default::default()
        },
        Route {
            path_prefix: "/".into(),
            cluster: "default".into(),
            ..Default::default()
        },
    ]);

    let req = Request {
        method: "GET".to_owned(),
        uri: Uri {
            scheme: Some("http".to_owned()),
            authority: Some("api.example.com".to_owned()),
            path: "/v1/data".to_owned(),
            query: None,
        },
        headers: HeaderMap::new(),
    };
    let mut ctx = HttpFilterContext::new(&req);
    drop(router.on_request(&mut ctx));
    assert_eq!(
        ctx.cluster.as_deref(),
        Some("api"),
        "URI authority should be used when Host header is absent"
    );
}

#[test]
fn multi_value_header_matches_any() {
    let router = make_router(vec![Route {
        path_prefix: "/".into(),
        headers: Some(text_map(&[("x-model", "sonnet-4-5")])),
        cluster: "sonnet".into(),
        ..Default::default()
    }]);

    let mut hdrs = HeaderMap::new();
    hdrs.append("x-model", HeaderValue::from_static("sonnet-3"));
    hdrs.append("x-model", HeaderValue::from_static("sonnet-4-5"));
    let route = router.match_route("/chat", None, &hdrs, None, None).unwrap();
    assert_eq!(
        route.cluster, "sonnet",
        "any matching value in multi-value header should match"
    );
}

#[test]
fn ipv6_host_with_port() {
    let router = make_router(vec![Route {
        path_prefix: "/".into(),
        host: Some("[::1]".into()),
        cluster: "ipv6".into(),
        ..Default::default()
    }]);

    let route = router.match_route("/", Some("[::1]:8080"), &HeaderMap::new(), None, None).unwrap();
    assert_eq!(route.cluster, "ipv6", "bracketed IPv6 with port should match");
}

#[test]
fn ipv6_host_without_port() {
    let router = make_router(vec![Route {
        path_prefix: "/".into(),
        host: Some("[::1]".into()),
        cluster: "ipv6".into(),
        ..Default::default()
    }]);

    let route = router.match_route("/", Some("[::1]"), &HeaderMap::new(), None, None).unwrap();
    assert_eq!(route.cluster, "ipv6", "bracketed IPv6 without port should match");
}

#[test]
fn empty_route_table() {
    let router = make_router(vec![]);
    assert!(
        router.match_route("/anything", None, &HeaderMap::new(), None, None).is_none(),
        "empty route table should match nothing"
    );
}

#[test]
fn route_with_host_and_headers() {
    let router = make_router(vec![
        Route {
            path_prefix: "/".into(),
            host: Some("api.example.com".into()),
            headers: Some(text_map(&[("x-version", "v2")])),
            cluster: "api-v2".into(),
            ..Default::default()
        },
        Route {
            path_prefix: "/".into(),
            cluster: "default".into(),
            ..Default::default()
        },
    ]);

    let mut hdrs = HeaderMap::new();
    hdrs.insert("x-version", HeaderValue::from_static("v2"));
    let route = router.match_route("/", Some("api.example.com"), &hdrs, None, None).unwrap();
    assert_eq!(
        route.cluster, "api-v2",
        "route with both host and headers should match"
    );
}

#[test]
fn same_prefix_same_constraints_first_wins() {
    let router = make_router(vec![
        Route {
            path_prefix: "/".into(),
            headers: Some(text_map(&[("x-a", "1")])),
            cluster: "first".into(),
            ..Default::default()
        },
        Route {
            path_prefix: "/".into(),
            headers: Some(text_map(&[("x-b", "2")])),
            cluster: "second".into(),
            ..Default::default()
        },
    ]);

    let mut hdrs = HeaderMap::new();
    hdrs.insert("x-a", HeaderValue::from_static("1"));
    hdrs.insert("x-b", HeaderValue::from_static("2"));
    let route = router.match_route("/", None, &hdrs, None, None).unwrap();
    assert_eq!(
        route.cluster, "first",
        "equal-constraint routes should prefer first match"
    );
}

#[test]
fn empty_headers_map_matches_everything() {
    let router = make_router(vec![Route {
        path_prefix: "/".into(),
        headers: Some(text_map(&[])),
        cluster: "vacuous".into(),
        ..Default::default()
    }]);

    let route = router.match_route("/test", None, &HeaderMap::new(), None, None).unwrap();
    assert_eq!(route.cluster, "vacuous", "empty headers map should match everything");
}

#[test]
fn on_request_strips_port_from_host_header() {
    let router = make_router(vec![Route {
        path_prefix: "/".into(),
        host: Some("example.com".into()),
        cluster: "example".into(),
        ..Default::default()
    }]);

    let mut req = request("/");
    req.headers.insert("host", HeaderValue::from_static("example.com:9090"));
    let mut ctx = HttpFilterContext::new(&req);
    let action = router.on_request(&mut ctx);
    assert!(
        matches!(action, FilterAction::Continue),
        "host with port should still match route"
    );
    assert_eq!(
        ctx.cluster.as_deref(),
        Some("example"),
        "port should be stripped from Host header for matching"
    );
}

#[test]
fn route_matches_request_path_only_hit() {
    let route = Route {
        path_prefix: "/api/".into(),
        cluster: "api".into(),
        ..Default::default()
    };
    let resolved = ResolvedRoute {
        route,
        wildcard_suffix: None,
    };
    assert!(
        route_matches_request(&resolved, "/api/users", None, &HeaderMap::new(), None, None),
        "path-only route should match when prefix matches"
    );
}

#[test]
fn route_matches_request_path_miss() {
    let route = Route {
        path_prefix: "/api/".into(),
        cluster: "api".into(),
        ..Default::default()
    };
    let resolved = ResolvedRoute {
        route,
        wildcard_suffix: None,
    };
    assert!(
        !route_matches_request(&resolved, "/other", None, &HeaderMap::new(), None, None),
        "path-only route should not match when prefix differs"
    );
}

#[test]
fn route_matches_request_host_hit() {
    let route = Route {
        path_prefix: "/".into(),
        host: Some("example.com".into()),
        cluster: "ex".into(),
        ..Default::default()
    };
    let resolved = ResolvedRoute {
        route,
        wildcard_suffix: None,
    };
    assert!(
        route_matches_request(&resolved, "/", Some("example.com"), &HeaderMap::new(), None, None),
        "host-constrained route should match when host is equal"
    );
}

#[test]
fn route_matches_request_host_miss() {
    let route = Route {
        path_prefix: "/".into(),
        host: Some("example.com".into()),
        cluster: "ex".into(),
        ..Default::default()
    };
    let resolved = ResolvedRoute {
        route,
        wildcard_suffix: None,
    };
    assert!(
        !route_matches_request(&resolved, "/", Some("other.com"), &HeaderMap::new(), None, None),
        "host-constrained route should not match when host differs"
    );
}

#[test]
fn route_matches_request_host_miss_when_no_host() {
    let route = Route {
        path_prefix: "/".into(),
        host: Some("example.com".into()),
        cluster: "ex".into(),
        ..Default::default()
    };
    let resolved = ResolvedRoute {
        route,
        wildcard_suffix: None,
    };
    assert!(
        !route_matches_request(&resolved, "/", None, &HeaderMap::new(), None, None),
        "host-constrained route should not match when no host is provided"
    );
}

#[test]
fn route_matches_request_header_hit() {
    let route = Route {
        path_prefix: "/".into(),
        headers: Some(text_map(&[("x-key", "val")])),
        cluster: "h".into(),
        ..Default::default()
    };
    let resolved = ResolvedRoute {
        route,
        wildcard_suffix: None,
    };
    let mut hdrs = HeaderMap::new();
    hdrs.insert("x-key", HeaderValue::from_static("val"));
    assert!(
        route_matches_request(&resolved, "/", None, &hdrs, None, None),
        "header-constrained route should match when header is present"
    );
}

#[test]
fn route_matches_request_header_miss() {
    let route = Route {
        path_prefix: "/".into(),
        headers: Some(text_map(&[("x-key", "val")])),
        cluster: "h".into(),
        ..Default::default()
    };
    let resolved = ResolvedRoute {
        route,
        wildcard_suffix: None,
    };
    let mut hdrs = HeaderMap::new();
    hdrs.insert("x-key", HeaderValue::from_static("wrong"));
    assert!(
        !route_matches_request(&resolved, "/", None, &hdrs, None, None),
        "header-constrained route should not match when header value differs"
    );
}

#[test]
fn route_matches_request_compound() {
    let route = Route {
        path_prefix: "/api/".into(),
        host: Some("example.com".into()),
        headers: Some(text_map(&[("x-ver", "2")])),
        cluster: "c".into(),
        ..Default::default()
    };
    let resolved = ResolvedRoute {
        route,
        wildcard_suffix: None,
    };
    let mut hdrs = HeaderMap::new();
    hdrs.insert("x-ver", HeaderValue::from_static("2"));
    assert!(
        route_matches_request(&resolved, "/api/data", Some("example.com"), &hdrs, None, None),
        "compound route should match when path, host, and header all match"
    );
    assert!(
        !route_matches_request(&resolved, "/api/data", Some("other.com"), &hdrs, None, None),
        "compound route should fail when host mismatches"
    );
    assert!(
        !route_matches_request(&resolved, "/other", Some("example.com"), &hdrs, None, None),
        "compound route should fail when path mismatches"
    );
}

#[test]
fn update_best_match_prefers_more_constraints_at_same_prefix() {
    let route_a = Route {
        path_prefix: "/".into(),
        cluster: "a".into(),
        ..Default::default()
    };
    let route_b = Route {
        path_prefix: "/".into(),
        host: Some("example.com".into()),
        cluster: "b".into(),
        ..Default::default()
    };
    let best = update_best_match(None, &route_a);
    let best = update_best_match(best, &route_b);
    assert_eq!(
        best.unwrap().2.cluster,
        "b",
        "route with more constraints should win at same prefix length"
    );
}

#[test]
fn update_best_match_prefers_longer_prefix() {
    let short = Route {
        path_prefix: "/".into(),
        cluster: "short".into(),
        ..Default::default()
    };
    let long = Route {
        path_prefix: "/api/".into(),
        cluster: "long".into(),
        ..Default::default()
    };
    let best = update_best_match(None, &short);
    let best = update_best_match(best, &long);
    assert_eq!(best.unwrap().2.cluster, "long", "route with longer prefix should win");
}

#[test]
fn update_best_match_keeps_current_when_dominated() {
    let first = Route {
        path_prefix: "/api/".into(),
        host: Some("example.com".into()),
        cluster: "first".into(),
        ..Default::default()
    };
    let second = Route {
        path_prefix: "/".into(),
        cluster: "second".into(),
        ..Default::default()
    };
    let best = update_best_match(None, &first);
    let best = update_best_match(best, &second);
    assert_eq!(
        best.unwrap().2.cluster,
        "first",
        "dominated route should not replace current best"
    );
}

#[test]
fn should_stop_early_true_when_prefix_shorter_than_best() {
    let best_route = Route {
        path_prefix: "/api/v2/".into(),
        cluster: "best".into(),
        ..Default::default()
    };
    let shorter = Route {
        path_prefix: "/api/".into(),
        cluster: "shorter".into(),
        ..Default::default()
    };
    let best = Some((path_specificity(&best_route), 0, &best_route));
    assert!(
        should_stop_early(best, &shorter),
        "should stop when current route prefix is shorter than best"
    );
}

#[test]
fn should_stop_early_false_when_prefix_equal_to_best() {
    let best_route = Route {
        path_prefix: "/api/".into(),
        cluster: "best".into(),
        ..Default::default()
    };
    let same = Route {
        path_prefix: "/api/".into(),
        cluster: "same".into(),
        ..Default::default()
    };
    let best = Some((path_specificity(&best_route), 0, &best_route));
    assert!(
        !should_stop_early(best, &same),
        "should not stop when prefix lengths are equal"
    );
}

#[test]
fn should_stop_early_false_when_no_best() {
    let route = Route {
        path_prefix: "/".into(),
        cluster: "any".into(),
        ..Default::default()
    };
    assert!(
        !should_stop_early(None, &route),
        "should not stop when there is no current best"
    );
}

#[test]
fn path_prefix_without_trailing_slash_is_allowed() {
    let router = RouterFilter::new(vec![Route {
        path_prefix: "/api".into(),
        cluster: "api".into(),
        ..Default::default()
    }])
    .ok()
    .expect("Gateway-aligned prefix should not require trailing slash");
    let route = router.match_route("/api/users", None, &HeaderMap::new(), None, None).unwrap();
    assert_eq!(route.cluster, "api");
    assert!(
        router.match_route("/apikeys", None, &HeaderMap::new(), None, None).is_none(),
        "segment boundary: /api must not match /apikeys"
    );
}

#[test]
fn path_prefix_exact_segment_matches_without_extra_slash() {
    let router = make_router(vec![Route {
        path_prefix: "/test".into(),
        cluster: "t".into(),
        ..Default::default()
    }]);
    for path in ["/test", "/test/", "/test/x"] {
        let route = router.match_route(path, None, &HeaderMap::new(), None, None).unwrap_or_else(|| {
            panic!("prefix /test should match path {path:?}");
        });
        assert_eq!(route.cluster, "t", "path {path:?}");
    }
    assert!(
        router.match_route("/testing", None, &HeaderMap::new(), None, None).is_none(),
        "/test must not match /testing"
    );
}

#[test]
fn wildcard_host_matches_subdomain() {
    let router = make_router(vec![Route {
        path_prefix: "/".into(),
        host: Some("*.example.com".into()),
        cluster: "wildcard".into(),
        ..Default::default()
    }]);

    let route = router
        .match_route("/", Some("api.example.com"), &HeaderMap::new(), None, None)
        .unwrap();
    assert_eq!(
        route.cluster, "wildcard",
        "*.example.com should match api.example.com"
    );
}

#[test]
fn wildcard_host_does_not_match_bare_domain() {
    let router = make_router(vec![Route {
        path_prefix: "/".into(),
        host: Some("*.example.com".into()),
        cluster: "wildcard".into(),
        ..Default::default()
    }]);

    assert!(
        router
            .match_route("/", Some("example.com"), &HeaderMap::new(), None, None)
            .is_none(),
        "*.example.com should not match bare example.com"
    );
}

#[test]
fn wildcard_host_does_not_match_multi_level_subdomain() {
    let router = make_router(vec![Route {
        path_prefix: "/".into(),
        host: Some("*.example.com".into()),
        cluster: "wildcard".into(),
        ..Default::default()
    }]);

    assert!(
        router
            .match_route("/", Some("a.b.example.com"), &HeaderMap::new(), None, None)
            .is_none(),
        "*.example.com should not match multi-level subdomain a.b.example.com"
    );
}

#[test]
fn wildcard_host_with_port() {
    let router = make_router(vec![Route {
        path_prefix: "/".into(),
        host: Some("*.example.com".into()),
        cluster: "wildcard".into(),
        ..Default::default()
    }]);

    let route = router
        .match_route("/", Some("www.example.com:8080"), &HeaderMap::new(), None, None)
        .unwrap();
    assert_eq!(
        route.cluster, "wildcard",
        "wildcard host should match after stripping port"
    );
}

#[test]
fn wildcard_host_case_insensitive() {
    let router = make_router(vec![Route {
        path_prefix: "/".into(),
        host: Some("*.Example.COM".into()),
        cluster: "wildcard".into(),
        ..Default::default()
    }]);

    let route = router
        .match_route("/", Some("API.example.com"), &HeaderMap::new(), None, None)
        .unwrap();
    assert_eq!(
        route.cluster, "wildcard",
        "wildcard host matching should be case-insensitive"
    );
}

#[test]
fn wildcard_host_with_fallback() {
    let router = make_router(vec![
        Route {
            path_prefix: "/".into(),
            host: Some("*.example.com".into()),
            cluster: "wildcard".into(),
            ..Default::default()
        },
        Route {
            path_prefix: "/".into(),
            cluster: "default".into(),
            ..Default::default()
        },
    ]);

    let route = router
        .match_route("/", Some("api.example.com"), &HeaderMap::new(), None, None)
        .unwrap();
    assert_eq!(
        route.cluster, "wildcard",
        "wildcard route should match api.example.com"
    );

    let route = router.match_route("/", Some("other.dev"), &HeaderMap::new(), None, None).unwrap();
    assert_eq!(
        route.cluster, "default",
        "non-matching host should fall back to default"
    );
}

#[test]
fn exact_host_wins_over_wildcard_same_constraints() {
    let router = make_router(vec![
        Route {
            path_prefix: "/".into(),
            host: Some("api.example.com".into()),
            cluster: "exact".into(),
            ..Default::default()
        },
        Route {
            path_prefix: "/".into(),
            host: Some("*.example.com".into()),
            cluster: "wildcard".into(),
            ..Default::default()
        },
    ]);

    let route = router
        .match_route("/", Some("api.example.com"), &HeaderMap::new(), None, None)
        .unwrap();
    assert_eq!(
        route.cluster, "exact",
        "exact host match should win over wildcard (first-match semantics)"
    );
}

#[test]
fn wildcard_host_does_not_match_empty_subdomain() {
    let router = make_router(vec![Route {
        path_prefix: "/".into(),
        host: Some("*.example.com".into()),
        cluster: "wildcard".into(),
        ..Default::default()
    }]);

    assert!(
        router
            .match_route("/", Some(".example.com"), &HeaderMap::new(), None, None)
            .is_none(),
        "*.example.com should not match .example.com (empty subdomain)"
    );
}

#[test]
fn on_request_wildcard_host_via_host_header() {
    let router = make_router(vec![
        Route {
            path_prefix: "/".into(),
            host: Some("*.example.com".into()),
            cluster: "wildcard".into(),
            ..Default::default()
        },
        Route {
            path_prefix: "/".into(),
            cluster: "default".into(),
            ..Default::default()
        },
    ]);

    let mut req = request("/");
    req.headers.insert("host", HeaderValue::from_static("app.example.com"));
    let mut ctx = HttpFilterContext::new(&req);
    drop(router.on_request(&mut ctx));
    assert_eq!(
        ctx.cluster.as_deref(),
        Some("wildcard"),
        "wildcard should match via Host header"
    );
}

#[test]
fn on_request_uses_original_path_when_rewritten_path_is_none() {
    let router = make_router(vec![
        Route {
            path_prefix: "/api/".into(),
            cluster: "api".into(),
            ..Default::default()
        },
        Route {
            path_prefix: "/".into(),
            cluster: "default".into(),
            ..Default::default()
        },
    ]);
    let req = request("/api/users");
    let mut ctx = HttpFilterContext::new(&req);
    let action = router.on_request(&mut ctx);
    assert!(
        matches!(action, FilterAction::Continue),
        "original path match should continue"
    );
    assert_eq!(
        ctx.cluster.as_deref(),
        Some("api"),
        "should route based on original path when rewritten_path is None"
    );
}

#[test]
fn on_request_uses_rewritten_path_when_set() {
    let router = make_router(vec![
        Route {
            path_prefix: "/internal/".into(),
            cluster: "internal".into(),
            ..Default::default()
        },
        Route {
            path_prefix: "/".into(),
            cluster: "default".into(),
            ..Default::default()
        },
    ]);
    let req = request("/api/v1/data");
    let mut ctx = HttpFilterContext::new(&req);
    ctx.rewritten_path = Some("/internal/data".to_owned());
    let action = router.on_request(&mut ctx);
    assert!(
        matches!(action, FilterAction::Continue),
        "rewritten path match should continue"
    );
    assert_eq!(
        ctx.cluster.as_deref(),
        Some("internal"),
        "should route based on rewritten_path, not original"
    );
}

#[test]
fn on_request_rewritten_path_no_match_still_rejects() {
    let router = make_router(vec![Route {
        path_prefix: "/api/".into(),
        cluster: "api".into(),
        ..Default::default()
    }]);
    let req = request("/api/users");
    let mut ctx = HttpFilterContext::new(&req);
    ctx.rewritten_path = Some("/unknown/path".to_owned());
    let action = router.on_request(&mut ctx);
    assert!(
        matches!(action, FilterAction::Reject(r) if r.status == 404),
        "rewritten path that matches no route should reject with 404"
    );
    assert!(
        ctx.cluster.is_none(),
        "cluster should remain unset when rewritten path matches nothing"
    );
}

// More of the matching rules

fn prefix_route(prefix: &str, cluster: &str) -> Route {
    Route { path_prefix: prefix.into(), cluster: cluster.into(), ..Default::default() }
}

fn cluster_at(router: &RouterFilter, path: &str, method: Option<&str>, query: Option<&str>) -> Option<String> {
    router
        .match_route(path, None, &HeaderMap::new(), method, query)
        .map(|route| route.cluster.clone())
}

#[test]
fn exact_path_beats_regex_and_prefix() {
    let router = make_router(vec![
        prefix_route("/a", "prefix"),
        Route { path_regex: Some("^/a/[0-9]+$".into()), cluster: "regex".into(), ..Default::default() },
        Route { path_exact: Some("/a/7".into()), cluster: "exact".into(), ..Default::default() },
    ]);
    assert_eq!(cluster_at(&router, "/a/7", None, None).as_deref(), Some("exact"));
    assert_eq!(cluster_at(&router, "/a/8", None, None).as_deref(), Some("regex"));
    assert_eq!(cluster_at(&router, "/a/b", None, None).as_deref(), Some("prefix"));
}

#[test]
fn regex_that_does_not_compile_matches_nothing() {
    let router = make_router(vec![Route {
        path_regex: Some("(".into()),
        cluster: "broken".into(),
        ..Default::default()
    }]);
    assert_eq!(cluster_at(&router, "/", None, None), None);
}

#[test]
fn regex_verdict_decides_the_path() {
    let resolved = ResolvedRoute::resolve(Route {
        path_regex: Some("^/a$".into()),
        cluster: "r".into(),
        ..Default::default()
    });
    assert!(route_matches_with(&resolved, "/x", None, &HeaderMap::new(), None, None, Some(true)));
    assert!(!route_matches_with(&resolved, "/a", None, &HeaderMap::new(), None, None, Some(false)));
    assert!(!route_matches_with(&resolved, "/a", None, &HeaderMap::new(), None, None, None));
}

#[test]
fn methods_narrow_a_route() {
    let router = make_router(vec![Route {
        path_prefix: "/".into(),
        methods: Some(vec!["POST".into()]),
        cluster: "post".into(),
        ..Default::default()
    }]);
    assert_eq!(cluster_at(&router, "/", Some("POST"), None).as_deref(), Some("post"));
    assert_eq!(cluster_at(&router, "/", Some("GET"), None), None);
}

#[test]
fn query_parameters_narrow_a_route() {
    let router = make_router(vec![
        Route {
            path_prefix: "/".into(),
            query_params: Some(text_map(&[("v", "2")])),
            cluster: "two".into(),
            ..Default::default()
        },
        prefix_route("/", "default"),
    ]);
    assert_eq!(cluster_at(&router, "/", None, Some("a=1&v=2")).as_deref(), Some("two"));
    assert_eq!(cluster_at(&router, "/", None, Some("v=3")).as_deref(), Some("default"));
    assert_eq!(cluster_at(&router, "/", None, None).as_deref(), Some("default"));
}

#[test]
fn trailing_slash_of_a_prefix_is_ignored() {
    for prefix in ["/api", "/api/"] {
        assert!(gateway_path_prefix_matches("/api", prefix));
        assert!(gateway_path_prefix_matches("/api/", prefix));
        assert!(gateway_path_prefix_matches("/api/v1", prefix));
        assert!(!gateway_path_prefix_matches("/apikeys", prefix));
        assert_eq!(gateway_path_prefix_specificity(prefix), 4);
    }
}

#[test]
fn ports_are_stripped_from_hosts() {
    assert_eq!(strip_port("a.test:80"), "a.test");
    assert_eq!(strip_port("a.test"), "a.test");
    assert_eq!(strip_port("[::1]:80"), "[::1]");
}

#[test]
fn paths_are_normalized() {
    assert_eq!(normalize_rewritten_path("/a//b/./../c"), "/a/c");
    assert_eq!(normalize_rewritten_path("../x"), "/x");
}

#[test]
fn query_pairs_are_read() {
    let pairs = parse_query_pairs("a=1&b&c=x=y");
    assert_eq!(pairs.get("a").map(String::as_str), Some("1"));
    assert_eq!(pairs.get("b").map(String::as_str), Some(""));
    assert_eq!(pairs.get("c").map(String::as_str), Some("x=y"));
    assert_eq!(pairs.len(), 3);
}

// What a matched route does

#[test]
fn redirect_answers_with_its_location() {
    assert_eq!(expand_redirect_location("https://h${path}${query}", "/p", Some("q=1")), "https://h/p?q=1");
    let router = make_router(vec![Route {
        path_prefix: "/".into(),
        redirect: Some(RedirectAction { status: 302, location: "https://new${path}${query}".into() }),
        cluster: "c".into(),
        ..Default::default()
    }]);
    let req = request("/old?a=1");
    let mut ctx = HttpFilterContext::new(&req);
    match router.on_request(&mut ctx) {
        FilterAction::Reject(r) => {
            assert_eq!(r.status, 302);
            assert!(r
                .headers
                .iter()
                .any(|(name, value)| name.eq_ignore_ascii_case("location") && value == "https://new/old?a=1"));
        },
        _ => panic!("expected a redirect"),
    }
    assert!(ctx.cluster.is_none());
}

#[test]
fn unresolved_backend_is_an_error() {
    let mut route = prefix_route("/", "c");
    route.invalid_backend_ref = true;
    let router = make_router(vec![route]);
    let req = request("/");
    let mut ctx = HttpFilterContext::new(&req);
    assert!(matches!(router.on_request(&mut ctx), FilterAction::Reject(r) if r.status == 500));
}

#[test]
fn header_changes_are_queued_in_order() {
    let router = make_router(vec![Route {
        path_prefix: "/".into(),
        request_header_modifier: Some(RequestHeaderModifier {
            set: vec![HeaderNameValue { name: "x-set".into(), value: "1".into() }],
            add: vec![HeaderNameValue { name: "x-add".into(), value: "2".into() }],
            remove: vec!["x-gone".into()],
        }),
        cluster: "c".into(),
        ..Default::default()
    }]);
    let req = request("/");
    let mut ctx = HttpFilterContext::new(&req);
    let _action = router.on_request(&mut ctx);
    let ops = &ctx.pending_request_header_ops;
    assert!(matches!(&ops[0], PendingRequestHeaderOp::RemoveHeader(n) if n == "x-gone"));
    assert!(matches!(&ops[1], PendingRequestHeaderOp::SetHeader(n, v) if n == "x-set" && v == "1"));
    assert!(matches!(&ops[2], PendingRequestHeaderOp::AddHeader(n, v) if n == "x-add" && v == "2"));
    assert_eq!(ops.len(), 3);
}

#[test]
fn header_changes_are_validated() {
    let with = |set: &str, value: &str, remove: &str| Route {
        path_prefix: "/".into(),
        request_header_modifier: Some(RequestHeaderModifier {
            set: vec![HeaderNameValue { name: set.into(), value: value.into() }],
            add: Vec::new(),
            remove: vec![remove.into()],
        }),
        cluster: "c".into(),
        ..Default::default()
    };
    assert!(RouterFilter::new(vec![with("x-a", "1", "x-b")]).is_ok());
    let error = |route: Route| RouterFilter::new(vec![route]).err().unwrap().message();
    assert_eq!(
        error(with("bad name", "1", "x-b")),
        "router: invalid request_header_modifier header name 'bad name'"
    );
    assert_eq!(
        error(with("x-a", "a\nb", "x-b")),
        "router: invalid request_header_modifier value for 'x-a'"
    );
    assert_eq!(
        error(with("x-a", "1", "no good")),
        "router: invalid request_header_modifier remove name 'no good'"
    );
}

#[test]
fn rewrites_are_taken_over() {
    let router = make_router(vec![Route {
        path_prefix: "/old".into(),
        url_rewrite_hostname: Some("up.test".into()),
        url_rewrite_path_prefix: Some("/new".into()),
        request_timeout_ms: 1500,
        cluster: "c".into(),
        ..Default::default()
    }]);
    let req = request("/old/x?y=1");
    let mut ctx = HttpFilterContext::new(&req);
    let action = router.on_request(&mut ctx);
    assert!(matches!(action, FilterAction::Continue));
    assert_eq!(ctx.rewritten_host.as_deref(), Some("up.test"));
    assert_eq!(ctx.request_timeout_ms, Some(1500));
    assert!(ctx.rewritten_path.as_deref().unwrap().starts_with("/new/x"));
}

fn cors_policy(origins: &[&str]) -> RouteCorsPolicy {
    RouteCorsPolicy {
        allow_origins: origins.iter().map(|o| (*o).to_owned()).collect(),
        allow_methods: Vec::new(),
        allow_headers: Vec::new(),
        expose_headers: Vec::new(),
        max_age: 0,
        allow_credentials: false,
    }
}

fn cors_router(policy: RouteCorsPolicy) -> RouterFilter {
    make_router(vec![Route {
        path_prefix: "/".into(),
        cors: Some(policy),
        cluster: "c".into(),
        ..Default::default()
    }])
}

fn from_origin(method: &str, origin: &'static str, asks: bool) -> Request {
    let mut req = request("/x");
    req.method = method.to_owned();
    req.headers.insert("origin", HeaderValue::from_static(origin));
    if asks {
        req.headers.insert("access-control-request-method", HeaderValue::from_static("PUT"));
    }
    req
}

fn pairs(headers: &[(&str, &str)]) -> Vec<(String, String)> {
    headers.iter().map(|(n, v)| ((*n).to_owned(), (*v).to_owned())).collect()
}

#[test]
fn preflight_is_answered_by_the_router() {
    let mut policy = cors_policy(&["https://app.test", "*.example.com"]);
    policy.allow_methods = vec!["GET".into(), "PUT".into()];
    policy.allow_headers = vec!["x-a".into(), "x-b".into()];
    policy.max_age = 600;
    policy.allow_credentials = true;
    let router = cors_router(policy);
    let req = from_origin("OPTIONS", "https://www.example.com", true);
    let mut ctx = HttpFilterContext::new(&req);
    match router.on_request(&mut ctx) {
        FilterAction::Reject(r) => {
            assert_eq!(r.status, 204);
            assert_eq!(
                r.headers,
                pairs(&[
                    ("Access-Control-Allow-Origin", "https://www.example.com"),
                    ("Access-Control-Allow-Credentials", "true"),
                    ("Access-Control-Allow-Methods", "GET, PUT"),
                    ("Access-Control-Allow-Headers", "x-a, x-b"),
                    ("Access-Control-Max-Age", "600"),
                ])
            );
        },
        _ => panic!("expected an answer"),
    }
    assert!(ctx.cluster.is_none());
    let req = from_origin("OPTIONS", "https://evil.test", true);
    let mut ctx = HttpFilterContext::new(&req);
    match router.on_request(&mut ctx) {
        FilterAction::Reject(r) => assert!(r.status == 204 && r.headers.is_empty()),
        _ => panic!("expected an answer"),
    }
    let req = from_origin("OPTIONS", "https://app.test", false);
    let mut ctx = HttpFilterContext::new(&req);
    assert!(matches!(router.on_request(&mut ctx), FilterAction::Continue));
}

#[test]
fn preflight_without_methods_names_the_simple_ones() {
    let router = cors_router(cors_policy(&["*"]));
    let req = from_origin("OPTIONS", "https://any.test", true);
    let mut ctx = HttpFilterContext::new(&req);
    match router.on_request(&mut ctx) {
        FilterAction::Reject(r) => assert_eq!(
            r.headers,
            pairs(&[
                ("Access-Control-Allow-Origin", "*"),
                ("Access-Control-Allow-Methods", "GET, HEAD, POST"),
                ("Access-Control-Max-Age", "0"),
            ])
        ),
        _ => panic!("expected an answer"),
    }
}

#[test]
fn responses_carry_the_cross_origin_headers() {
    let mut policy = cors_policy(&["https://app.test"]);
    policy.expose_headers = vec!["x-id".into()];
    let mut route = prefix_route("/", "c");
    route.cors = Some(policy);
    route.response_header_modifier = Some(RequestHeaderModifier {
        set: vec![HeaderNameValue { name: "x-s".into(), value: "1".into() }],
        add: Vec::new(),
        remove: vec!["server".into()],
    });
    let router = make_router(vec![route]);
    let req = from_origin("GET", "https://app.test", false);
    let mut ctx = HttpFilterContext::new(&req);
    assert!(matches!(router.on_request(&mut ctx), FilterAction::Continue));
    let changes = ctx.response_header_modifier.unwrap();
    let set: Vec<(String, String)> =
        changes.set.iter().map(|h| (h.name.clone(), h.value.clone())).collect();
    assert_eq!(
        set,
        pairs(&[
            ("x-s", "1"),
            ("Access-Control-Allow-Origin", "https://app.test"),
            ("Access-Control-Expose-Headers", "x-id"),
        ])
    );
    assert_eq!(changes.remove, vec!["server".to_owned()]);
    let req = from_origin("GET", "https://app.test.evil", false);
    let mut ctx = HttpFilterContext::new(&req);
    assert!(matches!(router.on_request(&mut ctx), FilterAction::Continue));
    assert_eq!(ctx.response_header_modifier.unwrap().set.len(), 1);
}
