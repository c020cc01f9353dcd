//! Server names: matching, certificates and routing.

use praxis::action::FilterAction;
use praxis::sni::cert::{build_sni_resolver, CertKeyPair, SniCertResolver, TlsError};
use praxis::sni::matcher::{validate_pattern, SniMatcher, SniMatcherError, WildcardMatch};
use praxis::sni::name::{validate, SniNameError};
use praxis::sni::router::{SniRouteEntry, SniRouterConfig, SniRouterFilter};

/// Build a matcher over owned `String` values from `&str` pairs.
fn make(entries: &[(&str, &str)], policy: WildcardMatch) -> SniMatcher<String> {
    let owned = entries
        .iter()
        .map(|(pattern, value)| ((*pattern).to_owned(), (*value).to_owned()))
        .collect();
    SniMatcher::build(owned, policy).ok().expect("test matcher should build")
}

/// Look up `sni` and return the matched value as `&str`, if any.
fn resolve<'matcher>(matcher: &'matcher SniMatcher<String>, sni: &str) -> Option<&'matcher str> {
    matcher.lookup(sni).map(String::as_str)
}

fn pair(cert_path: &str, default: bool, server_names: Vec<String>) -> CertKeyPair {
    CertKeyPair {
        cert_path: cert_path.to_owned(),
        key_path: format!("{cert_path}.key"),
        server_names,
        default,
    }
}

/// Build a resolver whose keys are the positions of the certificates.
fn build(certificates: &Vec<CertKeyPair>) -> Result<SniCertResolver<usize>, TlsError> {
    build_sni_resolver(certificates, (0..certificates.len()).collect())
}

fn has_hostname(resolver: &SniCertResolver<usize>, name: &str) -> bool {
    resolver.hostnames().iter().any(|n| n == name)
}

fn has_wildcard_for(resolver: &SniCertResolver<usize>, suffix: &str) -> bool {
    resolver.wildcards().iter().any(|p| p == &format!("*.{suffix}"))
}

/// Build a resolver with a single exact hostname mapping.
fn resolver_with_exact(hostname: &str, default: bool) -> SniCertResolver<usize> {
    build(&vec![pair("certs.pem", default, vec![hostname.to_owned()])]).ok().unwrap()
}

fn text(value: &serde_yaml::Value) -> String {
    value.as_str().unwrap().to_owned()
}

fn config(yaml: &serde_yaml::Value) -> SniRouterConfig {
    SniRouterConfig {
        default_upstream: yaml.get("default_upstream").map(text),
        routes: yaml
            .get("routes")
            .map(|routes| {
                routes
                    .as_sequence()
                    .unwrap()
                    .iter()
                    .map(|route| SniRouteEntry {
                        server_names: route["server_names"].as_sequence().unwrap().iter().map(text).collect(),
                        upstream: text(&route["upstream"]),
                    })
                    .collect()
            })
            .unwrap_or_default(),
    }
}

/// Call `from_config` and assert it returns an error.
fn config_error(yaml: &serde_yaml::Value) -> String {
    match SniRouterFilter::from_config(config(yaml)) {
        Err(e) => e.message(),
        Ok(_) => panic!("expected config error but got Ok"),
    }
}

/// Build a filter from exact entries, wildcard entries, and optional default.
fn make_filter(
    exact_entries: &[(&str, &str)],
    wildcard_entries: &[(&str, &str)],
    default: Option<&str>,
) -> SniRouterFilter {
    let routes = exact_entries
        .iter()
        .chain(wildcard_entries)
        .map(|(pattern, upstream)| SniRouteEntry {
            server_names: vec![(*pattern).to_owned()],
            upstream: (*upstream).to_owned(),
        })
        .collect();
    SniRouterFilter::from_config(SniRouterConfig { default_upstream: default.map(str::to_owned), routes })
        .ok()
        .expect("test routes should build")
}

// Matcher

// exact matching (both policies)

#[test]
fn exact_match_wins() {
    for policy in [WildcardMatch::SingleLabel, WildcardMatch::Suffix] {
        let matcher = make(&[("api.example.com", "exact"), ("*.example.com", "wild")], policy);
        assert_eq!(resolve(&matcher, "api.example.com"), Some("exact"), "{policy:?}");
    }
}

#[test]
fn case_insensitive_lookup() {
    for policy in [WildcardMatch::SingleLabel, WildcardMatch::Suffix] {
        let matcher = make(&[("API.Example.COM", "v")], policy);
        assert_eq!(resolve(&matcher, "api.example.com"), Some("v"), "{policy:?}");
        assert_eq!(resolve(&matcher, "API.EXAMPLE.COM"), Some("v"), "{policy:?}");
    }
}

#[test]
fn trailing_dot_normalized() {
    for policy in [WildcardMatch::SingleLabel, WildcardMatch::Suffix] {
        let matcher = make(&[("api.example.com", "v")], policy);
        assert_eq!(resolve(&matcher, "api.example.com."), Some("v"), "{policy:?}");
    }
}

#[test]
fn no_match_is_none() {
    for policy in [WildcardMatch::SingleLabel, WildcardMatch::Suffix] {
        let matcher = make(&[("api.example.com", "v")], policy);
        assert_eq!(resolve(&matcher, "other.example.com"), None, "{policy:?}");
    }
}

// SingleLabel policy

#[test]
fn single_label_matches_one_level() {
    let matcher = make(&[("*.example.com", "wild")], WildcardMatch::SingleLabel);
    assert_eq!(resolve(&matcher, "app.example.com"), Some("wild"));
}

#[test]
fn single_label_rejects_multi_level() {
    let matcher = make(&[("*.example.com", "wild")], WildcardMatch::SingleLabel);
    assert_eq!(
        resolve(&matcher, "a.b.example.com"),
        None,
        "multi-level must not match SingleLabel"
    );
}

#[test]
fn single_label_wildcard_does_not_match_bare_suffix() {
    let matcher = make(&[("*.example.com", "wild")], WildcardMatch::SingleLabel);
    assert_eq!(resolve(&matcher, "example.com"), None);
    assert_eq!(resolve(&matcher, ".example.com"), None, "empty label must not match");
}

#[test]
fn single_label_rejects_two_label_pattern() {
    let err = SniMatcher::build(vec![("*.com".to_owned(), "v")], WildcardMatch::SingleLabel).err().unwrap();
    assert!(
        matches!(
            &err,
            SniMatcherError::InvalidPattern {
                source: SniNameError::WildcardTooShallow,
                ..
            }
        ),
        "got {err:?}"
    );
    assert!(err.message().contains("at least 3 labels"), "{}", err.message());
}

// Suffix policy

#[test]
fn suffix_matches_multi_level() {
    let matcher = make(&[("*.example.com", "wild")], WildcardMatch::Suffix);
    assert_eq!(resolve(&matcher, "app.example.com"), Some("wild"));
    assert_eq!(
        resolve(&matcher, "a.b.example.com"),
        Some("wild"),
        "multi-level matches Suffix"
    );
}

#[test]
fn suffix_longest_wins() {
    let matcher = make(
        &[("*.example.com", "short"), ("*.sub.example.com", "long")],
        WildcardMatch::Suffix,
    );
    assert_eq!(
        resolve(&matcher, "app.sub.example.com"),
        Some("long"),
        "longest suffix should win"
    );
}

#[test]
fn suffix_does_not_match_bare_suffix() {
    let matcher = make(&[("*.example.com", "wild")], WildcardMatch::Suffix);
    assert_eq!(
        resolve(&matcher, "example.com"),
        None,
        "wildcard must not match the bare suffix"
    );
}

#[test]
fn suffix_permits_two_label_pattern() {
    let matcher = make(&[("*.com", "wild")], WildcardMatch::Suffix);
    assert_eq!(resolve(&matcher, "a.com"), Some("wild"), "*.com is allowed for routing");
}

// build errors (both policies)

#[test]
fn duplicate_exact_rejected() {
    let err = SniMatcher::build(
        vec![("api.example.com".to_owned(), 1), ("API.example.com".to_owned(), 2)],
        WildcardMatch::Suffix,
    )
    .err().unwrap();
    assert!(matches!(err, SniMatcherError::DuplicatePattern { .. }), "got {err:?}");
}

#[test]
fn duplicate_wildcard_rejected() {
    for policy in [WildcardMatch::SingleLabel, WildcardMatch::Suffix] {
        let err = SniMatcher::build(
            vec![("*.example.com".to_owned(), 1), ("*.example.com".to_owned(), 2)],
            policy,
        )
        .err().unwrap();
        assert!(
            matches!(err, SniMatcherError::DuplicatePattern { .. }),
            "{policy:?}: {err:?}"
        );
    }
}

#[test]
fn invalid_pattern_rejected() {
    for policy in [WildcardMatch::SingleLabel, WildcardMatch::Suffix] {
        let err = SniMatcher::build(vec![("foo.*.com".to_owned(), 1)], policy).err().unwrap();
        assert!(
            matches!(
                &err,
                SniMatcherError::InvalidPattern {
                    source: SniNameError::InvalidWildcard,
                    ..
                }
            ),
            "{policy:?}: {err:?}"
        );
    }
}

// diagnostics

#[test]
fn reports_configured_patterns() {
    let matcher = make(
        &[("api.example.com", "a"), ("*.example.com", "b")],
        WildcardMatch::Suffix,
    );
    assert_eq!(matcher.exact_names(), vec!["api.example.com"]);
    assert_eq!(matcher.wildcard_patterns(), vec!["*.example.com".to_owned()]);
}

// Certificates

#[test]
fn sni_resolver_returns_matching_cert() {
    let certificates = vec![
        pair("certs1.pem", false, vec!["known.example.com".to_owned()]),
        pair("certs2.pem", true, Vec::new()),
    ];

    let resolver = build(&certificates).ok().expect("SNI resolver build should succeed");
    assert!(
        has_hostname(&resolver, "known.example.com"),
        "resolver should contain the registered hostname"
    );
    assert_eq!(
        resolver.hostnames().len(),
        1,
        "resolver should have exactly one SNI entry"
    );
}

#[test]
fn sni_resolver_rejects_duplicate_server_name() {
    let certificates = vec![
        pair("certs1.pem", false, vec!["api.example.com".to_owned()]),
        pair("certs2.pem", false, vec!["api.example.com".to_owned()]),
    ];

    let err = build(&certificates).err().unwrap();
    assert!(
        err.message().contains("duplicate server_name"),
        "should reject duplicate server_names: {}", err.message()
    );
}

#[test]
fn sni_resolver_returns_default_for_unknown() {
    let certificates = vec![
        pair("certs1.pem", false, vec!["known.example.com".to_owned()]),
        pair("certs2.pem", true, Vec::new()),
    ];

    let resolver = build(&certificates).ok().expect("SNI resolver build should succeed");
    assert!(
        !has_hostname(&resolver, "unknown.example.com"),
        "unknown hostname should not be in resolver map"
    );
    assert!(
        has_hostname(&resolver, "known.example.com"),
        "known hostname should be in resolver map"
    );
}

#[test]
fn sni_resolver_default_used_regardless_of_position() {
    let certificates = vec![
        pair("certs1.pem", true, Vec::new()),
        pair("certs2.pem", false, vec!["api.example.com".to_owned()]),
    ];

    let resolver = build(&certificates).ok().expect("SNI resolver build should succeed");
    assert_eq!(
        resolver.hostnames().len(),
        1,
        "resolver should have exactly one SNI entry"
    );
    assert!(
        has_hostname(&resolver, "api.example.com"),
        "resolver should contain api.example.com"
    );
}

#[test]
fn sni_resolver_wildcard_stored_separately() {
    let certificates = vec![pair("certs.pem", false, vec!["*.example.com".to_owned()])];

    let resolver = build(&certificates).ok().expect("wildcard SNI should build");
    assert_eq!(resolver.hostnames().len(), 0, "wildcard should not be in exact map");
    assert_eq!(resolver.wildcards().len(), 1, "wildcard should be in wildcard list");
}

#[test]
fn sni_resolver_multi_domain_cert() {
    let certificates = vec![pair("certs.pem", false, vec!["api.example.com".to_owned(), "web.example.com".to_owned()])];

    let resolver = build(&certificates).ok().expect("multi-domain SNI should build");
    assert!(
        has_hostname(&resolver, "api.example.com"),
        "should resolve api.example.com"
    );
    assert!(
        has_hostname(&resolver, "web.example.com"),
        "should resolve web.example.com"
    );
    assert_eq!(resolver.hostnames().len(), 2, "should have two SNI entries");
}

#[test]
fn sni_resolver_rejects_duplicate_wildcard() {
    let certificates = vec![
        pair("certs1.pem", false, vec!["*.example.com".to_owned()]),
        pair("certs2.pem", false, vec!["*.example.com".to_owned()]),
    ];

    let err = build(&certificates).err().unwrap();
    assert!(
        err.message().contains("duplicate server_name"),
        "should reject duplicate wildcard: {}", err.message()
    );
}

#[test]
fn sni_resolver_wildcard_matches_correct_domain() {
    let certificates = vec![pair("certs.pem", false, vec!["*.example.com".to_owned()])];

    let resolver = build(&certificates).ok().expect("wildcard SNI should build");
    assert!(
        has_wildcard_for(&resolver, "example.com"),
        "resolver should have wildcard for example.com"
    );
    assert!(
        !has_wildcard_for(&resolver, "other.com"),
        "resolver should not have wildcard for other.com"
    );
}

// resolve() / lookup() Tests

#[test]
fn resolve_exact_hostname_returns_cert() {
    let resolver = resolver_with_exact("api.example.com", false);
    assert!(
        resolver.lookup(Some("api.example.com")).is_some(),
        "exact hostname should resolve"
    );
}

#[test]
fn resolve_unknown_without_default_returns_none() {
    let resolver = resolver_with_exact("api.example.com", false);
    assert!(
        resolver.lookup(Some("unknown.example.com")).is_none(),
        "unknown hostname without default should return None"
    );
}

#[test]
fn resolve_unknown_falls_back_to_default() {
    let certificates = vec![
        pair("certs1.pem", false, vec!["known.example.com".to_owned()]),
        pair("certs2.pem", true, Vec::new()),
    ];
    let resolver = build(&certificates).ok().unwrap();
    assert!(
        resolver.lookup(Some("unknown.example.com")).is_some(),
        "unknown hostname should fall back to default"
    );
}

#[test]
fn resolve_no_sni_returns_default() {
    let resolver = resolver_with_exact("example.com", true);
    assert!(resolver.lookup(None).is_some(), "absent SNI should return default cert");
}

#[test]
fn resolve_no_sni_no_default_returns_none() {
    let resolver = resolver_with_exact("example.com", false);
    assert!(
        resolver.lookup(None).is_none(),
        "absent SNI without default should return None"
    );
}

#[test]
fn resolve_case_insensitive_match() {
    let resolver = resolver_with_exact("api.example.com", false);
    assert!(
        resolver.lookup(Some("API.Example.COM")).is_some(),
        "case-insensitive SNI should match"
    );
}

#[test]
fn resolve_wildcard_single_level() {
    let certificates = vec![pair("certs.pem", false, vec!["*.example.com".to_owned()])];
    let resolver = build(&certificates).ok().unwrap();
    assert!(
        resolver.lookup(Some("app.example.com")).is_some(),
        "single-level subdomain should match *.example.com"
    );
}

#[test]
fn resolve_wildcard_rejects_multi_level() {
    let certificates = vec![pair("certs.pem", false, vec!["*.example.com".to_owned()])];
    let resolver = build(&certificates).ok().unwrap();
    assert!(
        resolver.lookup(Some("a.b.example.com")).is_none(),
        "multi-level subdomain must NOT match *.example.com"
    );
}

#[test]
fn resolve_wildcard_rejects_bare_domain() {
    let certificates = vec![pair("certs.pem", false, vec!["*.example.com".to_owned()])];
    let resolver = build(&certificates).ok().unwrap();
    assert!(
        resolver.lookup(Some("example.com")).is_none(),
        "bare domain must NOT match *.example.com"
    );
}

#[test]
fn resolve_wildcard_rejects_empty_label() {
    let certificates = vec![pair("certs.pem", false, vec!["*.example.com".to_owned()])];
    let resolver = build(&certificates).ok().unwrap();
    assert!(
        resolver.lookup(Some(".example.com")).is_none(),
        "an empty subdomain label must NOT match *.example.com"
    );
}

#[test]
fn resolve_wildcard_case_insensitive_match() {
    let certificates = vec![pair("certs.pem", false, vec!["*.example.com".to_owned()])];
    let resolver = build(&certificates).ok().unwrap();
    assert!(
        resolver.lookup(Some("APP.Example.COM")).is_some(),
        "mixed-case SNI should match the wildcard case-insensitively"
    );
}

// Construction Tests

#[test]
fn sni_resolver_no_default_has_no_fallback() {
    let certificates = vec![
        pair("certs1.pem", false, vec!["alpha.example.com".to_owned()]),
        pair("certs2.pem", false, vec!["beta.example.com".to_owned()]),
    ];

    let resolver = build(&certificates).ok().expect("SNI resolver build should succeed");
    assert_eq!(resolver.hostnames().len(), 2, "resolver should have two SNI entries");
    assert!(
        !resolver.has_default(),
        "no default should be set when no entry has default: true"
    );
}

// Router

#[test]
fn exact_match_routes() {
    let filter = make_filter(&[("api.example.com", "10.0.0.1:443")], &[], None);
    let sni: Option<&str> = Some("api.example.com");
    let mut upstream_addr: Option<String> = None;

    let action = filter.on_connect(sni, &mut upstream_addr);
    assert!(matches!(action, FilterAction::Continue), "exact match should continue");
    assert_eq!(
        upstream_addr.as_deref(),
        Some("10.0.0.1:443"),
        "upstream should be set"
    );
}

#[test]
fn wildcard_match_routes() {
    let filter = make_filter(&[], &[("*.example.com", "10.0.0.2:443")], None);
    let sni: Option<&str> = Some("www.example.com");
    let mut upstream_addr: Option<String> = None;

    let action = filter.on_connect(sni, &mut upstream_addr);
    assert!(matches!(action, FilterAction::Continue), "wildcard should match");
    assert_eq!(
        upstream_addr.as_deref(),
        Some("10.0.0.2:443"),
        "upstream should be set by wildcard"
    );
}

#[test]
fn exact_takes_precedence_over_wildcard() {
    let filter = make_filter(
        &[("api.example.com", "10.0.0.1:443")],
        &[("*.example.com", "10.0.0.2:443")],
        None,
    );
    let sni: Option<&str> = Some("api.example.com");
    let mut upstream_addr: Option<String> = None;

    drop(filter.on_connect(sni, &mut upstream_addr));
    assert_eq!(
        upstream_addr.as_deref(),
        Some("10.0.0.1:443"),
        "exact match should take precedence"
    );
}

#[test]
fn longest_wildcard_wins() {
    let filter = make_filter(
        &[],
        &[("*.example.com", "10.0.0.1:443"), ("*.sub.example.com", "10.0.0.2:443")],
        None,
    );
    let sni: Option<&str> = Some("app.sub.example.com");
    let mut upstream_addr: Option<String> = None;

    drop(filter.on_connect(sni, &mut upstream_addr));
    assert_eq!(
        upstream_addr.as_deref(),
        Some("10.0.0.2:443"),
        "longest wildcard suffix should win"
    );
}

#[test]
fn default_upstream_used_on_no_match() {
    let filter = make_filter(&[("api.example.com", "10.0.0.1:443")], &[], Some("10.0.0.9:443"));
    let sni: Option<&str> = Some("unknown.example.com");
    let mut upstream_addr: Option<String> = None;

    let action = filter.on_connect(sni, &mut upstream_addr);
    assert!(matches!(action, FilterAction::Continue), "default should continue");
    assert_eq!(
        upstream_addr.as_deref(),
        Some("10.0.0.9:443"),
        "default upstream should be used"
    );
}

#[test]
fn no_match_no_default_rejects() {
    let filter = make_filter(&[("api.example.com", "10.0.0.1:443")], &[], None);
    let sni: Option<&str> = Some("unknown.example.com");
    let mut upstream_addr: Option<String> = None;

    let action = filter.on_connect(sni, &mut upstream_addr);
    assert!(
        matches!(action, FilterAction::Reject(r) if r.status == 421),
        "no match without default should reject with 421"
    );
}

#[test]
fn no_sni_with_default() {
    let filter = make_filter(&[], &[], Some("10.0.0.9:443"));
    let sni: Option<&str> = None;
    let mut upstream_addr: Option<String> = None;

    let action = filter.on_connect(sni, &mut upstream_addr);
    assert!(
        matches!(action, FilterAction::Continue),
        "no SNI with default should continue"
    );
    assert_eq!(
        upstream_addr.as_deref(),
        Some("10.0.0.9:443"),
        "default upstream used when no SNI"
    );
}

#[test]
fn no_sni_no_default_rejects() {
    let filter = make_filter(&[("api.example.com", "10.0.0.1:443")], &[], None);
    let sni: Option<&str> = None;
    let mut upstream_addr: Option<String> = None;

    let action = filter.on_connect(sni, &mut upstream_addr);
    assert!(
        matches!(action, FilterAction::Reject(r) if r.status == 421),
        "no SNI without default should reject with 421"
    );
}

#[test]
fn case_insensitive_matching() {
    let filter = make_filter(&[("API.Example.COM", "10.0.0.1:443")], &[], None);
    let sni: Option<&str> = Some("api.example.com");
    let mut upstream_addr: Option<String> = None;

    drop(filter.on_connect(sni, &mut upstream_addr));
    assert_eq!(
        upstream_addr.as_deref(),
        Some("10.0.0.1:443"),
        "matching should be case-insensitive"
    );
}

#[test]
fn case_insensitive_sni_input() {
    let filter = make_filter(&[("api.example.com", "10.0.0.1:443")], &[], None);
    let sni: Option<&str> = Some("API.EXAMPLE.COM");
    let mut upstream_addr: Option<String> = None;

    drop(filter.on_connect(sni, &mut upstream_addr));
    assert_eq!(
        upstream_addr.as_deref(),
        Some("10.0.0.1:443"),
        "SNI input should be lowercased for comparison"
    );
}

#[test]
fn unicode_lookalike_sni_does_not_match_ascii_route() {
    // U+212A KELVIN SIGN folds to ASCII 'k' under Unicode lowercasing but is
    // left untouched by ASCII folding. SNI case-insensitivity is ASCII-only
    // (RFC 4343), so a Kelvin-sign SNI must NOT match a route configured for
    // 'k'. Unicode lowercasing (the pre-fix behavior) would spuriously match.
    let filter = make_filter(&[("k.example.com", "10.0.0.1:443")], &[], None);
    let sni: Option<&str> = Some("\u{212A}.example.com");
    let mut upstream_addr: Option<String> = None;

    let action = filter.on_connect(sni, &mut upstream_addr);
    assert!(
        matches!(action, FilterAction::Reject(r) if r.status == 421),
        "a Unicode-lookalike SNI must not spuriously match an ASCII route"
    );
    assert_eq!(
        upstream_addr.as_deref(),
        None,
        "no upstream should be selected for a non-matching Unicode-lookalike SNI"
    );
}

#[test]
fn reject_bare_wildcard() {
    let yaml: serde_yaml::Value = serde_yaml::from_str(
        r#"
routes:
  - server_names: ["*"]
    upstream: "10.0.0.1:443"
"#,
    )
    .expect("valid YAML");
    let err = config_error(&yaml);
    assert!(
        err.contains("wildcard"),
        "bare wildcard should be rejected: {err}"
    );
}

#[test]
fn reject_invalid_wildcard_pattern() {
    let yaml: serde_yaml::Value = serde_yaml::from_str(
        r#"
routes:
  - server_names: ["*example.com"]
    upstream: "10.0.0.1:443"
"#,
    )
    .expect("valid YAML");
    let err = config_error(&yaml);
    assert!(
        err.contains("wildcard"),
        "invalid wildcard should be rejected: {err}"
    );
}

#[test]
fn reject_ip_address_server_name() {
    let yaml: serde_yaml::Value = serde_yaml::from_str(
        r#"
routes:
  - server_names: ["192.168.1.1"]
    upstream: "10.0.0.1:443"
"#,
    )
    .expect("valid YAML");
    let err = config_error(&yaml);
    assert!(
        err.contains("IP address"),
        "IP address should be rejected: {err}"
    );
}

#[test]
fn reject_duplicate_server_names() {
    let yaml: serde_yaml::Value = serde_yaml::from_str(
        r#"
routes:
  - server_names: ["api.example.com"]
    upstream: "10.0.0.1:443"
  - server_names: ["api.example.com"]
    upstream: "10.0.0.2:443"
"#,
    )
    .expect("valid YAML");
    let err = config_error(&yaml);
    assert!(
        err.contains("duplicate server name"),
        "duplicate names should be rejected: {err}"
    );
}

#[test]
fn from_config_valid() {
    let yaml: serde_yaml::Value = serde_yaml::from_str(
        r#"
routes:
  - server_names: ["api.example.com"]
    upstream: "10.0.0.1:443"
  - server_names: ["*.example.com"]
    upstream: "10.0.0.2:443"
default_upstream: "10.0.0.3:443"
"#,
    )
    .expect("valid YAML");
    let filter = SniRouterFilter::from_config(config(&yaml)).ok().expect("valid config should succeed");
    assert_eq!(filter.name(), "sni_router");
}

#[test]
fn wildcard_does_not_match_exact_suffix() {
    let filter = make_filter(&[], &[("*.example.com", "10.0.0.1:443")], None);
    let sni: Option<&str> = Some("example.com");
    let mut upstream_addr: Option<String> = None;

    let action = filter.on_connect(sni, &mut upstream_addr);
    assert!(
        matches!(action, FilterAction::Reject(_)),
        "wildcard should not match the bare suffix 'example.com'"
    );
}

#[test]
fn reject_duplicate_wildcard_patterns() {
    let yaml: serde_yaml::Value = serde_yaml::from_str(
        r#"
routes:
  - server_names: ["*.example.com"]
    upstream: "10.0.0.1:443"
  - server_names: ["*.example.com"]
    upstream: "10.0.0.2:443"
"#,
    )
    .expect("valid YAML");
    let err = config_error(&yaml);
    assert!(
        err.contains("duplicate wildcard"),
        "duplicate wildcard patterns should be rejected: {err}"
    );
}

#[test]
fn reject_empty_server_names() {
    let yaml: serde_yaml::Value = serde_yaml::from_str(
        r#"
routes:
  - server_names: []
    upstream: "10.0.0.1:443"
"#,
    )
    .expect("valid YAML");
    let err = config_error(&yaml);
    assert!(
        err.contains("empty server_names"),
        "empty server_names should be rejected: {err}"
    );
}

#[test]
fn reject_leading_hyphen_in_label() {
    let yaml: serde_yaml::Value = serde_yaml::from_str(
        r#"
routes:
  - server_names: ["-example.com"]
    upstream: "10.0.0.1:443"
"#,
    )
    .expect("valid YAML");
    let err = config_error(&yaml);
    assert!(
        err.contains("hyphen"),
        "leading hyphen should be rejected: {err}"
    );
}

#[test]
fn reject_invalid_characters_in_label() {
    let yaml: serde_yaml::Value = serde_yaml::from_str(
        r#"
routes:
  - server_names: ["invalid_host.com"]
    upstream: "10.0.0.1:443"
"#,
    )
    .expect("valid YAML");
    let err = config_error(&yaml);
    assert!(
        err.contains("invalid characters"),
        "underscore should be rejected: {err}"
    );
}

#[test]
fn reject_overlong_label() {
    let long = "a".repeat(64);
    let yaml: serde_yaml::Value = serde_yaml::from_str(&format!(
        r#"
routes:
  - server_names: ["{long}.example.com"]
    upstream: "10.0.0.1:443"
"#,
    ))
    .expect("valid YAML");
    let err = config_error(&yaml);
    assert!(
        err.contains("exceeds 63 characters"),
        "label >63 chars should be rejected: {err}"
    );
}

#[test]
fn reject_empty_routes_no_default() {
    let yaml: serde_yaml::Value = serde_yaml::from_str(
        r#"
routes: []
"#,
    )
    .expect("valid YAML");
    let err = config_error(&yaml);
    assert!(
        err.contains("at least one route"),
        "empty routes without default should be rejected: {err}"
    );
}

#[test]
fn accept_empty_routes_with_default() {
    let yaml: serde_yaml::Value = serde_yaml::from_str(
        r#"
routes: []
default_upstream: "10.0.0.1:443"
"#,
    )
    .expect("valid YAML");
    let filter = SniRouterFilter::from_config(config(&yaml)).ok().expect("empty routes with default should succeed");
    assert_eq!(filter.name(), "sni_router");
}

#[test]
fn trailing_dot_in_sni_matches() {
    let filter = make_filter(&[("api.example.com", "10.0.0.1:443")], &[], None);
    let sni: Option<&str> = Some("api.example.com.");
    let mut upstream_addr: Option<String> = None;

    let action = filter.on_connect(sni, &mut upstream_addr);
    assert!(
        matches!(action, FilterAction::Continue),
        "trailing dot in SNI should still match after trim"
    );
    assert_eq!(
        upstream_addr.as_deref(),
        Some("10.0.0.1:443"),
        "upstream should resolve despite trailing dot in SNI"
    );
}

// Certificates by name, over many names

fn exact_and_wildcard() -> SniCertResolver<usize> {
    build(&vec![
        pair("exact.pem", false, vec!["api.example.com".to_owned()]),
        pair("wildcard.pem", false, vec!["*.example.com".to_owned()]),
    ])
    .ok()
    .unwrap()
}

const LABELS: [&str; 6] = ["a", "z9", "apis", "ap", "x0123456789", "example"];

#[test]
fn exact_beats_wildcard() {
    let resolver = exact_and_wildcard();
    for sni in ["API.EXAMPLE.COM", "api.example.com"] {
        assert_eq!(resolver.lookup(Some(sni)), Some(&0));
    }
}

#[test]
fn wildcard_matches_single_level() {
    let resolver = exact_and_wildcard();
    for sub in LABELS {
        assert_eq!(resolver.lookup(Some(&format!("{sub}.example.com"))), Some(&1));
    }
}

#[test]
fn wildcard_does_not_cross_labels() {
    let resolver = exact_and_wildcard();
    for first in LABELS {
        for second in LABELS {
            assert!(resolver.lookup(Some(&format!("{first}.{second}.example.com"))).is_none());
        }
    }
}

#[test]
fn bare_domain_does_not_match_wildcard() {
    assert!(exact_and_wildcard().lookup(Some("example.com")).is_none());
}

#[test]
fn last_default_counts_and_errors_name_the_certificate() {
    let both = vec![
        pair("one.pem", true, vec!["a.example.com".to_owned()]),
        pair("two.pem", true, Vec::new()),
    ];
    assert_eq!(build(&both).ok().unwrap().lookup(None), Some(&1));
    let twice = vec![
        pair("one.pem", false, vec!["a.example.com".to_owned()]),
        pair("two.pem", false, vec!["A.example.com".to_owned()]),
    ];
    let err = build(&twice).err().unwrap().message();
    assert!(err.contains("two.pem"), "got: {err}");
    let shallow = vec![pair("one.pem", false, vec!["*.com".to_owned()])];
    let err = build(&shallow).err().unwrap().message();
    assert!(err.contains("server_names '*.com'"), "got: {err}");
}

#[test]
fn names_are_validated() {
    assert!(validate("api.example.com").is_ok());
    assert!(validate("*.com").is_ok());
    assert!(validate_pattern("*.com", WildcardMatch::Suffix).is_ok());
    assert_eq!(
        validate_pattern("*.com", WildcardMatch::SingleLabel).err(),
        Some(SniNameError::WildcardTooShallow)
    );
    assert!(validate("").is_err());
    assert!(validate("a..b").is_err());
    assert!(validate("10.0.0.1").is_err());
    assert!(validate("::1").is_err());
}

#[test]
fn longer_suffix_wins_whatever_the_order() {
    let matcher = make(
        &[("*.sub.example.com", "long"), ("*.example.com", "short")],
        WildcardMatch::Suffix,
    );
    assert_eq!(resolve(&matcher, "x.sub.example.com"), Some("long"));
    assert_eq!(resolve(&matcher, "x.example.com"), Some("short"));
}

#[test]
fn wildcards_are_given_as_written() {
    let matcher = make(
        &[("*.Example.COM", "a"), ("www.Example.com", "b"), ("*.other.test", "c")],
        WildcardMatch::SingleLabel,
    );
    let mut patterns = matcher.wildcard_patterns();
    patterns.sort();
    assert_eq!(patterns, vec!["*.Example.COM".to_owned(), "*.other.test".to_owned()]);
    assert_eq!(resolve(&matcher, "x.example.com"), Some("a"));
    let resolver = build(&vec![pair("certs.pem", false, vec!["*.Example.COM".to_owned()])]).ok().unwrap();
    assert_eq!(resolver.wildcards(), vec!["*.Example.COM".to_owned()]);
}
