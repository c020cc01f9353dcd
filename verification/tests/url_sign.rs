//! Signed URLs: canonical input, extraction and the filter.

use std::time::{SystemTime, UNIX_EPOCH};

use http::HeaderMap;
use praxis::action::FilterAction;
use praxis::environment::Environment;
use praxis::request::{HttpFilterContext, Request, Uri};
use praxis::url_sign::canonical::{build_canonical_input, CanonicalInputs};
use praxis::url_sign::config::{
    Algorithm, CanonicalConfig, Encoding, ExpiresConfig, KeyedSecretConfig, Placement, SecretSourceConfig,
    UrlSignConfig,
};
use praxis::url_sign::extract::{extract_path, extract_query, is_valid_expires};
use praxis::url_sign::filter::{check_expiry, UrlSignFilter};
use praxis::url_sign::path::sanitize_resource_path;
use praxis::url_sign::percent::percent_encode_query_value;
use praxis::url_sign::verify::{compute_mac, signatures_match};

fn now_ts() -> u64 {
    SystemTime::now().duration_since(UNIX_EPOCH).unwrap().as_secs()
}

fn uri(text: &str) -> Uri {
    let parsed: http::Uri = text.parse().expect("invalid URI in test");
    Uri {
        scheme: parsed.scheme_str().map(str::to_owned),
        authority: parsed.authority().map(|a| a.as_str().to_owned()),
        path: parsed.path().to_owned(),
        query: parsed.query().map(str::to_owned),
    }
}

fn make_request(method: &str, path: &str) -> Request {
    Request { method: method.to_owned(), uri: uri(path), headers: HeaderMap::new() }
}

fn text(value: &serde_yaml::Value, key: &str) -> Option<String> {
    value.get(key).map(|v| v.as_str().unwrap().to_owned())
}

fn config_of(value: &serde_yaml::Value) -> UrlSignConfig {
    let mut expires = ExpiresConfig::default();
    if let Some(e) = value.get("expires") {
        if let Some(skew) = e.get("clock_skew_secs") {
            expires.clock_skew_secs = skew.as_u64().unwrap();
        }
        if let Some(required) = e.get("required") {
            expires.required = required.as_bool().unwrap();
        }
    }
    let mut canonical = CanonicalConfig::default();
    if let Some(with_host) = value.get("canonical").and_then(|c| c.get("include_host")) {
        canonical.include_host = with_host.as_bool().unwrap();
    }
    UrlSignConfig {
        secret: value
            .get("secret")
            .map(|s| SecretSourceConfig { value: text(s, "value"), env_var: text(s, "env_var") }),
        secrets: value.get("secrets").map(|list| {
            list.as_sequence()
                .unwrap()
                .iter()
                .map(|s| KeyedSecretConfig {
                    id: text(s, "id").unwrap(),
                    value: text(s, "value"),
                    env_var: text(s, "env_var"),
                })
                .collect()
        }),
        algorithm: Algorithm::HmacSha256,
        placement: match text(value, "placement").as_deref() {
            Some("path") => Placement::Path,
            _ => Placement::Query,
        },
        signature_param: "sig".to_owned(),
        expires_param: "expires".to_owned(),
        key_id_param: text(value, "key_id_param"),
        path_prefix: text(value, "path_prefix"),
        expires,
        encoding: match text(value, "encoding").as_deref() {
            Some("base64url") => Encoding::Base64Url,
            _ => Encoding::Hex,
        },
        strip_signature: true,
        canonical,
    }
}

fn filter_of(value: &serde_yaml::Value) -> UrlSignFilter {
    UrlSignFilter::from_config(config_of(value), &Environment::new()).ok().unwrap()
}

fn make_filter_yaml(extra: &str) -> serde_yaml::Value {
    serde_yaml::from_str(&format!(
        r#"
secret:
  value: "qa-adversarial-secret"
{extra}
"#
    ))
    .unwrap()
}

fn sign_query(secret: &str, method: &str, path: &str, query: &str, expires: &str) -> String {
    let canonical = format!("{method}\n{path}\n{query}\n{expires}\n");
    compute_mac(secret.as_bytes(), &canonical, Encoding::Hex)
}

fn sign_path(secret: &str, resource: &str, expires: &str) -> String {
    let canonical = format!("GET\n{resource}\n\n{expires}\n");
    compute_mac(secret.as_bytes(), &canonical, Encoding::Hex)
}

fn sign_query_with_host(
    secret: &str,
    method: &str,
    path: &str,
    query: &str,
    expires: &str,
    host: &str,
) -> String {
    let canonical = format!("{method}\n{path}\n{query}\n{expires}\n{host}");
    compute_mac(secret.as_bytes(), &canonical, Encoding::Hex)
}

fn make_request_with_host(method: &str, path: &str, host: &str) -> Request {
    let mut headers = HeaderMap::new();
    headers.insert("host", host.parse().expect("invalid host header"));
    Request {
        method: method.to_owned(),
        uri: uri(path),
        headers,
    }
}

#[test]
fn method_swap_on_signed_get_rejects_403() {
    let secret = "qa-adversarial-secret";
    let expires = "9999999999";
    let sig = sign_query(secret, "GET", "/resource", "", expires);
    let filter = filter_of(&make_filter_yaml(""));

    let req = make_request(
        "POST",
        &format!("/resource?expires={expires}&sig={sig}"),
    );
    let mut ctx = HttpFilterContext::new(&req);
    let action = filter.on_request(&mut ctx, now_ts());
    assert!(
        matches!(action, FilterAction::Reject(r) if r.status == 403),
        "POST with GET-signed URL must reject"
    );
}

#[test]
fn query_mode_percent_encoded_path_sets_decoded_rewritten_path() {
    let secret = "qa-adversarial-secret";
    let expires = "9999999999";
    let decoded_path = "/files/report.pdf";
    let sig = sign_query(secret, "GET", decoded_path, "token=abc", expires);
    let filter = filter_of(&make_filter_yaml(""));

    let encoded_path = format!("/files%2freport.pdf?token=abc&expires={expires}&sig={sig}");
    let req = make_request("GET", &encoded_path);
    let mut ctx = HttpFilterContext::new(&req);
    let action = filter.on_request(&mut ctx, now_ts());

    assert!(
        matches!(action, FilterAction::Continue),
        "MAC verifies on decoded path even when request path is percent-encoded"
    );
    assert_eq!(
        ctx.rewritten_path.as_deref(),
        Some("/files/report.pdf"),
        "query mode must set rewritten_path to decoded canonical path"
    );
}

#[test]
fn query_mode_encoded_traversal_rejects_403() {
    let secret = "qa-adversarial-secret";
    let expires = "9999999999";
    let decoded_path = "/public/file";
    let sig = sign_query(secret, "GET", decoded_path, "", expires);
    let filter = filter_of(&make_filter_yaml(""));

    let path = format!("/public/%2e%2e/admin?expires={expires}&sig={sig}");
    let req = make_request("GET", &path);
    let mut ctx = HttpFilterContext::new(&req);
    let action = filter.on_request(&mut ctx, now_ts());
    assert!(
        matches!(action, FilterAction::Reject(r) if r.status == 403),
        "query mode encoded traversal must reject"
    );
}

#[test]
fn path_mode_semantically_equivalent_encoding_accepted() {
    let secret = "qa-adversarial-secret";
    let expires = "9999999999";
    let resource = "/files/report.pdf";
    let sig = sign_path(secret, resource, expires);
    let filter = filter_of(&make_filter_yaml(
        "placement: path\npath_prefix: /s\n",
    ));

    let path = format!("/s/{expires}/{sig}/files%2freport.pdf");
    let req = make_request("GET", &path);
    let mut ctx = HttpFilterContext::new(&req);
    let action = filter.on_request(&mut ctx, now_ts());
    assert!(
        matches!(action, FilterAction::Continue),
        "encoding equivalent to signed path should verify"
    );
    assert_eq!(
        ctx.rewritten_path.as_deref(),
        Some("/files/report.pdf"),
        "rewritten_path must be decoded canonical path"
    );
}

#[test]
fn path_mode_double_encoded_traversal_rejects_403() {
    let secret = "qa-adversarial-secret";
    let expires = "9999999999";
    let resource = "/public/file";
    let sig = sign_path(secret, resource, expires);
    let filter = filter_of(&make_filter_yaml(
        "placement: path\npath_prefix: /s\n",
    ));

    let path = format!("/s/{expires}/{sig}/public/%252e%252e/admin");
    let req = make_request("GET", &path);
    let mut ctx = HttpFilterContext::new(&req);
    let action = filter.on_request(&mut ctx, now_ts());
    assert!(
        matches!(action, FilterAction::Reject(r) if r.status == 403),
        "double-encoded traversal must reject"
    );
}

#[test]
fn unknown_key_id_rejects_403() {
    let yaml: serde_yaml::Value = serde_yaml::from_str(
        r#"
secrets:
  - id: v1
    value: "key-one"
  - id: v2
    value: "key-two"
"#,
    )
    .unwrap();
    let filter = filter_of(&yaml);
    let expires = "9999999999";
    let sig = sign_query("key-one", "GET", "/x", "", expires);

    let req = make_request(
        "GET",
        &format!("/x?expires={expires}&sig={sig}&kid=unknown"),
    );
    let mut ctx = HttpFilterContext::new(&req);
    let action = filter.on_request(&mut ctx, now_ts());
    assert!(
        matches!(action, FilterAction::Reject(r) if r.status == 403),
        "unknown kid must reject"
    );
}

#[test]
fn keyed_secret_matching_kid_succeeds() {
    let yaml: serde_yaml::Value = serde_yaml::from_str(
        r#"
secrets:
  - id: v1
    value: "key-one"
  - id: v2
    value: "key-two"
key_id_param: kid
"#,
    )
    .unwrap();
    let filter = filter_of(&yaml);
    let expires = "9999999999";
    let sig = sign_query("key-two", "GET", "/data", "", expires);

    let req = make_request(
        "GET",
        &format!("/data?expires={expires}&sig={sig}&kid=v2"),
    );
    let mut ctx = HttpFilterContext::new(&req);
    let action = filter.on_request(&mut ctx, now_ts());
    assert!(
        matches!(action, FilterAction::Continue),
        "valid kid should select correct secret"
    );
}

#[test]
fn expiry_beyond_clock_skew_rejects_403() {
    let secret = "qa-adversarial-secret";
    let filter = filter_of(&make_filter_yaml(
        "expires:\n  clock_skew_secs: 60\n",
    ));

    let now = SystemTime::now()
        .duration_since(UNIX_EPOCH)
        .unwrap()
        .as_secs();
    let expires = (now - 120).to_string();
    let sig = sign_query(secret, "GET", "/late", "", &expires);

    let req = make_request(
        "GET",
        &format!("/late?expires={expires}&sig={sig}"),
    );
    let mut ctx = HttpFilterContext::new(&req);
    let action = filter.on_request(&mut ctx, now_ts());
    assert!(
        matches!(action, FilterAction::Reject(r) if r.status == 403),
        "expiry outside clock skew must reject"
    );
}

#[test]
fn expiry_within_clock_skew_accepts() {
    let secret = "qa-adversarial-secret";
    let filter = filter_of(&make_filter_yaml(
        "expires:\n  clock_skew_secs: 120\n",
    ));

    let now = SystemTime::now()
        .duration_since(UNIX_EPOCH)
        .unwrap()
        .as_secs();
    let expires = (now - 30).to_string();
    let sig = sign_query(secret, "GET", "/skew-ok", "", &expires);

    let req = make_request(
        "GET",
        &format!("/skew-ok?expires={expires}&sig={sig}"),
    );
    let mut ctx = HttpFilterContext::new(&req);
    let action = filter.on_request(&mut ctx, now_ts());
    assert!(
        matches!(action, FilterAction::Continue),
        "expiry within clock skew should accept"
    );
}

#[test]
fn empty_signature_param_rejects_403() {
    let filter = filter_of(&make_filter_yaml(""));
    let req = make_request("GET", "/x?expires=9999999999&sig=");
    let mut ctx = HttpFilterContext::new(&req);
    let action = filter.on_request(&mut ctx, now_ts());
    assert!(
        matches!(action, FilterAction::Reject(r) if r.status == 403),
        "empty signature value must reject"
    );
}

#[test]
fn tampered_query_param_after_signing_rejects_403() {
    let secret = "qa-adversarial-secret";
    let expires = "9999999999";
    let sig = sign_query(secret, "GET", "/x", "token=abc", expires);
    let filter = filter_of(&make_filter_yaml(""));

    let req = make_request(
        "GET",
        &format!("/x?token=evil&expires={expires}&sig={sig}"),
    );
    let mut ctx = HttpFilterContext::new(&req);
    let action = filter.on_request(&mut ctx, now_ts());
    assert!(
        matches!(action, FilterAction::Reject(r) if r.status == 403),
        "tampered query param must reject"
    );
}

#[test]
fn path_mode_mixed_case_hex_signature_accepts() {
    let secret = "qa-adversarial-secret";
    let expires = "9999999999";
    let resource = "/doc";
    let sig = sign_path(secret, resource, expires);
    let mixed_sig = sig
        .chars()
        .enumerate()
        .map(|(i, c)| {
            if i.is_multiple_of(2) {
                c.to_ascii_uppercase()
            } else {
                c
            }
        })
        .collect::<String>();

    let filter = filter_of(&make_filter_yaml(
        "placement: path\npath_prefix: /s\n",
    ));
    let path = format!("/s/{expires}/{mixed_sig}{resource}");
    let req = make_request("GET", &path);
    let mut ctx = HttpFilterContext::new(&req);
    let action = filter.on_request(&mut ctx, now_ts());
    assert!(
        matches!(action, FilterAction::Continue),
        "hex signatures should be case-insensitive"
    );
}

#[test]
fn query_mode_double_encoded_traversal_rejects_403() {
    let secret = "qa-adversarial-secret";
    let expires = "9999999999";
    let decoded_path = "/public/file";
    let sig = sign_query(secret, "GET", decoded_path, "", expires);
    let filter = filter_of(&make_filter_yaml(""));

    let path = format!("/public/%252e%252e/admin?expires={expires}&sig={sig}");
    let req = make_request("GET", &path);
    let mut ctx = HttpFilterContext::new(&req);
    let action = filter.on_request(&mut ctx, now_ts());
    assert!(
        matches!(action, FilterAction::Reject(r) if r.status == 403),
        "query mode double-encoded traversal must reject"
    );
}

#[test]
fn query_mode_encoded_double_slash_rejects_403() {
    let secret = "qa-adversarial-secret";
    let expires = "9999999999";
    let decoded_path = "/a/b";
    let sig = sign_query(secret, "GET", decoded_path, "", expires);
    let filter = filter_of(&make_filter_yaml(""));

    let path = format!("/a%2f%2fb?expires={expires}&sig={sig}");
    let req = make_request("GET", &path);
    let mut ctx = HttpFilterContext::new(&req);
    let action = filter.on_request(&mut ctx, now_ts());
    assert!(
        matches!(action, FilterAction::Reject(r) if r.status == 403),
        "query mode encoded double slash must reject"
    );
}

#[test]
fn host_header_mismatch_with_include_host_rejects_403() {
    let secret = "qa-adversarial-secret";
    let expires = "9999999999";
    let path = "/resource";
    let signed_host = "cdn.example.com";
    let sig = sign_query_with_host(secret, "GET", path, "", expires, signed_host);
    let filter = filter_of(&make_filter_yaml(
        "canonical:\n  include_host: true\n",
    ));

    let req = make_request_with_host(
        "GET",
        &format!("{path}?expires={expires}&sig={sig}"),
        "evil.example.com",
    );
    let mut ctx = HttpFilterContext::new(&req);
    let action = filter.on_request(&mut ctx, now_ts());
    assert!(
        matches!(action, FilterAction::Reject(r) if r.status == 403),
        "host swap must reject when include_host is enabled"
    );
}

#[test]
fn multi_key_missing_kid_rejects_403() {
    let yaml: serde_yaml::Value = serde_yaml::from_str(
        r#"
secrets:
  - id: v1
    value: "key-one"
  - id: v2
    value: "key-two"
key_id_param: kid
"#,
    )
    .unwrap();
    let filter = filter_of(&yaml);
    let expires = "9999999999";
    let sig = sign_query("key-one", "GET", "/x", "", expires);

    let req = make_request("GET", &format!("/x?expires={expires}&sig={sig}"));
    let mut ctx = HttpFilterContext::new(&req);
    let action = filter.on_request(&mut ctx, now_ts());
    assert!(
        matches!(action, FilterAction::Reject(r) if r.status == 403),
        "multi-key config without kid must reject"
    );
}

#[test]
fn base64url_signature_encoding_accepts_valid_mac() {
    let secret = "qa-adversarial-secret";
    let expires = "9999999999";
    let path = "/doc";
    let canonical = format!("GET\n{path}\n\n{expires}\n");
    let sig = compute_mac(secret.as_bytes(), &canonical, Encoding::Base64Url);
    let filter = filter_of(&make_filter_yaml("encoding: base64url\n"));

    let req = make_request("GET", &format!("{path}?expires={expires}&sig={sig}"));
    let mut ctx = HttpFilterContext::new(&req);
    let action = filter.on_request(&mut ctx, now_ts());
    assert!(
        matches!(action, FilterAction::Continue),
        "valid base64url signature must verify"
    );
}

#[test]
fn duplicate_query_key_last_value_in_canonical_rejects_tamper() {
    let secret = "qa-adversarial-secret";
    let expires = "9999999999";
    let sig = sign_query(secret, "GET", "/x", "token=abc", expires);
    let filter = filter_of(&make_filter_yaml(""));

    let req = make_request(
        "GET",
        &format!("/x?token=abc&token=evil&expires={expires}&sig={sig}"),
    );
    let mut ctx = HttpFilterContext::new(&req);
    let action = filter.on_request(&mut ctx, now_ts());
    assert!(
        matches!(action, FilterAction::Reject(r) if r.status == 403),
        "duplicate query key with tampered trailing value must reject"
    );
}

#[test]
fn host_required_but_header_absent_rejects_403() {
    let secret = "qa-adversarial-secret";
    let expires = "9999999999";
    let path = "/resource";
    let signed_host = "cdn.example.com";
    let sig = sign_query_with_host(secret, "GET", path, "", expires, signed_host);
    let filter = filter_of(&make_filter_yaml(
        "canonical:\n  include_host: true\n",
    ));

    let req = make_request("GET", &format!("{path}?expires={expires}&sig={sig}"));
    let mut ctx = HttpFilterContext::new(&req);
    let action = filter.on_request(&mut ctx, now_ts());
    assert!(
        matches!(action, FilterAction::Reject(r) if r.status == 403),
        "signed host must be present on request when include_host is enabled"
    );
}

#[test]
fn bad_mac_returns_reject_not_filter_error() {
    let filter = filter_of(&make_filter_yaml(""));
    let req = make_request(
        "GET",
        "/x?expires=9999999999&sig=deadbeefdeadbeefdeadbeefdeadbeefdeadbeefdeadbeefdeadbeefdeadbeef",
    );
    let mut ctx = HttpFilterContext::new(&req);
    let result = filter.on_request(&mut ctx, now_ts());
    assert!(
        matches!(result, FilterAction::Reject(r) if r.status == 403),
        "bad MAC must reject with 403"
    );
}

// Filter

fn make_filter(secret: &str) -> UrlSignFilter {
    let yaml: serde_yaml::Value = serde_yaml::from_str(&format!(
        r#"
secret:
  value: "{secret}"
"#
    ))
    .unwrap();
    filter_of(&yaml)
}

fn sign_get(secret: &str, path: &str, query: &str, expires: &str) -> String {
    let canonical = format!("GET\n{path}\n{query}\n{expires}\n");
    compute_mac(secret.as_bytes(), &canonical, Encoding::Hex)
}

#[test]
fn valid_query_signature_continues() {
    let secret = "test-secret";
    let expires = "9999999999";
    let sig = sign_get(secret, "/files/report.pdf", "token=abc", expires);
    let path = format!("/files/report.pdf?token=abc&expires={expires}&sig={sig}");
    let filter = make_filter(secret);
    let req = make_request("GET", &path);
    let mut ctx = HttpFilterContext::new(&req);
    let action = filter.on_request(&mut ctx, now_ts());
    assert!(matches!(action, FilterAction::Continue));
}

#[test]
fn missing_signature_rejects_403() {
    let filter = make_filter("secret");
    let req = make_request("GET", "/files/report.pdf?expires=99");
    let mut ctx = HttpFilterContext::new(&req);
    let action = filter.on_request(&mut ctx, now_ts());
    assert!(matches!(action, FilterAction::Reject(r) if r.status == 403));
}

#[test]
fn wrong_mac_rejects_403() {
    let filter = make_filter("secret");
    let req = make_request(
        "GET",
        "/files/report.pdf?expires=9999999999&sig=deadbeef",
    );
    let mut ctx = HttpFilterContext::new(&req);
    let action = filter.on_request(&mut ctx, now_ts());
    assert!(matches!(action, FilterAction::Reject(r) if r.status == 403));
}

#[test]
fn expired_url_rejects_403() {
    let secret = "test-secret";
    let expires = "1";
    let sig = sign_get(secret, "/x", "", expires);
    let filter = make_filter(secret);
    let req = make_request("GET", &format!("/x?expires={expires}&sig={sig}"));
    let mut ctx = HttpFilterContext::new(&req);
    let action = filter.on_request(&mut ctx, now_ts());
    assert!(matches!(action, FilterAction::Reject(r) if r.status == 403));
}

#[test]
fn path_mode_sets_rewritten_path() {
    let secret = "test-secret";
    let expires = "9999999999";
    let resource = "/files/report.pdf";
    let canonical = format!("GET\n{resource}\n\n{expires}\n");
    let sig = compute_mac(secret.as_bytes(), &canonical, Encoding::Hex);

    let yaml: serde_yaml::Value = serde_yaml::from_str(&format!(
        r#"
secret:
  value: "{secret}"
placement: path
path_prefix: /s
"#
    ))
    .unwrap();
    let filter = filter_of(&yaml);

    let path = format!("/s/{expires}/{sig}{resource}");
    let req = make_request("GET", &path);
    let mut ctx = HttpFilterContext::new(&req);
    let action = filter.on_request(&mut ctx, now_ts());
    assert!(matches!(action, FilterAction::Continue));
    assert_eq!(ctx.rewritten_path.as_deref(), Some("/files/report.pdf"));
}

#[test]
fn encoded_traversal_rejects_403() {
    let secret = "test-secret";
    let expires = "9999999999";
    let resource = "/public/file";
    let canonical = format!("GET\n{resource}\n\n{expires}\n");
    let sig = compute_mac(secret.as_bytes(), &canonical, Encoding::Hex);

    let yaml: serde_yaml::Value = serde_yaml::from_str(&format!(
        r#"
secret:
  value: "{secret}"
placement: path
path_prefix: /s
"#
    ))
    .unwrap();
    let filter = filter_of(&yaml);

    let path = format!("/s/{expires}/{sig}/public/%2e%2e/admin");
    let req = make_request("GET", &path);
    let mut ctx = HttpFilterContext::new(&req);
    let action = filter.on_request(&mut ctx, now_ts());
    assert!(matches!(action, FilterAction::Reject(r) if r.status == 403));
}

// Canonical input

#[test]
fn query_mode_worked_example() {
    let uri = uri("/files/report.pdf?token=abc&expires=1719859200&sig=deadbeef");
    let headers = HeaderMap::new();
    let canonical = CanonicalConfig::default();

    let inputs = CanonicalInputs {
        method: "GET",
        uri: &uri,
        headers: &headers,
        placement: Placement::Query,
        canonical: &canonical,
        signature_param: "sig",
        expires_param: "expires",
        key_id_param: None,
        expires: "1719859200",
        resource_path_raw: None,
    };

    let result = build_canonical_input(&inputs).unwrap();
    assert_eq!(
        result,
        "GET\n/files/report.pdf\ntoken=abc\n1719859200\n"
    );
}

#[test]
fn excludes_signature_and_kid_params() {
    let uri = uri("/x?a=1&kid=v1&sig=abc&expires=99");
    let headers = HeaderMap::new();
    let canonical = CanonicalConfig::default();

    let inputs = CanonicalInputs {
        method: "GET",
        uri: &uri,
        headers: &headers,
        placement: Placement::Query,
        canonical: &canonical,
        signature_param: "sig",
        expires_param: "expires",
        key_id_param: Some("kid"),
        expires: "99",
        resource_path_raw: None,
    };

    let result = build_canonical_input(&inputs).unwrap();
    assert_eq!(result, "GET\n/x\na=1\n99\n");
}

#[test]
fn include_host_lowercases_and_strips_port() {
    let uri = uri("/");
    let mut headers = HeaderMap::new();
    headers.insert("host", "Example.COM:8080".parse().unwrap());
    let mut canonical = CanonicalConfig::default();
    canonical.include_host = true;

    let inputs = CanonicalInputs {
        method: "GET",
        uri: &uri,
        headers: &headers,
        placement: Placement::Query,
        canonical: &canonical,
        signature_param: "sig",
        expires_param: "expires",
        key_id_param: None,
        expires: "1",
        resource_path_raw: None,
    };

    let result = build_canonical_input(&inputs).unwrap();
    assert_eq!(result, "GET\n/\n\n1\nexample.com");
}

// Extraction

#[test]
fn path_mode_extracts_resource_suffix() {
    let uri = uri("/s/1719859200/abc123/files/report.pdf");
    let extracted = extract_path(&uri.path, "/s", Encoding::Hex).unwrap();
    assert_eq!(extracted.signature, "abc123");
    assert_eq!(extracted.expires.as_deref(), Some("1719859200"));
    assert_eq!(extracted.resource_path_raw.as_deref(), Some("/files/report.pdf"));
}

#[test]
fn path_mode_rejects_malformed_layout() {
    let uri = uri("/s/not-a-number/abc");
    assert!(extract_path(&uri.path, "/s", Encoding::Hex).is_none());
}

#[test]
fn query_mode_extracts_params() {
    let uri = uri("/file?expires=99&sig=deadbeef&kid=v1");
    let extracted = extract_query(&uri, "sig", "expires", Some("kid")).unwrap();
    assert_eq!(extracted.signature, "deadbeef");
    assert_eq!(extracted.expires.as_deref(), Some("99"));
    assert_eq!(extracted.key_id.as_deref(), Some("v1"));
}

// Paths

#[test]
fn rejects_encoded_dot_dot() {
    assert!(sanitize_resource_path("/public/%2e%2e/admin").is_none());
}

#[test]
fn rejects_encoded_double_slash() {
    assert!(sanitize_resource_path("/a%2f%2fb").is_none());
}

#[test]
fn accepts_clean_path() {
    assert_eq!(
        sanitize_resource_path("/files/report.pdf").unwrap(),
        "/files/report.pdf"
    );
}

#[test]
fn rejects_double_slash() {
    assert!(sanitize_resource_path("/a//b").is_none());
}

// Codes

#[test]
fn hex_mac_matches_worked_example() {
    let key = b"test-secret";
    let canonical = "GET\n/files/report.pdf\ntoken=abc\n1719859200\n";
    let mac = compute_mac(key, canonical, Encoding::Hex);
    assert_eq!(mac.len(), 64);
    assert!(signatures_match(&mac, &mac, Encoding::Hex));
}

#[test]
fn mismatch_returns_false() {
    assert!(!signatures_match("aabb", "bbcc", Encoding::Hex));
}

// Settings, and smaller parts

fn error_of(yaml: &str) -> String {
    let value: serde_yaml::Value = serde_yaml::from_str(yaml).unwrap();
    UrlSignFilter::from_config(config_of(&value), &Environment::new()).err().unwrap().message()
}

#[test]
fn each_refused_setting() {
    assert!(error_of("placement: query").starts_with("url_sign:"));
    assert!(error_of("secret:\n  value: a\nsecrets:\n  - id: x\n    value: b").starts_with("url_sign:"));
    assert!(error_of("secret:\n  value: a\nplacement: path").contains("path_prefix"));
    assert_eq!(
        error_of("secret:\n  value: a\nplacement: path\npath_prefix: s"),
        "url_sign: 'path_prefix' must start with '/'"
    );
    assert!(error_of("secret:\n  env_var: GONE").contains("'GONE' not set for secret"));
    assert_eq!(
        error_of("secret:\n  value: a\n  env_var: B"),
        "url_sign: secret has both 'value' and 'env_var' (use exactly one)"
    );
    assert_eq!(
        error_of("secrets:\n  - id: k"),
        "url_sign: secrets[].id='k' must have either 'value' or 'env_var'"
    );
    assert_eq!(error_of("secret:\n  value: \"\""), "url_sign: secret secret must not be empty");
}

#[test]
fn secret_from_the_environment() {
    let value: serde_yaml::Value = serde_yaml::from_str("secret:\n  env_var: KEY").unwrap();
    let mut env = Environment::new();
    env.set("KEY".into(), Ok("test-secret".into()));
    let filter = UrlSignFilter::from_config(config_of(&value), &env).ok().unwrap();
    assert_eq!(filter.name(), "url_sign");
    let sig = sign_get("test-secret", "/x", "", "9999999999");
    let req = make_request("GET", &format!("/x?expires=9999999999&sig={sig}"));
    let mut ctx = HttpFilterContext::new(&req);
    assert!(matches!(filter.on_request(&mut ctx, now_ts()), FilterAction::Continue));
}

#[test]
fn known_code() {
    assert_eq!(
        compute_mac(b"key", "The quick brown fox jumps over the lazy dog", Encoding::Hex),
        "f7bc83f430538424b13298e6aa6fb143ef4d59a14946175997479dbc2d1a3cd8"
    );
    assert_eq!(
        compute_mac(b"key", "The quick brown fox jumps over the lazy dog", Encoding::Base64Url),
        "97yD9DBThCSxMpjmqm-xQ-9NWaFJRhdZl0edvC0aPNg"
    );
}

#[test]
fn hex_codes_ignore_letter_case() {
    assert!(signatures_match("aabb", "AABB", Encoding::Hex));
    assert!(!signatures_match("aabb", "aab", Encoding::Hex));
    assert!(signatures_match("-_8", "-_8", Encoding::Base64Url));
    assert!(!signatures_match("-_8", "!!", Encoding::Base64Url));
}

#[test]
fn expiry_is_inclusive_of_the_skew() {
    assert!(check_expiry("100", 10, 110));
    assert!(!check_expiry("100", 10, 111));
    assert!(check_expiry("18446744073709551615", 10, u64::MAX));
    assert!(!check_expiry("x", 10, 0));
    assert!(is_valid_expires("0123"));
    assert!(!is_valid_expires("123456789012345678901"));
    assert!(!is_valid_expires(""));
}

#[test]
fn query_values_are_encoded() {
    assert_eq!(percent_encode_query_value("a b&c=d"), "a%20b%26c%3Dd");
    assert_eq!(percent_encode_query_value("plain"), "plain");
}

#[test]
fn encoded_bytes_are_decoded_in_paths() {
    assert_eq!(sanitize_resource_path("/a%20b").unwrap(), "/a b");
    assert!(sanitize_resource_path("/%ff").is_none());
    assert_eq!(sanitize_resource_path("/a/%252e%252e/b").unwrap(), "/a/%2e%2e/b");
}

#[test]
fn query_order_does_not_change_the_signed_text() {
    let headers = HeaderMap::new();
    let canonical = CanonicalConfig::default();
    let text = |target: &str| {
        build_canonical_input(&CanonicalInputs {
            method: "GET",
            uri: &uri(target),
            headers: &headers,
            placement: Placement::Query,
            canonical: &canonical,
            signature_param: "sig",
            expires_param: "expires",
            key_id_param: None,
            expires: "99",
            resource_path_raw: None,
        })
        .unwrap()
    };
    assert_eq!(text("/x?b=2&a=1&sig=s&b=1"), "GET\n/x\na=1&b=1&b=2\n99\n");
    assert_eq!(text("/x?b=1&b=2&a=1&a=1"), text("/x?b=2&a=1&sig=s&b=1"));
}

#[test]
fn query_mode_signs_the_path_as_it_is() {
    let filter = make_filter("test-secret");
    let expires = "9999999999";
    let sig = sign_get("test-secret", "/a//b", "", expires);
    let req = make_request("GET", &format!("/a//b?expires={expires}&sig={sig}"));
    let mut ctx = HttpFilterContext::new(&req);
    assert!(matches!(filter.on_request(&mut ctx, now_ts()), FilterAction::Continue));
    let other = sign_get("test-secret", "/a/b", "", expires);
    let req = make_request("GET", &format!("/a//b?expires={expires}&sig={other}"));
    let mut ctx = HttpFilterContext::new(&req);
    assert!(matches!(filter.on_request(&mut ctx, now_ts()), FilterAction::Reject(r) if r.status == 403));
}
