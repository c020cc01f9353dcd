//! Body signatures and signed links.

use std::time::{SystemTime, UNIX_EPOCH};

use hmac::Mac;
use http::{HeaderMap, HeaderValue};
use praxis::action::{BodyAccess, BodyMode, FilterAction};
use praxis::environment::Environment;
use praxis::request::{HttpFilterContext, Request, Uri};
use praxis::signature::hmac_verify::{
    self, github_signature, resolve_dialect, verify_body_signature, DialectKind, HmacVerifyConfig,
    HmacVerifyFilter, SignatureError,
};
use praxis::signature::mac::{decode_hex, encode_hex_lower};
use praxis::signature::secret::{resolve_secret, SecretFields};
use praxis::signature::signed_url::{
    self, split_path_query, strip_signature_params, validate_signed_url_config, verify_signed_url,
    MessageConfig, MessagePart, SignatureEncoding, SignedUrlConfig, SignedUrlError, SignedUrlFilter,
    UriSource,
};

fn hmac_sha256(key: &[u8], message: &[u8]) -> Vec<u8> {
    let mut mac = <hmac::Hmac<sha2::Sha256>>::new_from_slice(key).unwrap();
    mac.update(message);
    mac.finalize().into_bytes().to_vec()
}

fn hmac_sha1(key: &[u8], message: &[u8]) -> Vec<u8> {
    let mut mac = <hmac::Hmac<sha1::Sha1>>::new_from_slice(key).unwrap();
    mac.update(message);
    mac.finalize().into_bytes().to_vec()
}

fn now_ts() -> u64 {
    SystemTime::now().duration_since(UNIX_EPOCH).expect("clock").as_secs()
}

fn uri(text: &str) -> Uri {
    let parsed: http::Uri = text.parse().expect("uri");
    Uri {
        scheme: parsed.scheme_str().map(str::to_owned),
        authority: parsed.authority().map(|a| a.as_str().to_owned()),
        path: parsed.path().to_owned(),
        query: parsed.query().map(str::to_owned),
    }
}

fn request(uri: Uri) -> Request {
    Request { method: "GET".to_owned(), uri, headers: HeaderMap::new() }
}

fn webhook(headers: HeaderMap) -> Request {
    Request { method: "POST".to_owned(), uri: uri("/webhook"), headers }
}

fn text(value: &serde_yaml::Value, key: &str) -> Option<String> {
    value.get(key).map(|v| v.as_str().unwrap().to_owned())
}

fn hmac_filter(yaml: &str) -> HmacVerifyFilter {
    let value: serde_yaml::Value = serde_yaml::from_str(yaml).expect("yaml");
    let cfg = HmacVerifyConfig {
        secret: SecretFields { secret: text(&value, "secret"), secret_env_var: text(&value, "secret_env_var") },
        dialect: match text(&value, "dialect").as_deref() {
            Some("github") => DialectKind::Github,
            Some("raw_hex") => DialectKind::RawHex,
            Some("raw_base64") => DialectKind::RawBase64,
            other => panic!("dialect: {other:?}"),
        },
        header: text(&value, "header"),
        algorithm: hmac_verify::SignatureAlgorithm::Sha256,
        max_body_bytes: 1024,
        reject_status: 401,
        strip_header: true,
    };
    HmacVerifyFilter::from_config(cfg, &Environment::new()).ok().expect("config")
}

fn link_filter(yaml: &str) -> SignedUrlFilter {
    let value: serde_yaml::Value = serde_yaml::from_str(yaml).expect("yaml");
    let (mut cfg, _) = test_config(&text(&value, "secret").unwrap());
    cfg.max_age_seconds = value.get("max_age_seconds").map(|v| v.as_u64().unwrap());
    cfg.message.parts = value["message"]["parts"]
        .as_sequence()
        .unwrap()
        .iter()
        .map(|part| match part.as_str() {
            Some("path") => MessagePart::Path,
            Some("timestamp") => MessagePart::Timestamp,
            Some("expiry") => MessagePart::Expiry,
            other => panic!("part: {other:?}"),
        })
        .collect();
    SignedUrlFilter::from_config(cfg, &Environment::new()).ok().expect("config")
}

// Body signatures

#[test]
fn accepts_valid_github_signature() {
    let secret = b"webhook-secret";
    let body = br#"{"zen":"Design for failure."}"#;
    let header = github_signature(secret, body);

    let filter = hmac_filter(
        r#"
secret: "webhook-secret"
dialect: github
"#,
    );

    let mut headers = HeaderMap::new();
    headers.insert("X-Hub-Signature-256", HeaderValue::from_str(&header).expect("header"));
    let req = webhook(headers);
    let mut ctx = HttpFilterContext::new(&req);

    let chunk = Some(body.to_vec());
    let action = filter.on_request_body(&mut ctx, &chunk, true);

    assert!(matches!(action, FilterAction::Continue));
    assert!(
        ctx.extra_request_headers
            .iter()
            .any(|(k, v)| k == "X-Hub-Signature-256" && v.is_empty()),
        "signature header should be stripped"
    );
}

#[test]
fn rejects_missing_signature_header() {
    let filter = hmac_filter(
        r#"
secret: "webhook-secret"
dialect: github
"#,
    );

    let req = webhook(HeaderMap::new());
    let mut ctx = HttpFilterContext::new(&req);
    let chunk = Some(b"payload".to_vec());

    let action = filter.on_request_body(&mut ctx, &chunk, true);

    assert!(
        matches!(action, FilterAction::Reject(r) if r.status == 401),
        "missing signature should reject with 401"
    );
}

#[test]
fn waits_for_end_of_stream() {
    let filter = hmac_filter(
        r#"
secret: "webhook-secret"
dialect: github
"#,
    );

    let req = webhook(HeaderMap::new());
    let mut ctx = HttpFilterContext::new(&req);
    let chunk = Some(b"part".to_vec());

    let action = filter.on_request_body(&mut ctx, &chunk, false);

    assert!(matches!(action, FilterAction::Continue));
}

// Dialects

fn github_cfg() -> HmacVerifyConfig {
    HmacVerifyConfig {
        secret: SecretFields {
            secret: Some("webhook-secret".to_owned()),
            secret_env_var: None,
        },
        dialect: DialectKind::Github,
        header: None,
        algorithm: hmac_verify::SignatureAlgorithm::Sha256,
        max_body_bytes: 1024,
        reject_status: 401,
        strip_header: true,
    }
}

#[test]
fn github_valid_signature() {
    let cfg = github_cfg();
    let dialect = resolve_dialect(&cfg).ok().expect("dialect");
    let secret = b"webhook-secret";
    let body = br#"{"action":"opened"}"#;
    let header = github_signature(secret, body);

    let result =
        verify_body_signature(&dialect, Some(&header), body, secret);
    assert!(result.is_ok());
}

#[test]
fn github_rejects_wrong_prefix_on_256_header() {
    let cfg = github_cfg();
    let dialect = resolve_dialect(&cfg).ok().expect("dialect");
    let secret = b"webhook-secret";
    let body = b"payload";

    let result = verify_body_signature(&dialect, Some("sha1=abcd"), body, secret);
    assert!(matches!(result, Err(SignatureError::Malformed)));
}

// Signed links

#[test]
fn accepts_valid_signature_and_strips_params() {
    let secret = "link-secret";
    let ts = SystemTime::now()
        .duration_since(UNIX_EPOCH)
        .expect("clock")
        .as_secs();
    let path = "/files/report.pdf";
    let message = format!("{path}\n{ts}");
    let sig = encode_hex_lower(&hmac_sha256(secret.as_bytes(), message.as_bytes()));

    let filter = link_filter(&format!(
        r#"
secret: "{secret}"
max_age_seconds: 3600
message:
  parts: [path, timestamp]
"#
    ));

    let uri = uri(&format!("{path}?ts={ts}&sig={sig}&token=keep"));
    let req = request(uri);
    let mut ctx = HttpFilterContext::new(&req);

    let action = filter.on_request(&mut ctx, now_ts());
    assert!(matches!(action, FilterAction::Continue));
    assert_eq!(
        ctx.rewritten_path.as_deref(),
        Some(format!("{path}?token=keep").as_str()),
        "signature params should be stripped"
    );
}

#[test]
fn rejects_missing_signature() {
    let filter = link_filter(
        r#"
secret: "link-secret"
max_age_seconds: 3600
message:
  parts: [path, timestamp]
"#,
    );
    let req = request(uri("/path?ts=123"));
    let mut ctx = HttpFilterContext::new(&req);

    let action = filter.on_request(&mut ctx, now_ts());
    assert!(
        matches!(action, FilterAction::Reject(r) if r.status == 403),
        "missing signature should reject with 403"
    );
}

#[test]
fn rejects_expired_link_with_410() {
    let secret = "link-secret";
    let ts = SystemTime::now()
        .duration_since(UNIX_EPOCH)
        .expect("clock")
        .as_secs()
        .saturating_sub(7200);
    let path = "/old";
    let message = format!("{path}\n{ts}");
    let sig = encode_hex_lower(&hmac_sha256(secret.as_bytes(), message.as_bytes()));

    let filter = link_filter(
        r#"
secret: "link-secret"
max_age_seconds: 3600
message:
  parts: [path, timestamp]
"#,
    );

    let uri = uri(&format!("{path}?ts={ts}&sig={sig}"));
    let req = request(uri);
    let mut ctx = HttpFilterContext::new(&req);

    let action = filter.on_request(&mut ctx, now_ts());
    assert!(
        matches!(action, FilterAction::Reject(r) if r.status == 410),
        "expired link should reject with 410"
    );
}

// Verification of links

fn test_config(secret: &str) -> (SignedUrlConfig, Vec<u8>) {
    let cfg = SignedUrlConfig {
        secret: SecretFields {
            secret: Some(secret.to_owned()),
            secret_env_var: None,
        },
        algorithm: signed_url::SignatureAlgorithm::Sha256,
        signature_param: "sig".to_owned(),
        timestamp_param: "ts".to_owned(),
        expiry_param: None,
        max_age_seconds: Some(3600),
        clock_skew_seconds: 30,
        message: MessageConfig {
            parts: vec![MessagePart::Path, MessagePart::Timestamp],
            separator: "\n".to_owned(),
            encoding: SignatureEncoding::Hex,
        },
        uri_source: UriSource::Client,
        strip_params: true,
        reject_status: 403,
        reject_status_expired: 410,
    };
    (cfg, secret.as_bytes().to_vec())
}

#[test]
fn verify_valid_signed_url() {
    let (cfg, secret) = test_config("test-secret");
    let ts = now_ts();
    let path = "/resource";
    let message = format!("{path}\n{ts}");
    let digest = hmac_sha256(&secret, message.as_bytes());
    let sig = encode_hex_lower(&digest);
    let uri = uri(&format!("{path}?ts={ts}&sig={sig}"));

    let result = verify_signed_url(&cfg, &secret, &uri, None, now_ts()).ok().expect("verify");
    assert!(result.is_ok(), "expected valid signature");
}

#[test]
fn verify_rejects_expired_by_max_age() {
    let (cfg, secret) = test_config("test-secret");
    let ts = now_ts().saturating_sub(7200);
    let path = "/resource";
    let message = format!("{path}\n{ts}");
    let digest = hmac_sha256(&secret, message.as_bytes());
    let sig = encode_hex_lower(&digest);
    let uri = uri(&format!("{path}?ts={ts}&sig={sig}"));

    let result = verify_signed_url(&cfg, &secret, &uri, None, now_ts()).ok().expect("verify");
    assert!(matches!(result, Err(SignedUrlError::Expired)));
}

#[test]
fn verify_rejects_bad_signature() {
    let (cfg, secret) = test_config("test-secret");
    let ts = now_ts();
    let uri = uri(&format!("/resource?ts={ts}&sig=deadbeef"));

    let result = verify_signed_url(&cfg, &secret, &uri, None, now_ts()).ok().expect("verify");
    assert!(matches!(result, Err(SignedUrlError::InvalidSignature)));
}

// Body signatures, more dialects

fn decide(filter: &HmacVerifyFilter, name: &str, value: &str, body: &[u8]) -> Option<u16> {
    let mut headers = HeaderMap::new();
    headers.insert(
        http::header::HeaderName::from_bytes(name.as_bytes()).unwrap(),
        HeaderValue::from_str(value).unwrap(),
    );
    let req = webhook(headers);
    let mut ctx = HttpFilterContext::new(&req);
    match filter.on_request_body(&mut ctx, &Some(body.to_vec()), true) {
        FilterAction::Continue => None,
        FilterAction::Reject(r) => Some(r.status),
        FilterAction::BodyDone => panic!("unexpected action"),
    }
}

#[test]
fn known_digests() {
    assert_eq!(
        encode_hex_lower(&hmac_sha256(b"key", b"The quick brown fox jumps over the lazy dog")),
        "f7bc83f430538424b13298e6aa6fb143ef4d59a14946175997479dbc2d1a3cd8"
    );
    assert_eq!(
        github_signature(b"key", b"The quick brown fox jumps over the lazy dog"),
        "sha256=f7bc83f430538424b13298e6aa6fb143ef4d59a14946175997479dbc2d1a3cd8"
    );
}

#[test]
fn hex_round_trip() {
    assert_eq!(encode_hex_lower(&[0x00, 0xab, 0x7f]), "00ab7f");
    assert_eq!(decode_hex("00AB7f").unwrap(), vec![0x00, 0xab, 0x7f]);
    assert!(decode_hex("abc").is_none());
    assert!(decode_hex("zz").is_none());
}

#[test]
fn raw_hex_and_base64_bodies() {
    let hex = hmac_filter("secret: s\ndialect: raw_hex\nheader: X-Sig");
    let digest = hmac_sha256(b"s", b"payload");
    assert_eq!(decide(&hex, "x-sig", &encode_hex_lower(&digest), b"payload"), None);
    assert_eq!(decide(&hex, "x-sig", &encode_hex_lower(&digest), b"other"), Some(401));
    let base64 = hmac_filter("secret: s\ndialect: raw_base64\nheader: X-Sig");
    let encoded = base64::Engine::encode(&base64::engine::general_purpose::STANDARD, &digest);
    assert_eq!(decide(&base64, "x-sig", &encoded, b"payload"), None);
    assert_eq!(decide(&base64, "x-sig", "!!", b"payload"), Some(401));
}

#[test]
fn github_header_for_sha1() {
    let filter = hmac_filter("secret: s\ndialect: github\nheader: X-Hub-Signature");
    let sha1 = format!("sha1={}", encode_hex_lower(&hmac_sha1(b"s", b"payload")));
    assert_eq!(decide(&filter, "x-hub-signature", &sha1, b"payload"), None);
    assert_eq!(decide(&filter, "x-hub-signature", "sha1=00", b"payload"), Some(401));
}

#[test]
fn body_filter_settings() {
    let filter = hmac_filter("secret: s\ndialect: github");
    assert_eq!(filter.name(), "hmac_verify");
    assert_eq!(filter.request_body_access(), BodyAccess::ReadOnly);
    assert_eq!(filter.request_body_mode(), BodyMode::StreamBuffer { max_bytes: Some(1024) });
    assert!(filter.needs_request_context());
    let req = webhook(HeaderMap::new());
    let mut ctx = HttpFilterContext::new(&req);
    assert!(matches!(filter.on_request(&mut ctx), FilterAction::Continue));
}

#[test]
fn raw_dialects_need_a_header_name() {
    let mut cfg = github_cfg();
    cfg.dialect = DialectKind::RawHex;
    let err = HmacVerifyFilter::from_config(cfg, &Environment::new()).err().unwrap().message();
    assert!(err.contains("header"), "got: {err}");
}

#[test]
fn secrets_come_from_exactly_one_place() {
    let mut env = Environment::new();
    env.set("KEY".into(), Ok("from-env".into()));
    let fields = |secret: Option<&str>, var: Option<&str>| SecretFields {
        secret: secret.map(str::to_owned),
        secret_env_var: var.map(str::to_owned),
    };
    assert_eq!(resolve_secret(&fields(Some("a"), None), &env).ok().unwrap(), b"a");
    assert_eq!(resolve_secret(&fields(None, Some("KEY")), &env).ok().unwrap(), b"from-env");
    let message = |f: SecretFields| resolve_secret(&f, &env).err().unwrap().message("hmac_verify");
    assert!(message(fields(None, Some("GONE"))).contains("GONE"));
    assert!(message(fields(Some("a"), Some("KEY"))).starts_with("hmac_verify:"));
    assert!(message(fields(None, None)).starts_with("hmac_verify:"));
}

// Signed links, more answers

fn verdict(query: &str, expiry: Option<&str>, now: u64) -> Option<SignedUrlError> {
    let (mut cfg, secret) = test_config("test-secret");
    cfg.expiry_param = expiry.map(str::to_owned);
    verify_signed_url(&cfg, &secret, &uri(&format!("/resource?{query}")), None, now).ok().unwrap().err()
}

#[test]
fn each_refusal_of_a_link() {
    assert!(matches!(verdict("ts=5", None, 5), Some(SignedUrlError::MissingParam)));
    assert!(matches!(verdict("sig=00", None, 5), Some(SignedUrlError::MissingParam)));
    assert!(matches!(verdict("ts=x&sig=00", None, 5), Some(SignedUrlError::ParseError)));
    assert!(matches!(verdict("ts=5&sig=00", None, 9999), Some(SignedUrlError::Expired)));
    assert!(matches!(verdict("ts=100&sig=00", None, 5), Some(SignedUrlError::FutureTimestamp)));
    assert!(matches!(verdict("ts=5&sig=zz", None, 5), Some(SignedUrlError::InvalidEncoding)));
    assert!(matches!(verdict("ts=5&sig=00", None, 5), Some(SignedUrlError::InvalidSignature)));
}

#[test]
fn link_settings_are_checked() {
    let (mut cfg, _) = test_config("s");
    assert!(validate_signed_url_config(&cfg).is_ok());
    cfg.max_age_seconds = None;
    let message = |cfg: &SignedUrlConfig| validate_signed_url_config(cfg).err().unwrap().message();
    assert_eq!(
        message(&cfg),
        "signed_url: 'max_age_seconds' is required when 'expiry_param' is absent"
    );
    let (mut cfg, _) = test_config("s");
    cfg.message.parts = Vec::new();
    assert_eq!(message(&cfg), "signed_url: message.parts must not be empty");
    let (mut cfg, _) = test_config("s");
    cfg.message.parts = vec![MessagePart::Expiry];
    assert_eq!(message(&cfg), "signed_url: message part 'expiry' requires 'expiry_param'");
}

#[test]
fn only_signature_parameters_are_stripped() {
    let (cfg, _) = test_config("s");
    assert_eq!(
        strip_signature_params(&cfg, &uri("/p?a=1&sig=x&ts=2&b=3"), None),
        "/p?a=1&b=3"
    );
    assert_eq!(strip_signature_params(&cfg, &uri("/p?sig=x&ts=2"), None), "/p");
    assert_eq!(split_path_query("/a?b=c"), ("/a".to_owned(), Some("b=c".to_owned())));
    assert_eq!(split_path_query("/a"), ("/a".to_owned(), None));
}

#[test]
fn rewritten_path_can_be_what_is_signed() {
    let (mut cfg, secret) = test_config("test-secret");
    cfg.uri_source = UriSource::Rewritten;
    let sig = encode_hex_lower(&hmac_sha256(&secret, b"/inner\n5"));
    let link = uri(&format!("/outer?ts=5&sig={sig}"));
    assert!(verify_signed_url(&cfg, &secret, &link, Some("/inner"), 5).ok().unwrap().is_ok());
    assert!(verify_signed_url(&cfg, &secret, &link, Some("/other"), 5).ok().unwrap().is_err());
}
