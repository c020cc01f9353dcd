//! A signed URL filter in front of a router.

use http::HeaderMap;
use praxis::action::FilterAction;
use praxis::environment::Environment;
use praxis::request::{HttpFilterContext, Request, Uri};
use praxis::route::Route;
use praxis::router::filter::RouterFilter;
use praxis::url_sign::config::{
    Algorithm, CanonicalConfig, Encoding, ExpiresConfig, Placement, SecretSourceConfig, UrlSignConfig,
};
use praxis::url_sign::filter::UrlSignFilter;
use praxis::url_sign::verify::compute_mac;

const NOW: u64 = 1_700_000_000;

fn signer(secret: &str, path_prefix: Option<&str>) -> UrlSignFilter {
    let cfg = UrlSignConfig {
        secret: Some(SecretSourceConfig { value: Some(secret.to_owned()), env_var: None }),
        secrets: None,
        algorithm: Algorithm::HmacSha256,
        placement: if path_prefix.is_some() { Placement::Path } else { Placement::Query },
        signature_param: "sig".to_owned(),
        expires_param: "expires".to_owned(),
        key_id_param: None,
        path_prefix: path_prefix.map(str::to_owned),
        expires: ExpiresConfig::default(),
        encoding: Encoding::Hex,
        strip_signature: true,
        canonical: CanonicalConfig::default(),
    };
    UrlSignFilter::from_config(cfg, &Environment::new()).ok().unwrap()
}

fn router(prefix: &str) -> RouterFilter {
    RouterFilter::new(vec![Route {
        path_prefix: prefix.to_owned(),
        cluster: "backend".to_owned(),
        ..Default::default()
    }])
    .ok()
    .unwrap()
}

/// The cluster that a request reaches, or the status with which it is refused.
fn send(signer: &UrlSignFilter, router: &RouterFilter, target: &str) -> Result<String, u16> {
    let parsed: http::Uri = target.parse().unwrap();
    let request = Request {
        method: "GET".to_owned(),
        uri: Uri {
            scheme: None,
            authority: None,
            path: parsed.path().to_owned(),
            query: parsed.query().map(str::to_owned),
        },
        headers: HeaderMap::new(),
    };
    let mut ctx = HttpFilterContext::new(&request);
    for step in 0..2 {
        let action = if step == 0 { signer.on_request(&mut ctx, NOW) } else { router.on_request(&mut ctx) };
        if let FilterAction::Reject(rejection) = action {
            return Err(rejection.status);
        }
    }
    Ok(ctx.cluster.unwrap())
}

fn sign_query(secret: &str, path: &str, query: &str, expires: &str) -> String {
    compute_mac(secret.as_bytes(), &format!("GET\n{path}\n{query}\n{expires}\n"), Encoding::Hex)
}

#[test]
fn valid_signed_query_reaches_backend() {
    let expires = "9999999999";
    let sig = sign_query("integration-test-secret", "/files/report.pdf", "token=abc", expires);
    let path = format!("/files/report.pdf?token=abc&expires={expires}&sig={sig}");
    let reached = send(&signer("integration-test-secret", None), &router("/"), &path);
    assert_eq!(reached, Ok("backend".to_owned()), "valid signature should reach backend");
}

#[test]
fn unsigned_request_rejected_with_403() {
    let reached = send(&signer("secret", None), &router("/"), "/public");
    assert_eq!(reached, Err(403), "unsigned request should be rejected");
}

#[test]
fn path_mode_strips_signature_and_routes() {
    let expires = "9999999999";
    let resource = "/files/report.pdf";
    let sig = sign_query("path-secret", resource, "", expires);
    let path = format!("/s/{expires}/{sig}{resource}");
    let reached = send(&signer("path-secret", Some("/s")), &router("/files/"), &path);
    assert_eq!(reached, Ok("backend".to_owned()), "path-mode signed URL should route after strip");
}

#[test]
fn query_mode_encoded_path_routes_on_decoded_path_with_valid_mac() {
    let expires = "9999999999";
    let decoded_path = "/files/report.pdf";
    let sig = sign_query("qa-encoding-secret", decoded_path, "token=abc", expires);
    let encoded_path = format!("/files%2freport.pdf?token=abc&expires={expires}&sig={sig}");
    let signer = signer("qa-encoding-secret", None);
    assert_eq!(
        send(&signer, &router("/"), &encoded_path),
        Ok("backend".to_owned()),
        "query mode must route on decoded path after percent-encoded wire path verifies"
    );
    assert_eq!(send(&signer, &router("/files"), &encoded_path), Ok("backend".to_owned()));
}
