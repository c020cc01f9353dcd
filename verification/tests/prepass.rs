//! Declared extracts that run in one pass, and the counter of such passes.

use praxis::bench_metrics::{prepass_apply, prepass_apply_count, reset, PrepassMetrics};
use praxis::json_body::prepass::{ExtractTarget, JsonError, JsonExtractDecl, JsonExtractPrePass, MapStore};

fn metadata(pointer: &str, key: &str) -> JsonExtractDecl {
    JsonExtractDecl { pointer: pointer.to_owned(), dest: ExtractTarget::Metadata(key.to_owned()) }
}

fn header(pointer: &str, name: &str) -> JsonExtractDecl {
    JsonExtractDecl { pointer: pointer.to_owned(), dest: ExtractTarget::Header(name.to_owned()) }
}

#[test]
fn empty_declarations_returns_none() {
    let result = JsonExtractPrePass::compile(vec![]).unwrap();
    assert!(result.is_none(), "no declarations means no pre-pass");
}

#[test]
fn single_extract_populates_metadata() {
    let prepass = JsonExtractPrePass::compile(vec![metadata("/model", "req.model")])
        .unwrap()
        .expect("should produce a pre-pass");

    let body = br#"{"model":"gpt-4","stream":true}"#;
    let mut store = MapStore::new();
    prepass.apply(body, &mut store).unwrap();

    assert_eq!(store.metadata.get("req.model").map(String::as_str), Some("gpt-4"));
}

#[test]
fn multiple_extracts_single_pass() {
    let prepass = JsonExtractPrePass::compile(vec![
        metadata("/model", "req.model"),
        metadata("/stream", "req.stream"),
    ])
    .unwrap()
    .expect("should produce a pre-pass");

    let body = br#"{"model":"gpt-4","stream":true}"#;
    let mut store = MapStore::new();
    prepass.apply(body, &mut store).unwrap();

    assert_eq!(store.metadata.get("req.model").map(String::as_str), Some("gpt-4"));
    assert_eq!(store.metadata.get("req.stream").map(String::as_str), Some("true"));
}

#[test]
fn extract_to_header() {
    let prepass = JsonExtractPrePass::compile(vec![header("/model", "x-model")])
        .unwrap()
        .expect("should produce a pre-pass");

    let body = br#"{"model":"gpt-4"}"#;
    let mut store = MapStore::new();
    prepass.apply(body, &mut store).unwrap();

    assert_eq!(store.request_headers, &[("x-model".to_owned(), "gpt-4".to_owned())]);
}

#[test]
fn invalid_json_returns_error() {
    let prepass = JsonExtractPrePass::compile(vec![metadata("/model", "req.model")])
        .unwrap()
        .expect("should produce a pre-pass");

    let result = prepass.apply(b"not json", &mut MapStore::new());
    assert!(result.is_err(), "should fail on invalid JSON");
    assert_eq!(result.unwrap_err(), JsonError::InvalidJson);
}

#[test]
fn duplicate_pointer_rejected() {
    let result = JsonExtractPrePass::compile(vec![metadata("/model", "a"), metadata("/model", "b")]);
    assert!(result.is_err(), "duplicate extract pointers should fail compilation");
}

#[test]
fn missing_pointer_does_not_fail() {
    let prepass = JsonExtractPrePass::compile(vec![metadata("/nonexistent", "nope")])
        .unwrap()
        .expect("should produce a pre-pass");

    let body = br#"{"model":"gpt-4"}"#;
    let mut store = MapStore::new();
    prepass.apply(body, &mut store).unwrap();

    assert!(
        store.metadata.get("nope").is_none(),
        "missing pointer should not write metadata"
    );
}

#[test]
fn nesting_beyond_the_limit_is_an_error() {
    let prepass = JsonExtractPrePass::compile(vec![metadata("/a", "a")]).unwrap().unwrap();
    let deep = format!("{}1{}", "[".repeat(130), "]".repeat(130));
    assert_eq!(
        prepass.apply(deep.as_bytes(), &mut MapStore::new()).unwrap_err(),
        JsonError::Depth
    );
}

#[test]
fn bad_declarations_are_refused() {
    assert_eq!(
        JsonExtractPrePass::compile(vec![metadata("model", "a")]).err(),
        Some(JsonError::Compile)
    );
    assert_eq!(
        JsonExtractPrePass::compile(vec![metadata("/model", "")]).err(),
        Some(JsonError::Compile)
    );
}

#[test]
fn counter_counts_until_reset() {
    let mut metrics = PrepassMetrics::new();
    prepass_apply(&mut metrics);
    prepass_apply(&mut metrics);
    assert_eq!(prepass_apply_count(&metrics), 2);
    reset(&mut metrics);
    assert_eq!(prepass_apply_count(&metrics), 0);
}
