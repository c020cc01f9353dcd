//! JSON body rewriting, extraction and the filter around them.

use praxis::action::{BodyAccess, BodyMode, FilterAction};
use praxis::context::FilterContext;
use praxis::json_body::config::{
    ExtractOpConfig, JsonBodyConfig, OnInvalidBehavior, PointerOpConfig, StructuredMetadataRef,
    DEFAULT_JSON_BODY_MAX_BYTES,
};
use praxis::json_body::error::RewriteError;
use praxis::json_body::extract::{extract, ExtractOp};
use praxis::json_body::filter::{fit_response, JsonBodyFilter};
use praxis::json_body::ops::{ExtractDest, OpKind};
use praxis::json_body::pointer::compile_pointer;
use praxis::json_body::request_ops::{
    apply_request, extract_request, extract_request_metadata, RequestOps,
};
use praxis::json_body::rewrite::{rewrite, rewrite_output_capacity, ResolvedOp};

fn resolved(kind: OpKind, pointer: &str, payload: Option<&str>) -> ResolvedOp {
    ResolvedOp {
        tokens: compile_pointer(pointer).unwrap(),
        kind,
        payload: payload.map(|s| s.as_bytes().to_vec()),
    }
}

fn rewrite_str(input: &str, ops: &[ResolvedOp]) -> Result<String, RewriteError> {
    rewrite(input.as_bytes(), ops).map(|b| String::from_utf8(b).unwrap())
}

fn json(text: &str) -> serde_json::Value {
    serde_json::from_str(text).unwrap()
}

fn structured(ctx: &FilterContext, namespace: &str, key: &str) -> Option<serde_json::Value> {
    ctx.get_structured_metadata(namespace, key)
        .map(|bytes| serde_json::from_slice(bytes).unwrap())
}

fn text(value: &serde_yaml::Value, key: &str) -> Option<String> {
    value.get(key).map(|v| v.as_str().unwrap().to_owned())
}

fn list(value: &serde_yaml::Value, key: &str) -> Vec<serde_yaml::Value> {
    value
        .get(key)
        .map(|v| v.as_sequence().unwrap().clone())
        .unwrap_or_default()
}

fn reference(value: &serde_yaml::Value) -> Option<StructuredMetadataRef> {
    value.get("structured_metadata").map(|m| StructuredMetadataRef {
        namespace: text(m, "namespace").unwrap(),
        key: text(m, "key").unwrap(),
    })
}

fn pointer_ops(value: &serde_yaml::Value, key: &str) -> Vec<PointerOpConfig> {
    list(value, key)
        .iter()
        .map(|op| PointerOpConfig {
            pointer: text(op, "pointer").unwrap(),
            value: op.get("value").map(|v| serde_json::to_vec(v).unwrap()),
            metadata: text(op, "metadata"),
            structured_metadata: reference(op),
        })
        .collect()
}

fn extract_ops(value: &serde_yaml::Value, key: &str) -> Vec<ExtractOpConfig> {
    list(value, key)
        .iter()
        .map(|op| ExtractOpConfig {
            pointer: text(op, "pointer").unwrap(),
            metadata: text(op, "metadata"),
            structured_metadata: reference(op),
        })
        .collect()
}

fn pointers(value: &serde_yaml::Value, key: &str) -> Vec<String> {
    list(value, key)
        .iter()
        .map(|p| p.as_str().unwrap().to_owned())
        .collect()
}

fn config(yaml: &str) -> JsonBodyConfig {
    let value: serde_yaml::Value = serde_yaml::from_str(yaml).unwrap();
    JsonBodyConfig {
        request_add: pointer_ops(&value, "request_add"),
        request_remove: pointers(&value, "request_remove"),
        request_replace: pointer_ops(&value, "request_replace"),
        request_extract: extract_ops(&value, "request_extract"),
        response_add: pointer_ops(&value, "response_add"),
        response_remove: pointers(&value, "response_remove"),
        response_replace: pointer_ops(&value, "response_replace"),
        response_extract: extract_ops(&value, "response_extract"),
        max_body_bytes: value
            .get("max_body_bytes")
            .map_or(DEFAULT_JSON_BODY_MAX_BYTES, |v| v.as_u64().unwrap() as usize),
        on_invalid: match text(&value, "on_invalid").as_deref() {
            None | Some("continue") => OnInvalidBehavior::Continue,
            Some("reject") => OnInvalidBehavior::Reject,
            Some("error") => OnInvalidBehavior::Error,
            Some(other) => panic!("unknown on_invalid: {other}"),
        },
    }
}

fn parse_filter(yaml: &str) -> JsonBodyFilter {
    JsonBodyFilter::from_config(&config(yaml)).unwrap()
}

fn parse_err(yaml: &str) -> String {
    JsonBodyFilter::from_config(&config(yaml)).err().unwrap().message()
}

// Config

#[test]
fn parses_header_like_config() {
    let filter = parse_filter(
        r#"
        request_add:
          - pointer: /tenant
            value: acme
        request_remove:
          - /password
        request_replace:
          - pointer: /model
            value: forced-model
        "#,
    );
    assert_eq!(filter.name(), "json_body", "filter type name");
}

#[test]
fn rejects_empty_ops() {
    let err = parse_err("{}");
    assert!(err.contains("at least one"), "got: {err}");
}

#[test]
fn rejects_response_add() {
    let err = parse_err(
        r#"
        response_add:
          - pointer: /x
            value: 1
        "#,
    );
    assert!(err.contains("response_add"), "got: {err}");
    assert!(err.contains("not supported"), "got: {err}");
}

#[test]
fn rejects_response_replace() {
    let err = parse_err(
        r#"
        response_replace:
          - pointer: /x
            value: 1
        "#,
    );
    assert!(err.contains("response_replace"), "got: {err}");
    assert!(err.contains("not supported"), "got: {err}");
}

#[test]
fn rejects_overlapping_pointers() {
    let err = parse_err(
        r#"
        request_remove:
          - /a
          - /a/b
        "#,
    );
    assert!(err.contains("overlapping"), "got: {err}");
}

#[test]
fn rejects_same_pointer_twice() {
    let err = parse_err(
        r#"
        request_add:
          - pointer: /a
            value: 1
        request_remove:
          - /a
        "#,
    );
    assert!(err.contains("overlapping"), "got: {err}");
}

#[test]
fn rejects_root_remove() {
    let err = parse_err("request_remove:\n  - \"\"");
    assert!(err.contains("document root"), "got: {err}");
}

#[test]
fn rejects_missing_value_source() {
    let err = parse_err(
        r#"
        request_add:
          - pointer: /a
        "#,
    );
    assert!(err.contains("exactly one"), "got: {err}");
}

#[test]
fn rejects_both_value_and_metadata() {
    let err = parse_err(
        r#"
        request_add:
          - pointer: /a
            value: 1
            metadata: foo
        "#,
    );
    assert!(
        err.contains("exactly one") || err.contains("unknown field") || err.contains("data did not match"),
        "got: {err}"
    );
}

// Tokenizer: objects

#[test]
fn replace_object_field() {
    let out = rewrite_str(
        r#"{"model":"old","n":1}"#,
        &[resolved(OpKind::Replace, "/model", Some(r#""forced""#))],
    )
    .unwrap();
    assert_eq!(out, r#"{"model":"forced","n":1}"#);
}

#[test]
fn replace_missing_is_noop() {
    let out = rewrite_str(r#"{"n":1}"#, &[resolved(OpKind::Replace, "/model", Some(r#""x""#))]).unwrap();
    assert_eq!(out, r#"{"n":1}"#);
}

#[test]
fn remove_first_middle_last_only() {
    assert_eq!(
        rewrite_str(r#"{"a":1,"b":2,"c":3}"#, &[resolved(OpKind::Remove, "/a", None)]).unwrap(),
        r#"{"b":2,"c":3}"#
    );
    assert_eq!(
        rewrite_str(r#"{"a":1,"b":2,"c":3}"#, &[resolved(OpKind::Remove, "/b", None)]).unwrap(),
        r#"{"a":1,"c":3}"#
    );
    assert_eq!(
        rewrite_str(r#"{"a":1,"b":2,"c":3}"#, &[resolved(OpKind::Remove, "/c", None)]).unwrap(),
        r#"{"a":1,"b":2}"#
    );
    assert_eq!(
        rewrite_str(r#"{"a":1}"#, &[resolved(OpKind::Remove, "/a", None)]).unwrap(),
        "{}"
    );
}

#[test]
fn remove_missing_is_noop() {
    let out = rewrite_str(r#"{"a":1}"#, &[resolved(OpKind::Remove, "/nope", None)]).unwrap();
    assert_eq!(out, r#"{"a":1}"#);
}

#[test]
fn add_missing_object_field() {
    let out = rewrite_str(r#"{"a":1}"#, &[resolved(OpKind::Add, "/b", Some("2"))]).unwrap();
    assert_eq!(out, r#"{"a":1,"b":2}"#);
}

#[test]
fn add_to_empty_object() {
    let out = rewrite_str("{}", &[resolved(OpKind::Add, "/k", Some(r#""v""#))]).unwrap();
    assert_eq!(out, r#"{"k":"v"}"#);
}

#[test]
fn add_existing_object_key_overwrites() {
    let out = rewrite_str(r#"{"a":1}"#, &[resolved(OpKind::Add, "/a", Some("9"))]).unwrap();
    assert_eq!(out, r#"{"a":9}"#);
}

#[test]
fn missing_parent_skips_add() {
    let out = rewrite_str(r#"{"a":1}"#, &[resolved(OpKind::Add, "/x/y", Some("1"))]).unwrap();
    assert_eq!(out, r#"{"a":1}"#);
}

#[test]
fn duplicate_keys_remove_all_matches() {
    let out = rewrite_str(r#"{"a":1,"a":2}"#, &[resolved(OpKind::Remove, "/a", None)]).unwrap();
    assert_eq!(out, "{}");
}

#[test]
fn duplicate_keys_replace_all_matches() {
    let out = rewrite_str(r#"{"a":1,"a":2,"b":3}"#, &[resolved(OpKind::Replace, "/a", Some("9"))]).unwrap();
    assert_eq!(out, r#"{"a":9,"a":9,"b":3}"#);
}

#[test]
fn duplicate_keys_add_replaces_all_existing() {
    let out = rewrite_str(r#"{"a":1,"a":2}"#, &[resolved(OpKind::Add, "/a", Some("9"))]).unwrap();
    assert_eq!(out, r#"{"a":9,"a":9}"#);
}

#[test]
fn untargeted_duplicate_keys_are_preserved() {
    let out = rewrite_str(r#"{"a":1,"a":2}"#, &[resolved(OpKind::Add, "/b", Some("3"))]).unwrap();
    assert_eq!(out, r#"{"a":1,"a":2,"b":3}"#);
}

#[test]
fn remove_object_valued_field() {
    let out = rewrite_str(
        r#"{"keep":1,"drop":{"x":2}}"#,
        &[resolved(OpKind::Remove, "/drop", None)],
    )
    .unwrap();
    assert_eq!(out, r#"{"keep":1}"#);
}

#[test]
fn nested_replace() {
    let out = rewrite_str(
        r#"{"user":{"id":"old","n":1}}"#,
        &[resolved(OpKind::Replace, "/user/id", Some(r#""new""#))],
    )
    .unwrap();
    assert_eq!(out, r#"{"user":{"id":"new","n":1}}"#);
}

#[test]
fn unused_nested_object_and_array_are_copied() {
    let out = rewrite_str(
        r#"{"model":"old","obj":{"id":1,"tag":"bench"},"arr":["a","b","0"]}"#,
        &[
            resolved(OpKind::Replace, "/model", Some(r#""forced""#)),
            resolved(OpKind::Add, "/tenant", Some(r#""acme""#)),
        ],
    )
    .unwrap();
    let got: serde_json::Value = serde_json::from_str(&out).unwrap();
    assert_eq!(
        got,
        json(r#"{"model":"forced","obj":{"id":1,"tag":"bench"},"arr":["a","b","0"],"tenant":"acme"}"#)
    );
}

#[test]
fn escaped_pointer_key() {
    let out = rewrite_str(r#"{"a/b":1}"#, &[resolved(OpKind::Replace, "/a~1b", Some("2"))]).unwrap();
    assert_eq!(out, r#"{"a/b":2}"#);
}

#[test]
fn escaped_key_extract_and_replace() {
    let out = rewrite_str(
        r#"{"a/b":{"x":1},"keep":true}"#,
        &[resolved(OpKind::Replace, "/a~1b/x", Some("2"))],
    )
    .unwrap();
    assert_eq!(out, r#"{"a/b":{"x":2},"keep":true}"#);
}

#[test]
fn root_replace() {
    let out = rewrite_str(r#"{"a":1}"#, &[resolved(OpKind::Replace, "", Some("[1,2]"))]).unwrap();
    assert_eq!(out, "[1,2]");
}

// Tokenizer: arrays

#[test]
fn array_replace_index() {
    let out = rewrite_str("[1,2,3]", &[resolved(OpKind::Replace, "/1", Some("9"))]).unwrap();
    assert_eq!(out, "[1,9,3]");
}

#[test]
fn array_remove_index() {
    assert_eq!(
        rewrite_str("[1,2,3]", &[resolved(OpKind::Remove, "/0", None)]).unwrap(),
        "[2,3]"
    );
    assert_eq!(
        rewrite_str("[1,2,3]", &[resolved(OpKind::Remove, "/1", None)]).unwrap(),
        "[1,3]"
    );
    assert_eq!(
        rewrite_str("[1,2,3]", &[resolved(OpKind::Remove, "/2", None)]).unwrap(),
        "[1,2]"
    );
}

#[test]
fn array_insert_at_index() {
    let out = rewrite_str("[1,3]", &[resolved(OpKind::Add, "/1", Some("2"))]).unwrap();
    assert_eq!(out, "[1,2,3]");
}

#[test]
fn array_append() {
    let out = rewrite_str("[1]", &[resolved(OpKind::Add, "/-", Some("2"))]).unwrap();
    assert_eq!(out, "[1,2]");
}

#[test]
fn array_append_empty() {
    let out = rewrite_str("[]", &[resolved(OpKind::Add, "/-", Some("1"))]).unwrap();
    assert_eq!(out, "[1]");
}

#[test]
fn array_insert_at_length() {
    let out = rewrite_str("[1,2]", &[resolved(OpKind::Add, "/2", Some("3"))]).unwrap();
    assert_eq!(out, "[1,2,3]");
}

#[test]
fn array_out_of_range_add_skipped() {
    let out = rewrite_str("[1]", &[resolved(OpKind::Add, "/3", Some("9"))]).unwrap();
    assert_eq!(out, "[1]");
}

#[test]
fn array_append_on_object_is_skipped() {
    let out = rewrite_str(r#"{"a":1}"#, &[resolved(OpKind::Add, "/-", Some("2"))]).unwrap();
    assert_eq!(out, r#"{"a":1}"#, "add / - is array-only; objects are left unchanged");
}

#[test]
fn array_append_does_not_replace_object_dash_key() {
    let out = rewrite_str(r#"{"-":1}"#, &[resolved(OpKind::Add, "/-", Some("2"))]).unwrap();
    assert_eq!(out, r#"{"-":1}"#, "array append must not rewrite object key '-'");
}

#[test]
fn numeric_pointer_replace_on_object_key() {
    let out = rewrite_str(r#"{"0":1,"a":2}"#, &[resolved(OpKind::Replace, "/0", Some("9"))]).unwrap();
    assert_eq!(out, r#"{"0":9,"a":2}"#);
}

#[test]
fn numeric_pointer_add_on_object_emits_key() {
    let out = rewrite_str(r#"{"a":1}"#, &[resolved(OpKind::Add, "/0", Some("9"))]).unwrap();
    let got: serde_json::Value =
        serde_json::from_str(&out).unwrap_or_else(|e| panic!("rewrite must emit valid JSON, got {out:?}: {e}"));
    assert_eq!(got, json(r#"{"a": 1, "0": 9}"#));
}

// Invalid JSON

#[test]
fn invalid_json_errors() {
    assert_eq!(rewrite_str("{", &[]).unwrap_err(), RewriteError::InvalidJson);
    assert_eq!(rewrite_str(r#"{"a":1,}"#, &[]).unwrap_err(), RewriteError::InvalidJson);
    assert_eq!(rewrite_str("true extra", &[]).unwrap_err(), RewriteError::InvalidJson);
}

#[test]
fn depth_exceeded_errors() {
    let mut nested = String::from("1");
    for _ in 0..130 {
        nested = format!("[{nested}]");
    }
    assert_eq!(rewrite_str(&nested, &[]).unwrap_err(), RewriteError::Depth);
}

#[test]
fn pretty_printed_object_rewrites() {
    let input = "{\n  \"a\": 1,\n  \"b\": 2\n}";
    let out = rewrite_str(input, &[resolved(OpKind::Remove, "/b", None)]).unwrap();
    assert_eq!(out, r#"{"a":1}"#);
}

// Filter hooks

#[test]
fn request_rewrite_at_eos() {
    let filter = parse_filter(
        r#"
        request_replace:
          - pointer: /model
            value: forced-model
        request_remove:
          - /secret
        request_add:
          - pointer: /tenant
            value: acme
        "#,
    );
    let mut ctx = FilterContext::new();
    let mut body = Some(br#"{"model":"old","secret":"x"}"#.to_vec());
    let action = filter.on_request_body(&mut ctx, &mut body, true).unwrap();
    assert!(matches!(action, FilterAction::BodyDone), "EOS rewrite returns BodyDone");
    let got = serde_json::from_slice::<serde_json::Value>(body.as_ref().unwrap()).unwrap();
    assert_eq!(got, json(r#"{"model":"forced-model","tenant":"acme"}"#));
}

#[test]
fn request_continues_before_eos() {
    let filter = parse_filter(
        r#"
        request_remove:
          - /a
        "#,
    );
    let mut ctx = FilterContext::new();
    let mut body = Some(br#"{"a":1}"#.to_vec());
    let action = filter.on_request_body(&mut ctx, &mut body, false).unwrap();
    assert!(matches!(action, FilterAction::Continue), "partial chunks pass through");
    assert_eq!(body.as_ref().unwrap().as_slice(), br#"{"a":1}"#);
}

#[test]
fn metadata_value_is_injected_as_json_string() {
    let filter = parse_filter(
        r#"
        request_add:
          - pointer: /method
            metadata: json_rpc.method
        "#,
    );
    let mut ctx = FilterContext::new();
    ctx.set_metadata("json_rpc.method".to_owned(), "eth_blockNumber".to_owned());
    let mut body = Some(br#"{"jsonrpc":"2.0"}"#.to_vec());
    let action = filter.on_request_body(&mut ctx, &mut body, true).unwrap();
    assert!(matches!(action, FilterAction::BodyDone));
    let got = serde_json::from_slice::<serde_json::Value>(body.as_ref().unwrap()).unwrap();
    assert_eq!(got["method"], "eth_blockNumber");
}

#[test]
fn missing_metadata_skips_op() {
    let filter = parse_filter(
        r#"
        request_add:
          - pointer: /rpc/method
            metadata: json_rpc.method
        "#,
    );
    let mut ctx = FilterContext::new();
    let mut body = Some(br#"{"jsonrpc":"2.0"}"#.to_vec());
    let action = filter.on_request_body(&mut ctx, &mut body, true).unwrap();
    assert!(matches!(action, FilterAction::BodyDone));
    let got = serde_json::from_slice::<serde_json::Value>(body.as_ref().unwrap()).unwrap();
    assert_eq!(got, json(r#"{"jsonrpc":"2.0"}"#));
}

#[test]
fn structured_metadata_injected_as_json() {
    let filter = parse_filter(
        r#"
        request_add:
          - pointer: /ext
            structured_metadata:
              namespace: ext
              key: payload
        "#,
    );
    let mut ctx = FilterContext::new();
    ctx.set_structured_metadata("ext".to_owned(), "payload".to_owned(), br#"{"k":1}"#.to_vec());
    let mut body = Some(br#"{"a":1}"#.to_vec());
    let action = filter.on_request_body(&mut ctx, &mut body, true).unwrap();
    assert!(matches!(action, FilterAction::BodyDone));
    let got = serde_json::from_slice::<serde_json::Value>(body.as_ref().unwrap()).unwrap();
    assert_eq!(got, json(r#"{"a":1,"ext":{"k":1}}"#));
}

#[test]
fn invalid_json_continue_leaves_body() {
    let filter = parse_filter(
        r#"
        on_invalid: continue
        request_remove:
          - /a
        "#,
    );
    let mut ctx = FilterContext::new();
    let mut body = Some(b"not-json".to_vec());
    let action = filter.on_request_body(&mut ctx, &mut body, true).unwrap();
    assert!(matches!(action, FilterAction::Continue));
    assert_eq!(body.as_ref().unwrap().as_slice(), b"not-json");
}

#[test]
fn invalid_json_reject() {
    let filter = parse_filter(
        r#"
        on_invalid: reject
        request_remove:
          - /a
        "#,
    );
    let mut ctx = FilterContext::new();
    let mut body = Some(b"{".to_vec());
    let action = filter.on_request_body(&mut ctx, &mut body, true).unwrap();
    assert!(
        matches!(action, FilterAction::Reject(r) if r.status == 400),
        "invalid JSON with on_invalid reject"
    );
}

#[test]
fn invalid_json_error() {
    let filter = parse_filter(
        r#"
        on_invalid: error
        request_remove:
          - /a
        "#,
    );
    let mut ctx = FilterContext::new();
    let mut body = Some(b"{".to_vec());
    let err = filter
        .on_request_body(&mut ctx, &mut body, true)
        
        .expect_err("on_invalid: error should return FilterError");
    assert!(err.contains("invalid JSON"), "got: {err}");
}

#[test]
fn response_shrink_is_padded() {
    let filter = parse_filter(
        r#"
        response_remove:
          - /secret
        "#,
    );
    let mut ctx = FilterContext::new();
    let original = br#"{"keep":1,"secret":"x"}"#.to_vec();
    let orig_len = original.len();
    let mut body = Some(original);
    let action = filter.on_response_body(&mut ctx, &mut body, true).unwrap();
    assert!(matches!(action, FilterAction::BodyDone));
    let out = body.unwrap();
    assert_eq!(out.len(), orig_len, "padded to original Content-Length");
    assert!(out.starts_with(br#"{"keep":1}"#), "secret removed");
    assert!(
        out.iter().rev().take_while(|b| **b == b' ').count() > 0,
        "trailing spaces"
    );
}

#[test]
fn fit_response_refuses_growth() {
    assert!(
        fit_response(4, b"12345".to_vec()).is_none(),
        "longer rewrite cannot be framed"
    );
}

#[test]
fn request_body_access_none_when_only_response_ops() {
    let filter = parse_filter(
        r#"
        response_remove:
          - /a
        "#,
    );
    assert_eq!(filter.request_body_access(), BodyAccess::NoAccess);
    assert_eq!(filter.response_body_access(), BodyAccess::ReadWrite);
}

#[test]
fn add_nested_under_existing_object() {
    let out = rewrite_str(
        r#"{"user":{"id":1}}"#,
        &[resolved(OpKind::Add, "/user/role", Some(r#""admin""#))],
    )
    .unwrap();
    assert_eq!(out, r#"{"user":{"id":1,"role":"admin"}}"#);
}

#[test]
fn scalar_root_without_matching_ops_copied() {
    let out = rewrite_str("42", &[resolved(OpKind::Remove, "/a", None)]).unwrap();
    assert_eq!(out, "42");
}

#[test]
fn string_value_with_escapes_copied() {
    let input = r#"{"a":"x\"y"}"#;
    let out = rewrite_str(input, &[resolved(OpKind::Add, "/b", Some("1"))]).unwrap();
    assert_eq!(out, r#"{"a":"x\"y","b":1}"#);
}

// Extract

#[test]
fn rejects_duplicate_extract_pointers() {
    let err = parse_err(
        r#"
        request_extract:
          - pointer: /a
            metadata: one
          - pointer: /a
            metadata: two
        "#,
    );
    assert!(err.contains("overlapping"), "got: {err}");
}

#[test]
fn allows_nested_extract_pointers() {
    let filter = parse_filter(
        r#"
        request_extract:
          - pointer: /user
            structured_metadata:
              namespace: ext
              key: user
          - pointer: /user/id
            metadata: user.id
        "#,
    );
    assert_eq!(filter.request_body_access(), BodyAccess::ReadOnly);
}

#[test]
fn rejects_extract_without_dest() {
    let err = parse_err(
        r#"
        request_extract:
          - pointer: /a
        "#,
    );
    assert!(err.contains("exactly one"), "got: {err}");
}

#[test]
fn extract_only_is_read_only() {
    let filter = parse_filter(
        r#"
        request_extract:
          - pointer: /model
            metadata: original.model
        "#,
    );
    assert_eq!(filter.request_body_access(), BodyAccess::ReadOnly);
    assert_eq!(filter.response_body_access(), BodyAccess::NoAccess);
}

#[test]
fn extract_plus_replace_is_read_write() {
    let filter = parse_filter(
        r#"
        request_extract:
          - pointer: /model
            metadata: original.model
        request_replace:
          - pointer: /model
            value: forced-model
        "#,
    );
    assert_eq!(filter.request_body_access(), BodyAccess::ReadWrite);
}

#[test]
fn extract_string_to_metadata() {
    let filter = parse_filter(
        r#"
        request_extract:
          - pointer: /model
            metadata: original.model
        "#,
    );
    let mut ctx = FilterContext::new();
    let mut body = Some(br#"{"model":"old","n":1}"#.to_vec());
    let action = filter.on_request_body(&mut ctx, &mut body, true).unwrap();
    assert!(matches!(action, FilterAction::BodyDone));
    assert_eq!(ctx.get_metadata("original.model").map(String::as_str), Some("old"));
    assert_eq!(body.as_ref().unwrap().as_slice(), br#"{"model":"old","n":1}"#);
}

#[test]
fn extract_object_to_structured_metadata() {
    let filter = parse_filter(
        r#"
        request_extract:
          - pointer: /user
            structured_metadata:
              namespace: ext
              key: user
        "#,
    );
    let mut ctx = FilterContext::new();
    let mut body = Some(br#"{"user":{"id":1}}"#.to_vec());
    let action = filter.on_request_body(&mut ctx, &mut body, true).unwrap();
    assert!(matches!(action, FilterAction::BodyDone));
    assert_eq!(structured(&ctx, "ext", "user"), Some(json(r#"{"id": 1}"#)));
}

#[test]
fn nested_extract_walks_parent() {
    let filter = parse_filter(
        r#"
        request_extract:
          - pointer: /user
            structured_metadata:
              namespace: ext
              key: user
          - pointer: /user/id
            metadata: user.id
        "#,
    );
    let mut ctx = FilterContext::new();
    let mut body = Some(br#"{"user":{"id":1,"n":2}}"#.to_vec());
    let action = filter.on_request_body(&mut ctx, &mut body, true).unwrap();
    assert!(matches!(action, FilterAction::BodyDone));
    assert_eq!(
        structured(&ctx, "ext", "user"),
        Some(json(r#"{"id": 1, "n": 2}"#))
    );
    assert_eq!(ctx.get_metadata("user.id").map(String::as_str), Some("1"));
}

#[test]
fn extract_missing_pointer_skips() {
    let filter = parse_filter(
        r#"
        request_extract:
          - pointer: /missing
            metadata: gone
        "#,
    );
    let mut ctx = FilterContext::new();
    let mut body = Some(br#"{"a":1}"#.to_vec());
    let action = filter.on_request_body(&mut ctx, &mut body, true).unwrap();
    assert!(matches!(action, FilterAction::BodyDone));
    assert!(ctx.get_metadata("gone").is_none(), "missing pointer skips");
}

#[test]
fn extract_only_early_exit_ignores_trailing_junk() {
    let filter = parse_filter(
        r#"
        request_extract:
          - pointer: /model
            metadata: original.model
        "#,
    );
    let mut ctx = FilterContext::new();
    let mut body = Some(br#"{"model":"old","x":1} not-json"#.to_vec());
    let action = filter.on_request_body(&mut ctx, &mut body, true).unwrap();
    assert!(matches!(action, FilterAction::BodyDone));
    assert_eq!(ctx.get_metadata("original.model").map(String::as_str), Some("old"));
}

#[test]
fn extract_only_incomplete_before_eos_continues() {
    let filter = parse_filter(
        r#"
        request_extract:
          - pointer: /model
            metadata: original.model
        "#,
    );
    let mut ctx = FilterContext::new();
    let mut body = Some(br#"{"model":"#.to_vec());
    let action = filter.on_request_body(&mut ctx, &mut body, false).unwrap();
    assert!(matches!(action, FilterAction::Continue));
    assert!(ctx.get_metadata("original.model").is_none());
}

#[test]
fn extract_only_complete_before_eos_is_body_done() {
    let filter = parse_filter(
        r#"
        request_extract:
          - pointer: /model
            metadata: original.model
        "#,
    );
    let mut ctx = FilterContext::new();
    let mut body = Some(br#"{"model":"old"}"#.to_vec());
    let action = filter.on_request_body(&mut ctx, &mut body, false).unwrap();
    assert!(matches!(action, FilterAction::BodyDone));
    assert_eq!(ctx.get_metadata("original.model").map(String::as_str), Some("old"));
}

#[test]
fn extract_then_add_from_metadata() {
    let filter = parse_filter(
        r#"
        request_extract:
          - pointer: /model
            metadata: original.model
        request_replace:
          - pointer: /model
            value: forced-model
        request_add:
          - pointer: /original_model
            metadata: original.model
        "#,
    );
    let mut ctx = FilterContext::new();
    let mut body = Some(br#"{"model":"old"}"#.to_vec());
    let action = filter.on_request_body(&mut ctx, &mut body, true).unwrap();
    assert!(matches!(action, FilterAction::BodyDone));
    let got = serde_json::from_slice::<serde_json::Value>(body.as_ref().unwrap()).unwrap();
    assert_eq!(got, json(r#"{"model":"forced-model","original_model":"old"}"#));
}

#[test]
fn extract_oversized_metadata_is_skipped() {
    let filter = parse_filter(
        r#"
        request_extract:
          - pointer: /v
            metadata: big
        "#,
    );
    let mut ctx = FilterContext::new();
    let long = "a".repeat(257);
    let payload = format!(r#"{{"v":"{long}"}}"#);
    let mut body = Some(payload.into_bytes());
    let action = filter.on_request_body(&mut ctx, &mut body, true).unwrap();
    assert!(matches!(action, FilterAction::BodyDone));
    assert!(ctx.get_metadata("big").is_none(), "256-byte metadata cap");
}

#[test]
fn metadata_add_skipped_when_extract_late_in_wire_order() {
    let filter = parse_filter(
        r#"
        request_extract:
          - pointer: /model
            metadata: original.model
        request_add:
          - pointer: /meta/extra
            metadata: original.model
        "#,
    );
    let mut ctx = FilterContext::new();
    let mut body = Some(br#"{"meta":{},"model":"old"}"#.to_vec());
    let action = filter.on_request_body(&mut ctx, &mut body, true).unwrap();
    assert!(matches!(action, FilterAction::BodyDone));
    assert_eq!(ctx.get_metadata("original.model").map(String::as_str), Some("old"));
    let got = serde_json::from_slice::<serde_json::Value>(body.as_ref().unwrap()).unwrap();
    assert_eq!(got, json(r#"{"meta": {}, "model": "old"}"#));
}

#[test]
fn same_key_extract_before_replace() {
    let filter = parse_filter(
        r#"
        request_extract:
          - pointer: /model
            metadata: original.model
        request_replace:
          - pointer: /model
            value: forced-model
        request_add:
          - pointer: /original_model
            metadata: original.model
        "#,
    );
    let mut ctx = FilterContext::new();
    let mut body = Some(br#"{"model":"old"}"#.to_vec());
    let action = filter.on_request_body(&mut ctx, &mut body, true).unwrap();
    assert!(matches!(action, FilterAction::BodyDone));
    assert_eq!(ctx.get_metadata("original.model").map(String::as_str), Some("old"));
    let got = serde_json::from_slice::<serde_json::Value>(body.as_ref().unwrap()).unwrap();
    assert_eq!(got, json(r#"{"model": "forced-model", "original_model": "old"}"#));
}

#[test]
fn external_metadata_still_works() {
    let filter = parse_filter(
        r#"
        request_add:
          - pointer: /tenant
            metadata: tenant.id
        "#,
    );
    let mut ctx = FilterContext::new();
    ctx.set_metadata("tenant.id".to_owned(), "acme".to_owned());
    let mut body = Some(br#"{"n":1}"#.to_vec());
    let action = filter.on_request_body(&mut ctx, &mut body, true).unwrap();
    assert!(matches!(action, FilterAction::BodyDone));
    let got = serde_json::from_slice::<serde_json::Value>(body.as_ref().unwrap()).unwrap();
    assert_eq!(got, json(r#"{"n": 1, "tenant": "acme"}"#));
}

#[test]
fn missing_metadata_on_existing_replace_keeps_original() {
    let filter = parse_filter(
        r#"
        request_replace:
          - pointer: /model
            metadata: missing.key
        "#,
    );
    let mut ctx = FilterContext::new();
    let mut body = Some(br#"{"model":"keep-me","n":1}"#.to_vec());
    let action = filter.on_request_body(&mut ctx, &mut body, true).unwrap();
    assert!(matches!(action, FilterAction::BodyDone));
    let got = serde_json::from_slice::<serde_json::Value>(body.as_ref().unwrap()).unwrap();
    assert_eq!(
        got,
        json(r#"{"model": "keep-me", "n": 1}"#),
        "missing context must skip the replace, not delete the existing member"
    );
}

#[test]
fn extract_duplicate_keys_keeps_last() {
    let filter = parse_filter(
        r#"
        request_extract:
          - pointer: /a
            metadata: a
        "#,
    );
    let mut ctx = FilterContext::new();
    let mut body = Some(br#"{"a":1,"a":2}"#.to_vec());
    let action = filter.on_request_body(&mut ctx, &mut body, true).unwrap();
    assert!(matches!(action, FilterAction::BodyDone));
    assert_eq!(ctx.get_metadata("a").map(String::as_str), Some("2"), "extract last duplicate");
    assert_eq!(body.as_ref().unwrap().as_slice(), br#"{"a":1,"a":2}"#);
}

// Output capacity

#[test]
fn remove_only_uses_input_len() {
    assert_eq!(rewrite_output_capacity(10_485_760, 0), 10_485_760);
}

#[test]
fn growth_hint_adds_slack() {
    let hint = 100;
    assert_eq!(rewrite_output_capacity(1000, hint), 1000 + hint + 64);
}

#[test]
fn zero_input_with_growth() {
    assert_eq!(rewrite_output_capacity(0, 10), 74);
}

// Body modes and limits

#[test]
fn bodies_are_collected_up_to_the_limit() {
    let filter = parse_filter("max_body_bytes: 77\nrequest_remove:\n  - /a");
    let expected = BodyMode::StreamBuffer { max_bytes: Some(77) };
    assert_eq!(filter.request_body_mode(), expected);
    assert_eq!(filter.response_body_mode(), expected);
}

#[test]
fn zero_limit_is_refused() {
    let err = parse_err("max_body_bytes: 0\nrequest_remove:\n  - /a");
    assert!(err.contains("max_body_bytes"), "got: {err}");
}

#[test]
fn invalid_pointers_are_refused() {
    let err = parse_err("request_remove:\n  - a");
    assert!(err.contains('a'), "got: {err}");
    assert!(compile_pointer("a").is_none());
    assert!(compile_pointer("/a~2").is_none());
    assert_eq!(compile_pointer("/a~0b/c~1d").unwrap(), vec!["a~b", "c/d"]);
    assert!(compile_pointer("").unwrap().is_empty());
}

#[test]
fn empty_destinations_are_refused() {
    let err = parse_err("request_extract:\n  - pointer: /a\n    metadata: \"\"");
    assert!(err.contains("metadata"), "got: {err}");
    let err = parse_err(
        "request_add:\n  - pointer: /a\n    structured_metadata:\n      namespace: \"\"\n      key: k",
    );
    assert!(err.contains("structured_metadata"), "got: {err}");
}

#[test]
fn root_add_is_refused() {
    let err = parse_err("request_add:\n  - pointer: \"\"\n    value: 1");
    assert!(err.contains("document root"), "got: {err}");
}

#[test]
fn static_values_are_compacted() {
    let mut cfg = config("{}");
    cfg.request_add.push(PointerOpConfig {
        pointer: "/o".to_owned(),
        value: Some(b"{ \"b\" : [ 1 , 2 ] }".to_vec()),
        metadata: None,
        structured_metadata: None,
    });
    let ops = RequestOps::from_config(&cfg).unwrap();
    assert_eq!(apply_request(b"{}", &ops).unwrap(), br#"{"o":{"b":[1,2]}}"#);
}

#[test]
fn static_value_that_is_not_json_is_refused() {
    let mut cfg = config("{}");
    cfg.request_add.push(PointerOpConfig {
        pointer: "/o".to_owned(),
        value: Some(b"{".to_vec()),
        metadata: None,
        structured_metadata: None,
    });
    assert!(JsonBodyFilter::from_config(&cfg).is_err());
}

// Request operations outside a filter

#[test]
fn request_ops_match_a_document_tree() {
    let ops = RequestOps::from_config(&config(
        r#"
        request_extract:
          - pointer: /model
            metadata: original.model
        request_replace:
          - pointer: /model
            value: forced-model
        request_add:
          - pointer: /tenant
            value: acme
          - pointer: /original_model
            metadata: original.model
        request_remove:
          - /secret
        "#,
    ))
    .unwrap();
    let body = br#"{"model":"old","secret":"s3cret","messages":[{"role":"user","content":"hi"}]}"#;
    let got: serde_json::Value = serde_json::from_slice(&apply_request(body, &ops).unwrap()).unwrap();
    assert_eq!(
        got,
        json(
            r#"{"model":"forced-model","messages":[{"role":"user","content":"hi"}],"tenant":"acme","original_model":"old"}"#
        )
    );
    assert!(extract_request(body, &ops).is_ok());
    let meta = extract_request_metadata(body, &ops).unwrap();
    assert_eq!(meta.get("original.model").map(String::as_str), Some("old"));
    assert_eq!(apply_request(b"{", &ops).unwrap_err(), "invalid JSON");
}

// Extraction that stops early

fn wanted(pointer: &str, key: &str) -> ExtractOp {
    ExtractOp {
        tokens: compile_pointer(pointer).unwrap(),
        dest: ExtractDest::Metadata(key.to_owned()),
    }
}

fn extracted(input: &str, ops: &[ExtractOp]) -> Result<Vec<(String, String)>, RewriteError> {
    extract(input.as_bytes(), ops).map(|values| {
        values
            .into_iter()
            .map(|v| {
                let name = match v.dest {
                    ExtractDest::Metadata(key) => key,
                    ExtractDest::Structured { namespace, key } => format!("{namespace}/{key}"),
                };
                (name, String::from_utf8(v.json).unwrap())
            })
            .collect()
    })
}

#[test]
fn extraction_stops_when_everything_is_found() {
    let got = extracted(r#"{"model":"old", this is not JSON"#, &[wanted("/model", "m")]).unwrap();
    assert_eq!(got, vec![("m".to_owned(), "\"old\"".to_owned())]);
}

#[test]
fn extraction_reads_on_while_something_is_missing() {
    let ops = [wanted("/model", "m"), wanted("/gone", "g")];
    assert_eq!(
        extracted(r#"{"model":"old", this is not JSON"#, &ops).unwrap_err(),
        RewriteError::InvalidJson
    );
    let got = extracted(r#"{"model":"old"}"#, &ops).unwrap();
    assert_eq!(got, vec![("m".to_owned(), "\"old\"".to_owned())]);
}

#[test]
fn extraction_takes_the_first_of_equal_keys() {
    let got = extracted(r#"{"a":1,"a":2,"b":[7,{"c":8}]}"#, &[wanted("/a", "a"), wanted("/b/1/c", "c")]);
    assert_eq!(
        got.unwrap(),
        vec![("a".to_owned(), "1".to_owned()), ("c".to_owned(), "8".to_owned())]
    );
}

#[test]
fn extraction_serves_each_extract_once() {
    let ops = [wanted("/a", "x"), wanted("/a", "y")];
    let got = extracted(r#"{"a":1}"#, &ops).unwrap();
    assert_eq!(got, vec![("x".to_owned(), "1".to_owned())]);
    assert!(extracted("not JSON", &[]).unwrap().is_empty());
}

#[test]
fn extraction_bounds_nesting() {
    let nested = format!("{}1{}", "[".repeat(129), "]".repeat(129));
    assert_eq!(
        extracted(&nested, &[wanted("/gone", "g")]).unwrap_err(),
        RewriteError::Depth
    );
}

#[test]
fn rewritten_text_is_one_json_value() {
    let ops = vec![
        resolved(OpKind::Add, "/a/quote\"d", Some("[1,{\"x\":null}]")),
        resolved(OpKind::Add, "/list/-", Some("\"tail\"")),
        resolved(OpKind::Add, "/list/0", Some("-1.5e3")),
        resolved(OpKind::Replace, "/b", Some("true")),
        resolved(OpKind::Remove, "/gone", None),
    ];
    let out = rewrite_str(
        " { \"a\" : { } , \"gone\" : [ 1 ] , \"b\":2, \"list\" : [ \"h\" ] } ",
        &ops,
    )
    .unwrap();
    assert_eq!(
        out,
        "{\"a\":{\"quote\\\"d\":[1,{\"x\":null}]},\"b\":true,\"list\":[-1.5e3,\"h\",\"tail\"]}"
    );
    assert_eq!(json(&out)["a"]["quote\"d"][1]["x"], serde_json::Value::Null);
}

#[test]
fn untouched_values_are_copied_byte_for_byte() {
    let ops = vec![resolved(OpKind::Replace, "/a", Some("1"))];
    let out = rewrite_str("{\"a\":0, \"b\" : { \"k\" : [ 1 , 2 ] } ,\"c\":  \"\\u00e9\" }", &ops).unwrap();
    assert_eq!(out, "{\"a\":1,\"b\":{ \"k\" : [ 1 , 2 ] },\"c\":\"\\u00e9\"}");
}

#[test]
fn written_values_read_back_at_their_pointers() {
    let ops = vec![
        resolved(OpKind::Replace, "/a/1/x", Some("\"new\"")),
        resolved(OpKind::Add, "/o/k~1y", Some("[3]")),
        resolved(OpKind::Add, "/o/old", Some("4")),
        resolved(OpKind::Remove, "/o/gone", None),
    ];
    let out = rewrite_str(
        "{\"a\":[{\"x\":0},{\"x\":1}],\"o\":{\"gone\":5,\"old\":6}}",
        &ops,
    )
    .unwrap();
    let doc = json(&out);
    assert_eq!(doc.pointer("/a/1/x"), Some(&json("\"new\"")));
    assert_eq!(doc.pointer("/a/0/x"), Some(&json("0")));
    assert_eq!(doc.pointer("/o/k~1y"), Some(&json("[3]")));
    assert_eq!(doc.pointer("/o/old"), Some(&json("4")));
    assert_eq!(doc.pointer("/o/gone"), None);
}

#[test]
fn strings_with_unknown_escapes_are_refused() {
    assert!(matches!(rewrite(br#""\q""#, &[]), Err(RewriteError::InvalidJson)));
    assert!(matches!(rewrite(br#"{"a":"x\x"}"#, &[]), Err(RewriteError::InvalidJson)));
    assert!(matches!(rewrite(br#"{"\a":1}"#, &[]), Err(RewriteError::InvalidJson)));
    assert_eq!(rewrite_str(r#""\"\\\/\b\f\n\r\té""#, &[]).unwrap(), r#""\"\\\/\b\f\n\r\té""#);
}

#[test]
fn strings_that_are_not_text_are_refused() {
    assert!(matches!(rewrite(b"\"\xFF\"", &[]), Err(RewriteError::InvalidJson)));
    assert!(matches!(rewrite(b"{\"\xC3\":1}", &[]), Err(RewriteError::InvalidJson)));
    assert!(matches!(rewrite(b"[\"a\",\"\xE2\x82\"]", &[]), Err(RewriteError::InvalidJson)));
    assert_eq!(rewrite_str("\"\u{20AC}\"", &[]).unwrap(), "\"\u{20AC}\"");
}

#[test]
fn remove_undoes_add() {
    let input = r#" { "list" : [ 1, { "key" : { "a" : [ ], "b" : "x" } } ], "z" : null } "#;
    let pointer = "/list/1/key/new";
    let added = rewrite_str(input, &[resolved(OpKind::Add, pointer, Some("\"v\""))]).unwrap();
    assert_eq!(json(&added).pointer(pointer).unwrap(), "v");
    let back = rewrite_str(&added, &[resolved(OpKind::Remove, pointer, None)]).unwrap();
    assert_eq!(json(&back), json(input));
    let order: Vec<usize> =
        ["\"list\"", "\"a\"", "\"b\"", "\"z\""].iter().map(|k| back.find(k).unwrap()).collect();
    assert!(order.windows(2).all(|w| w[0] < w[1]));
    assert!(!back.contains("new"));
}
