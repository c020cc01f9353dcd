//! Verified core of the proxy: routing, request signing, JSON body rewriting
//! and gateway configuration, with their contracts.

use vstd::prelude::*;

pub mod action;
pub mod agentgateway;
pub mod bench_metrics;
pub mod context;
pub mod environment;
pub mod gwxds;
pub mod header_rules;
pub mod ip;
pub mod ip_laws;
pub mod json_body;
pub mod json_text;
pub mod number;
pub mod path_laws;
pub mod path_match;
pub mod path_sanitize;
pub mod query;
pub mod request;
pub mod route;
pub mod router;
pub mod server;
pub mod signature;
pub mod sni;
pub mod streaming;
pub mod string_scan;
pub mod text;
pub mod text_laws;
pub mod text_map;
pub mod url_sign;

verus! {

} // verus!
