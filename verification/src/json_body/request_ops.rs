//! Compiled request operations outside a filter: apply them, or only extract.

use vstd::prelude::*;

use crate::context::{overlaid, FilterContext, MetaMap};
use crate::json_body::config::{build_ops, plan_of, CompiledOps, JsonBodyConfig, JsonBodyError};
use crate::json_body::error::RewriteError;
use crate::json_body::ops::Op;
use crate::json_body::output::inject_json;
use crate::json_body::rewrite::{pass_env, rewrite_document, CompiledOpSet, RewriteMode};
use crate::json_body::walk::{walk_document, Walk};

verus! {

/// Compiled request-body operations.
pub struct RequestOps {
    op_set: CompiledOpSet,
}

impl RequestOps {
    /// The operations.
    pub closed spec fn model(self) -> Seq<Op> {
        self.op_set.model()
    }

    pub closed spec fn wf(self) -> bool {
        self.op_set.wf()
    }

    /// Compile the request side of a configuration.
    pub fn from_config(cfg: &JsonBodyConfig) -> (r: Result<RequestOps, JsonBodyError>)
        ensures
            match plan_of(*cfg) {
                Err(err) => r == Err::<RequestOps, JsonBodyError>(err),
                Ok((request, _)) => r is Ok && r->Ok_0.wf() && r->Ok_0.model() == request
                    && inject_json(request),
            },
    {
        let (_, _, compiled) = build_ops(cfg)?;
        let CompiledOps { request, response: _ } = compiled;
        Ok(RequestOps { op_set: request })
    }
}

/// A pass of `ops` over `body` without any metadata set before.
pub open spec fn fresh_pass(ops: Seq<Op>, mode: RewriteMode, body: Seq<u8>) -> Result<Walk, RewriteError> {
    walk_document(pass_env(ops, mode, Map::empty(), Map::empty()), body)
}

/// Apply extract and rewrite on `body` in one pass.
pub fn apply_request(body: &[u8], ops: &RequestOps) -> (r: Result<Vec<u8>, String>)
    requires
        ops.wf(),
    ensures
        match fresh_pass(ops.model(), RewriteMode::Rewrite, body@) {
            Ok(w) => r is Ok && r->Ok_0@ == w.out,
            Err(err) => r is Err && r->Err_0@ == err.reason(),
        },
{
    let mut ctx = FilterContext::new();
    match rewrite_document(body, &ops.op_set, RewriteMode::Rewrite, &mut ctx) {
        Ok(outcome) => match outcome.output {
            Some(out) => Ok(out),
            None => Ok(Vec::new()),
        },
        Err(err) => Err(err.as_str().to_owned()),
    }
}

/// Run the extracts on `body` without writing a document.
pub fn extract_request(body: &[u8], ops: &RequestOps) -> (r: Result<(), String>)
    requires
        ops.wf(),
    ensures
        match fresh_pass(ops.model(), RewriteMode::ExtractOnly, body@) {
            Ok(_) => r is Ok,
            Err(err) => r is Err && r->Err_0@ == err.reason(),
        },
{
    let mut ctx = FilterContext::new();
    match rewrite_document(body, &ops.op_set, RewriteMode::ExtractOnly, &mut ctx) {
        Ok(_) => Ok(()),
        Err(err) => Err(err.as_str().to_owned()),
    }
}

/// Run the extracts on `body` and return the metadata that they write.
pub fn extract_request_metadata(body: &[u8], ops: &RequestOps) -> (r: Result<MetaMap, String>)
    requires
        ops.wf(),
    ensures
        match fresh_pass(ops.model(), RewriteMode::ExtractOnly, body@) {
            Ok(w) => r is Ok && r->Ok_0@ == overlaid(Map::empty(), w.meta),
            Err(err) => r is Err && r->Err_0@ == err.reason(),
        },
{
    let mut ctx = FilterContext::new();
    match rewrite_document(body, &ops.op_set, RewriteMode::ExtractOnly, &mut ctx) {
        Ok(_) => {
            let FilterContext { metadata, structured: _ } = ctx;
            Ok(metadata)
        },
        Err(err) => Err(err.as_str().to_owned()),
    }
}

} // verus!
