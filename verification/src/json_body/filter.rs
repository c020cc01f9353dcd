//! The JSON body filter: when bodies are rewritten, and what becomes of them.

use vstd::prelude::*;

use crate::action::{rejects, reject, Action, BodyAccess, BodyMode, FilterAction};
use crate::context::{holds_json, overlaid, overlaid_json, FilterContext};
use crate::json_body::config::{build_ops, clamp, growth, plan_of, CompiledOps, JsonBodyConfig, JsonBodyError, OnInvalidBehavior};
use crate::json_body::grammar::{is_document, lemma_padded_is_document};
use crate::json_body::ops::{models, CompiledOp, Op, OpKind};
use crate::json_body::output::{inject_json, law_rewrite_yields_json};
use crate::json_body::rewrite::{pass_env, rewrite_document, CompiledOpSet, RewriteMode};
use crate::json_body::walk::{walk_document, Walk};
use crate::text::concat;

verus! {

/// How a rewritten body is fitted to its framing.
#[derive(Clone, Copy, Debug, PartialEq, Eq, Structural)]
pub enum FitMode {
    /// Request: the length may change.
    Request,
    /// Response: shorter bodies are padded, longer ones are refused.
    Response,
}

/// Rewrites JSON request and response bodies by pointer operations.
pub struct JsonBodyFilter {
    /// Maximum body size.
    pub max_body_bytes: usize,
    /// Behavior when the body is not valid JSON.
    pub on_invalid: OnInvalidBehavior,
    /// Operations on request bodies.
    pub request_ops: CompiledOpSet,
    /// Operations on response bodies.
    pub response_ops: CompiledOpSet,
}

/// Whether there are operations and all of them extract.
pub open spec fn only_extracts(ops: Seq<Op>) -> bool {
    ops.len() > 0 && forall|j: int| 0 <= j < ops.len() ==> (#[trigger] ops[j]).kind == OpKind::Extract
}

/// Whether there are operations and all of them extract.
pub fn extract_only(ops: &Vec<CompiledOp>) -> (r: bool)
    ensures
        r == only_extracts(models(ops@)),
{
    let ghost all = models(ops@);
    if ops.len() == 0 {
        return false;
    }
    let mut j: usize = 0;
    while j < ops.len()
        invariant
            j <= ops@.len(),
            all == models(ops@),
            forall|k: int| 0 <= k < j ==> (#[trigger] all[k]).kind == OpKind::Extract,
        decreases ops@.len() - j,
    {
        assert(all[j as int] == ops@[j as int].model());
        if ops[j].kind != OpKind::Extract {
            return false;
        }
        j = j + 1;
    }
    true
}

/// The access that a list of operations needs.
pub open spec fn access_of(ops: Seq<Op>) -> BodyAccess {
    if ops.len() == 0 {
        BodyAccess::NoAccess
    } else if only_extracts(ops) {
        BodyAccess::ReadOnly
    } else {
        BodyAccess::ReadWrite
    }
}

/// Body access for one direction.
pub fn direction_access(ops: &Vec<CompiledOp>) -> (r: BodyAccess)
    ensures
        r == access_of(models(ops@)),
{
    if ops.len() == 0 {
        BodyAccess::NoAccess
    } else if extract_only(ops) {
        BodyAccess::ReadOnly
    } else {
        BodyAccess::ReadWrite
    }
}

/// The decision about a body that cannot be processed for `reason`.
pub open spec fn invalid_outcome(on_invalid: OnInvalidBehavior, reason: Seq<char>) -> Result<
    Action,
    Seq<char>,
> {
    match on_invalid {
        OnInvalidBehavior::Continue => Ok(Action::Continue),
        OnInvalidBehavior::Reject => Ok(rejects(400)),
        OnInvalidBehavior::Error => Err("json_body: "@ + reason),
    }
}

/// A filter's result as mathematical data.
pub open spec fn outcome_of(r: Result<FilterAction, String>) -> Result<Action, Seq<char>> {
    match r {
        Ok(a) => Ok(a.model()),
        Err(e) => Err(e@),
    }
}

/// Decide about a body that cannot be processed.
pub fn handle_invalid(on_invalid: OnInvalidBehavior, reason: &str) -> (r: Result<
    FilterAction,
    String,
>)
    ensures
        outcome_of(r) == invalid_outcome(on_invalid, reason@),
{
    match on_invalid {
        OnInvalidBehavior::Continue => Ok(FilterAction::Continue),
        OnInvalidBehavior::Reject => Ok(reject(400)),
        OnInvalidBehavior::Error => Err(concat("json_body: ", reason)),
    }
}

/// `body` with spaces behind it up to `len` bytes.
pub open spec fn padded(body: Seq<u8>, len: nat) -> Seq<u8> {
    body + Seq::new((len - body.len()) as nat, |i: int| 0x20u8)
}

/// What is sent for a response of `len` bytes that was rewritten to `body`;
/// nothing when the rewritten body does not fit.
pub open spec fn fitted(len: nat, body: Seq<u8>) -> Option<Seq<u8>> {
    if body.len() > len {
        None
    } else {
        Some(padded(body, len))
    }
}

/// Pad a shorter response to `original_len`; `None` when it has grown.
pub fn fit_response(original_len: usize, rewritten: Vec<u8>) -> (r: Option<Vec<u8>>)
    ensures
        match r {
            Some(b) => fitted(original_len as nat, rewritten@) == Some(b@),
            None => fitted(original_len as nat, rewritten@) is None,
        },
        r matches Some(b) ==> b@.len() == original_len,
{
    if rewritten.len() > original_len {
        return None;
    }
    let ghost start = rewritten@;
    let mut out = rewritten;
    while out.len() < original_len
        invariant
            start.len() <= out@.len() <= original_len,
            out@ == padded(start, out@.len()),
        decreases original_len - out@.len(),
    {
        let ghost n = out@.len();
        out.push(0x20);
        assert(out@ =~= padded(start, n + 1));
    }
    Some(out)
}

pub open spec fn mode_of(ops: Seq<Op>) -> RewriteMode {
    if only_extracts(ops) {
        RewriteMode::ExtractOnly
    } else {
        RewriteMode::Rewrite
    }
}

/// The body after a pass that gave `w` over the body `original`.
pub open spec fn body_after(ops: Seq<Op>, fit: FitMode, original: Seq<u8>, w: Walk) -> Seq<u8> {
    if only_extracts(ops) {
        original
    } else if fit == FitMode::Request {
        w.out
    } else {
        match fitted(original.len(), w.out) {
            Some(b) => b,
            None => original,
        }
    }
}

pub open spec fn body_view(body: Option<Vec<u8>>) -> Option<Seq<u8>> {
    match body {
        Some(b) => Some(b@),
        None => None,
    }
}

/// Whether `r`, the body and the context are what they must be after one
/// application of `ops`.
pub open spec fn applied(
    ops: Seq<Op>,
    on_invalid: OnInvalidBehavior,
    fit: FitMode,
    end_of_stream: bool,
    before: FilterContext,
    body: Option<Seq<u8>>,
    r: Result<Action, Seq<char>>,
    after: FilterContext,
    new_body: Option<Seq<u8>>,
) -> bool {
    let unchanged = after.metadata@ == before.metadata@ && after.structured@ == before.structured@
        && new_body == body;
    if ops.len() == 0 {
        r == Ok::<Action, Seq<char>>(Action::Continue) && unchanged
    } else {
        match body {
            None => r == invalid_outcome(on_invalid, "empty body"@) && unchanged,
            Some(original) => match walk_document(
                pass_env(ops, mode_of(ops), before.metadata@, before.structured@),
                original,
            ) {
                Ok(w) => {
                    &&& r == Ok::<Action, Seq<char>>(Action::BodyDone)
                    &&& after.metadata@ == overlaid(before.metadata@, w.meta)
                    &&& after.structured@ == overlaid_json(before.structured@, w.captured)
                    &&& new_body == Some(body_after(ops, fit, original, w))
                },
                Err(err) => unchanged && r == (if only_extracts(ops) && !end_of_stream {
                    Ok(Action::Continue)
                } else {
                    invalid_outcome(on_invalid, err.reason())
                }),
            },
        }
    }
}

/// Rewrite a body and fit it to its framing.
pub fn apply_rewrite(
    op_set: &CompiledOpSet,
    on_invalid: OnInvalidBehavior,
    ctx: &mut FilterContext,
    body: &mut Option<Vec<u8>>,
    fit: FitMode,
    end_of_stream: bool,
) -> (r: Result<FilterAction, String>)
    requires
        op_set.wf(),
    ensures
        applied(
            op_set.model(),
            on_invalid,
            fit,
            end_of_stream,
            *old(ctx),
            body_view(*old(body)),
            outcome_of(r),
            *final(ctx),
            body_view(*final(body)),
        ),
        holds_json(old(ctx).structured@) ==> holds_json(final(ctx).structured@),
{
    if op_set.ops.len() == 0 {
        return Ok(FilterAction::Continue);
    }
    let only = extract_only(&op_set.ops);
    let mode = if only {
        RewriteMode::ExtractOnly
    } else {
        RewriteMode::Rewrite
    };
    let (original_len, result) = match body {
        None => {
            return handle_invalid(on_invalid, "empty body");
        },
        Some(original) => (original.len(), rewrite_document(original.as_slice(), op_set, mode, ctx)),
    };
    match result {
        Ok(outcome) => {
            if !only {
                if let Some(rewritten) = outcome.output {
                    match fit {
                        FitMode::Request => {
                            *body = Some(rewritten);
                        },
                        FitMode::Response => {
                            if let Some(fitted) = fit_response(original_len, rewritten) {
                                *body = Some(fitted);
                            }
                        },
                    }
                }
            }
            Ok(FilterAction::BodyDone)
        },
        Err(err) => {
            if only && !end_of_stream {
                Ok(FilterAction::Continue)
            } else {
                handle_invalid(on_invalid, err.as_str())
            }
        },
    }
}

/// The operations are applied now: at the end of the body, or before it when
/// they only extract.
pub open spec fn due(ops: Seq<Op>, end_of_stream: bool) -> bool {
    only_extracts(ops) || end_of_stream
}

impl JsonBodyFilter {
    /// Both operation sets are indexed.
    pub open spec fn wf(self) -> bool {
        self.request_ops.wf() && self.response_ops.wf()
    }

    /// Create a filter from its configuration.
    pub fn from_config(cfg: &JsonBodyConfig) -> (r: Result<JsonBodyFilter, JsonBodyError>)
        ensures
            match plan_of(*cfg) {
                Err(err) => r == Err::<JsonBodyFilter, JsonBodyError>(err),
                Ok((request, response)) => {
                    &&& r is Ok
                    &&& r->Ok_0.wf()
                    &&& r->Ok_0.max_body_bytes == cfg.max_body_bytes
                    &&& r->Ok_0.on_invalid == cfg.on_invalid
                    &&& r->Ok_0.request_ops.model() == request
                    &&& r->Ok_0.response_ops.model() == response
                    &&& r->Ok_0.request_ops.growth_hint == clamp(growth(request))
                    &&& r->Ok_0.response_ops.growth_hint == clamp(growth(response))
                    &&& inject_json(request)
                    &&& inject_json(response)
                },
            },
    {
        let (max_body_bytes, on_invalid, compiled) = build_ops(cfg)?;
        let CompiledOps { request, response } = compiled;
        Ok(JsonBodyFilter { max_body_bytes, on_invalid, request_ops: request, response_ops: response })
    }

    /// The filter type name.
    pub fn name(&self) -> (r: &'static str)
        ensures
            r@ == "json_body"@,
    {
        "json_body"
    }

    /// Access to request bodies.
    pub fn request_body_access(&self) -> (r: BodyAccess)
        ensures
            r == access_of(self.request_ops.model()),
    {
        direction_access(&self.request_ops.ops)
    }

    /// Access to response bodies.
    pub fn response_body_access(&self) -> (r: BodyAccess)
        ensures
            r == access_of(self.response_ops.model()),
    {
        direction_access(&self.response_ops.ops)
    }

    /// Request bodies are collected up to the configured size.
    pub fn request_body_mode(&self) -> (r: BodyMode)
        ensures
            r == (BodyMode::StreamBuffer { max_bytes: Some(self.max_body_bytes) }),
    {
        BodyMode::StreamBuffer { max_bytes: Some(self.max_body_bytes) }
    }

    /// Response bodies are collected up to the configured size.
    pub fn response_body_mode(&self) -> (r: BodyMode)
        ensures
            r == (BodyMode::StreamBuffer { max_bytes: Some(self.max_body_bytes) }),
    {
        BodyMode::StreamBuffer { max_bytes: Some(self.max_body_bytes) }
    }

    /// Process a request body, or the part of it that has arrived.
    pub fn on_request_body(
        &self,
        ctx: &mut FilterContext,
        body: &mut Option<Vec<u8>>,
        end_of_stream: bool,
    ) -> (r: Result<FilterAction, String>)
        requires
            self.wf(),
        ensures
            if due(self.request_ops.model(), end_of_stream) {
                applied(
                    self.request_ops.model(),
                    self.on_invalid,
                    FitMode::Request,
                    end_of_stream,
                    *old(ctx),
                    body_view(*old(body)),
                    outcome_of(r),
                    *final(ctx),
                    body_view(*final(body)),
                )
            } else {
                outcome_of(r) == Ok::<Action, Seq<char>>(Action::Continue) && *final(ctx) == *old(ctx)
                    && *final(body) == *old(body)
            },
            holds_json(old(ctx).structured@) ==> holds_json(final(ctx).structured@),
    {
        if !extract_only(&self.request_ops.ops) && !end_of_stream {
            return Ok(FilterAction::Continue);
        }
        apply_rewrite(&self.request_ops, self.on_invalid, ctx, body, FitMode::Request, end_of_stream)
    }

    /// Process a response body, or the part of it that has arrived.
    pub fn on_response_body(
        &self,
        ctx: &mut FilterContext,
        body: &mut Option<Vec<u8>>,
        end_of_stream: bool,
    ) -> (r: Result<FilterAction, String>)
        requires
            self.wf(),
        ensures
            if due(self.response_ops.model(), end_of_stream) {
                applied(
                    self.response_ops.model(),
                    self.on_invalid,
                    FitMode::Response,
                    end_of_stream,
                    *old(ctx),
                    body_view(*old(body)),
                    outcome_of(r),
                    *final(ctx),
                    body_view(*final(body)),
                )
            } else {
                outcome_of(r) == Ok::<Action, Seq<char>>(Action::Continue) && *final(ctx) == *old(ctx)
                    && *final(body) == *old(body)
            },
            holds_json(old(ctx).structured@) ==> holds_json(final(ctx).structured@),
    {
        if !extract_only(&self.response_ops.ops) && !end_of_stream {
            return Ok(FilterAction::Continue);
        }
        apply_rewrite(
            &self.response_ops,
            self.on_invalid,
            ctx,
            body,
            FitMode::Response,
            end_of_stream,
        )
    }
}

/// A response keeps its length: what a pass makes of it is exactly as long.
pub proof fn law_response_length_kept(ops: Seq<Op>, original: Seq<u8>, w: Walk)
    ensures
        body_after(ops, FitMode::Response, original, w).len() == original.len(),
{
}

/// Operations that only extract leave every body as it is.
pub proof fn law_extract_leaves_body(ops: Seq<Op>, fit: FitMode, original: Seq<u8>, w: Walk)
    requires
        only_extracts(ops),
    ensures
        body_after(ops, fit, original, w) == original,
{
}

/// Operations that rewrite turn a body into a JSON document, on a response
/// with spaces behind it; a response that would grow stays as it was.
pub proof fn law_rewritten_body_is_json(
    ops: Seq<Op>,
    fit: FitMode,
    metadata: Map<Seq<char>, Seq<char>>,
    structured: Map<(Seq<char>, Seq<char>), Seq<u8>>,
    original: Seq<u8>,
)
    requires
        !only_extracts(ops),
        inject_json(ops),
        holds_json(structured),
    ensures
        walk_document(pass_env(ops, mode_of(ops), metadata, structured), original) matches Ok(w) ==> {
            ||| is_document(body_after(ops, fit, original, w))
            ||| fit == FitMode::Response && w.out.len() > original.len() && body_after(ops, fit, original, w) == original
        },
{
    let env = pass_env(ops, mode_of(ops), metadata, structured);
    law_rewrite_yields_json(env, original);
    if let Ok(w) = walk_document(env, original) {
        lemma_padded_is_document(w.out, 0);
        assert(w.out + Seq::new(0, |i: int| 0x20u8) =~= w.out);
        if w.out.len() <= original.len() {
            lemma_padded_is_document(w.out, (original.len() - w.out.len()) as nat);
        }
    }
}

} // verus!
