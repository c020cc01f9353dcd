//! Extracts that filters declare, gathered into one pass that runs before them.

use vstd::prelude::*;

use crate::action::header_views;
use crate::context::MetaMap;
use crate::json_body::error::RewriteError;
use crate::json_body::index::OpPathIndex;
use crate::json_body::ops::{models, texts, CompiledOp, Dest, ExtractDest, Op, OpKind};
use crate::json_body::pointer::{compile_pointer, pointer_tokens, same_tokens};
use crate::json_body::rewrite::{extract_document, pass_env, CompiledOpSet, RewriteMode};
use crate::json_body::walk::{walk_document, Walk};
use crate::number::{decimal, decimal_text};

verus! {

/// Where a declared extract is written.
#[derive(Debug)]
pub enum ExtractTarget {
    /// A metadata key.
    Metadata(String),
    /// A request header.
    Header(String),
}

/// One extract that a filter declares.
#[derive(Debug)]
pub struct JsonExtractDecl {
    /// JSON Pointer of the value.
    pub pointer: String,
    pub dest: ExtractTarget,
}

/// Why a pre-pass fails.
#[derive(Clone, Copy, Debug, PartialEq, Eq, Structural)]
pub enum JsonError {
    /// An invalid pointer, an empty destination, or a pointer declared twice.
    Compile,
    /// The body is not JSON.
    InvalidJson,
    /// The body is nested too deeply.
    Depth,
}

/// Where a pre-pass writes.
pub struct MapStore {
    pub metadata: MetaMap,
    pub request_headers: Vec<(String, String)>,
}

impl MapStore {
    /// An empty store.
    pub fn new() -> (r: Self)
        ensures
            r.metadata@ == Map::<Seq<char>, Seq<char>>::empty(),
            r.request_headers@.len() == 0,
    {
        MapStore { metadata: MetaMap::new(), request_headers: Vec::new() }
    }
}

/// The name of a destination.
pub open spec fn target_name(dest: ExtractTarget) -> Seq<char> {
    match dest {
        ExtractTarget::Metadata(k) => k@,
        ExtractTarget::Header(k) => k@,
    }
}

/// A declaration on its own is acceptable.
pub open spec fn declarable(d: JsonExtractDecl) -> bool {
    pointer_tokens(d.pointer@) is Some && target_name(d.dest).len() > 0
}

/// The operation of the declaration `d` at position `i`: it is captured under
/// the decimal digits of its position.
pub open spec fn decl_op(d: JsonExtractDecl, i: int) -> Op {
    Op {
        tokens: pointer_tokens(d.pointer@)->0,
        kind: OpKind::Extract,
        source: None,
        dest: Some(Dest::Metadata(decimal(i as nat))),
        payload: None,
        encoded: None,
    }
}

pub open spec fn decl_ops(decls: Seq<JsonExtractDecl>) -> Seq<Op> {
    decls.map(|i: int, d: JsonExtractDecl| decl_op(d, i))
}

/// The declarations can be compiled: each is acceptable and no pointer occurs twice.
pub open spec fn compilable(decls: Seq<JsonExtractDecl>) -> bool {
    &&& forall|i: int| 0 <= i < decls.len() ==> declarable(#[trigger] decls[i])
    &&& forall|i: int, j: int|
        0 <= i < j < decls.len() ==> pointer_tokens((#[trigger] decls[i]).pointer@)
            != pointer_tokens((#[trigger] decls[j]).pointer@)
}

/// The text that a pass has captured for the declaration at position `i`.
pub open spec fn captured_text(w: Walk, i: int) -> Option<Seq<char>> {
    if w.meta.contains_key(decimal(i as nat)) {
        Some(w.meta[decimal(i as nat)])
    } else {
        None
    }
}

/// The metadata after the first `n` declarations are written.
pub open spec fn metadata_after(
    decls: Seq<JsonExtractDecl>,
    w: Walk,
    n: int,
    base: Map<Seq<char>, Seq<char>>,
) -> Map<Seq<char>, Seq<char>>
    decreases n,
{
    if n <= 0 {
        base
    } else {
        let before = metadata_after(decls, w, n - 1, base);
        match (decls[n - 1].dest, captured_text(w, n - 1)) {
            (ExtractTarget::Metadata(k), Some(t)) => before.insert(k@, t),
            _ => before,
        }
    }
}

/// The request headers after the first `n` declarations are written.
pub open spec fn headers_after(
    decls: Seq<JsonExtractDecl>,
    w: Walk,
    n: int,
    base: Seq<(Seq<char>, Seq<char>)>,
) -> Seq<(Seq<char>, Seq<char>)>
    decreases n,
{
    if n <= 0 {
        base
    } else {
        let before = headers_after(decls, w, n - 1, base);
        match (decls[n - 1].dest, captured_text(w, n - 1)) {
            (ExtractTarget::Header(k), Some(t)) => before.push((k@, t)),
            _ => before,
        }
    }
}

/// Declared extracts as one pass.
pub struct JsonExtractPrePass {
    decls: Vec<JsonExtractDecl>,
    op_set: CompiledOpSet,
}

impl JsonExtractPrePass {
    pub closed spec fn wf(self) -> bool {
        self.op_set.wf() && self.op_set.model() == decl_ops(self.decls@)
    }

    /// The declarations of this pass.
    pub closed spec fn decls(self) -> Seq<JsonExtractDecl> {
        self.decls@
    }

    /// Compile declarations; nothing to extract gives no pass.
    pub fn compile(declarations: Vec<JsonExtractDecl>) -> (r: Result<
        Option<JsonExtractPrePass>,
        JsonError,
    >)
        ensures
            match r {
                Ok(None) => declarations@.len() == 0,
                Ok(Some(p)) => declarations@.len() > 0 && compilable(declarations@) && p.wf()
                    && p.decls() == declarations@,
                Err(err) => err == JsonError::Compile && !compilable(declarations@),
            },
    {
        if declarations.len() == 0 {
            return Ok(None);
        }
        let ghost all = declarations@;
        let mut ops: Vec<CompiledOp> = Vec::new();
        let mut i: usize = 0;
        while i < declarations.len()
            invariant
                all == declarations@,
                i <= all.len(),
                ops@.len() == i,
                forall|k: int| 0 <= k < i ==> declarable(#[trigger] all[k]),
                forall|k: int| 0 <= k < i ==> (#[trigger] ops@[k]).model() == decl_op(all[k], k),
                forall|a: int, b: int|
                    0 <= a < b < i ==> pointer_tokens((#[trigger] all[a]).pointer@) != pointer_tokens(
                        (#[trigger] all[b]).pointer@,
                    ),
            decreases all.len() - i,
        {
            let d = &declarations[i];
            let tokens = match compile_pointer(d.pointer.as_str()) {
                Some(t) => t,
                None => {
                    assert(!declarable(all[i as int]));
                    return Err(JsonError::Compile);
                },
            };
            let empty = match &d.dest {
                ExtractTarget::Metadata(k) => k.as_str().is_empty(),
                ExtractTarget::Header(k) => k.as_str().is_empty(),
            };
            if empty {
                assert(!declarable(all[i as int]));
                return Err(JsonError::Compile);
            }
            let mut j: usize = 0;
            while j < i
                invariant
                    all == declarations@,
                    j <= i < all.len(),
                    ops@.len() == i,
                    pointer_tokens(all[i as int].pointer@) == Some(texts(tokens@)),
                    forall|k: int| 0 <= k < i ==> declarable(#[trigger] all[k]),
                    forall|k: int| 0 <= k < i ==> (#[trigger] ops@[k]).model() == decl_op(all[k], k),
                    forall|k: int|
                        0 <= k < j ==> pointer_tokens((#[trigger] all[k]).pointer@) != pointer_tokens(
                            all[i as int].pointer@,
                        ),
                decreases i - j,
            {
                assert(ops@[j as int].model() == decl_op(all[j as int], j as int));
                assert(declarable(all[j as int]));
                if same_tokens(&ops[j].tokens, &tokens) {
                    return Err(JsonError::Compile);
                }
                j = j + 1;
            }
            let op = CompiledOp {
                pointer: d.pointer.clone(),
                tokens,
                kind: OpKind::Extract,
                source: None,
                dest: Some(ExtractDest::Metadata(decimal_text(i as u64))),
                static_payload: None,
                encoded_last_token: None,
            };
            assert(op.model() == decl_op(all[i as int], i as int));
            ops.push(op);
            i = i + 1;
        }
        assert(models(ops@) =~= decl_ops(all));
        let index = OpPathIndex::build(ops.as_slice());
        let op_set = CompiledOpSet { ops, index, growth_hint: 0 };
        Ok(Some(JsonExtractPrePass { decls: declarations, op_set }))
    }

    /// Run the pass over `body` and write the results into `store`.
    pub fn apply(&self, body: &[u8], store: &mut MapStore) -> (r: Result<(), JsonError>)
        requires
            self.wf(),
        ensures
            match walk_document(
                pass_env(decl_ops(self.decls()), RewriteMode::ExtractOnly, Map::empty(), Map::empty()),
                body@,
            ) {
                Err(RewriteError::InvalidJson) => r == Err::<(), JsonError>(JsonError::InvalidJson)
                    && *final(store) == *old(store),
                Err(RewriteError::Depth) => r == Err::<(), JsonError>(JsonError::Depth)
                    && *final(store) == *old(store),
                Ok(w) => {
                    &&& r is Ok
                    &&& final(store).metadata@ == metadata_after(
                        self.decls(),
                        w,
                        self.decls().len() as int,
                        old(store).metadata@,
                    )
                    &&& header_views(final(store).request_headers@) == headers_after(
                        self.decls(),
                        w,
                        self.decls().len() as int,
                        header_views(old(store).request_headers@),
                    )
                },
            },
    {
        match extract_document(body, &self.op_set) {
            Err(RewriteError::InvalidJson) => Err(JsonError::InvalidJson),
            Err(RewriteError::Depth) => Err(JsonError::Depth),
            Ok(captures) => {
                let ghost env = pass_env(
                    decl_ops(self.decls@),
                    RewriteMode::ExtractOnly,
                    Map::empty(),
                    Map::empty(),
                );
                let ghost w = walk_document(env, body@)->Ok_0;
                let mut i: usize = 0;
                while i < self.decls.len()
                    invariant
                        i <= self.decls@.len(),
                        captures@ == w.meta,
                        store.metadata@ == metadata_after(
                            self.decls@,
                            w,
                            i as int,
                            old(store).metadata@,
                        ),
                        header_views(store.request_headers@) == headers_after(
                            self.decls@,
                            w,
                            i as int,
                            header_views(old(store).request_headers@),
                        ),
                    decreases self.decls@.len() - i,
                {
                    let key = decimal_text(i as u64);
                    if let Some(text) = captures.get(key.as_str()) {
                        match &self.decls[i].dest {
                            ExtractTarget::Metadata(k) => {
                                store.metadata.insert(k.clone(), text.clone());
                            },
                            ExtractTarget::Header(k) => {
                                let ghost before = store.request_headers@;
                                store.request_headers.push((k.clone(), text.clone()));
                                assert(header_views(store.request_headers@) =~= header_views(
                                    before,
                                ).push((k@, text@)));
                            },
                        }
                    }
                    i = i + 1;
                }
                Ok(())
            },
        }
    }
}

} // verus!
