//! Configuration of the JSON body filter and its compilation.

use vstd::prelude::*;

use crate::json_body::index::OpPathIndex;
use crate::json_body::ops::{models, texts, CompiledOp, Dest, ExtractDest, Op, OpKind, Source, ValueSource};
use crate::json_body::grammar::is_value;
use crate::json_body::output::{inject_json, injects_json, stands_alone};
use crate::json_body::pointer::{compile_pointer, overlap, pointer_tokens, pointers_overlap, same_tokens};
use crate::json_body::rewrite::{encoded_last_object_token, CompiledOpSet};
use crate::json_text::{compact_json, json_compact, json_string};
use crate::text::{concat, concat3, copy_text};

verus! {

/// Default maximum body size (10 MiB).
pub const DEFAULT_JSON_BODY_MAX_BYTES: usize = 10_485_760;

/// What to do with a body that is not valid JSON.
#[derive(Clone, Copy, Debug, PartialEq, Eq, Structural)]
pub enum OnInvalidBehavior {
    /// Leave the body unchanged.
    Continue,
    /// Reject the request.
    Reject,
    /// Fail the filter.
    Error,
}

/// The side of an exchange that an operation applies to.
#[derive(Clone, Copy, Debug, PartialEq, Eq, Structural)]
pub enum Direction {
    Request,
    Response,
}

/// The list of a direction that an operation stands in.
#[derive(Clone, Copy, Debug, PartialEq, Eq, Structural)]
pub enum Section {
    Extract,
    Add,
    Replace,
    Remove,
}

/// Namespace and key of structured metadata.
#[derive(Debug)]
pub struct StructuredMetadataRef {
    pub namespace: String,
    pub key: String,
}

/// A pointer plus exactly one of `value`, `metadata` or `structured_metadata`.
#[derive(Debug)]
pub struct PointerOpConfig {
    /// JSON Pointer identifying the target.
    pub pointer: String,
    /// Static value, as JSON text.
    pub value: Option<Vec<u8>>,
    /// Metadata key; its text is injected as a JSON string.
    pub metadata: Option<String>,
    /// Structured metadata; injected as JSON.
    pub structured_metadata: Option<StructuredMetadataRef>,
}

/// A pointer plus exactly one of `metadata` or `structured_metadata`.
#[derive(Debug)]
pub struct ExtractOpConfig {
    /// JSON Pointer identifying the value to copy.
    pub pointer: String,
    /// Metadata key to write.
    pub metadata: Option<String>,
    /// Structured metadata to write.
    pub structured_metadata: Option<StructuredMetadataRef>,
}

/// Configuration of the JSON body filter.
#[derive(Debug)]
pub struct JsonBodyConfig {
    pub request_add: Vec<PointerOpConfig>,
    pub request_remove: Vec<String>,
    pub request_replace: Vec<PointerOpConfig>,
    pub request_extract: Vec<ExtractOpConfig>,
    pub response_add: Vec<PointerOpConfig>,
    pub response_remove: Vec<String>,
    pub response_replace: Vec<PointerOpConfig>,
    pub response_extract: Vec<ExtractOpConfig>,
    /// Maximum body size in bytes.
    pub max_body_bytes: usize,
    /// Behavior when the body is not valid JSON.
    pub on_invalid: OnInvalidBehavior,
}

impl Default for JsonBodyConfig {
    /// No operations, the default size, and bodies that are not JSON left alone.
    fn default() -> (r: Self)
        ensures
            r.request_add@.len() == 0,
            r.request_remove@.len() == 0,
            r.request_replace@.len() == 0,
            r.request_extract@.len() == 0,
            r.response_add@.len() == 0,
            r.response_remove@.len() == 0,
            r.response_replace@.len() == 0,
            r.response_extract@.len() == 0,
            r.max_body_bytes == DEFAULT_JSON_BODY_MAX_BYTES,
            r.on_invalid == OnInvalidBehavior::Continue,
    {
        JsonBodyConfig {
            request_add: Vec::new(),
            request_remove: Vec::new(),
            request_replace: Vec::new(),
            request_extract: Vec::new(),
            response_add: Vec::new(),
            response_remove: Vec::new(),
            response_replace: Vec::new(),
            response_extract: Vec::new(),
            max_body_bytes: DEFAULT_JSON_BODY_MAX_BYTES,
            on_invalid: OnInvalidBehavior::Continue,
        }
    }
}

/// Why a configuration is refused.
#[derive(Debug)]
pub enum JsonBodyError {
    /// `max_body_bytes` is zero.
    MaxBodyBytes,
    /// A response body cannot grow: this response list is not supported.
    ResponseGrowth { section: Section },
    /// No operation is configured.
    NoOperations,
    /// The pointer is not a JSON Pointer.
    Pointer { pointer: String },
    /// The document root cannot be added or removed.
    Root { direction: Direction, section: Section },
    /// Not exactly one value source.
    ValueSources { direction: Direction, section: Section, pointer: String },
    /// Not exactly one extract destination.
    ExtractDests { direction: Direction, pointer: String },
    /// The metadata key is empty.
    EmptyMetadata { direction: Direction, section: Section },
    /// The structured-metadata namespace or key is empty.
    EmptyStructured { direction: Direction, section: Section },
    /// The static value is not JSON.
    StaticValue { pointer: String },
    /// Two pointers of one direction overlap.
    Overlap { direction: Direction, first: String, second: String },
}

/// Whether a structured-metadata reference is complete.
pub open spec fn complete(m: StructuredMetadataRef) -> bool {
    m.namespace@.len() > 0 && m.key@.len() > 0
}

/// The number of value sources that are set.
pub open spec fn source_count(cfg: PointerOpConfig) -> int {
    (if cfg.value is Some {
        1int
    } else {
        0
    }) + (if cfg.metadata is Some {
        1int
    } else {
        0
    }) + (if cfg.structured_metadata is Some {
        1int
    } else {
        0
    })
}

/// The value source of an add or replace entry.
pub open spec fn source_of(direction: Direction, section: Section, cfg: PointerOpConfig) -> Result<
    Source,
    JsonBodyError,
> {
    if source_count(cfg) != 1 {
        Err(JsonBodyError::ValueSources { direction, section, pointer: cfg.pointer })
    } else if cfg.value is Some {
        match json_compact(cfg.value->0@) {
            Some(b) => Ok(Source::Static(b)),
            None => Err(JsonBodyError::StaticValue { pointer: cfg.pointer }),
        }
    } else if cfg.metadata is Some {
        if cfg.metadata->0@.len() == 0 {
            Err(JsonBodyError::EmptyMetadata { direction, section })
        } else {
            Ok(Source::Metadata(cfg.metadata->0@))
        }
    } else if complete(cfg.structured_metadata->0) {
        Ok(
            Source::Structured(
                cfg.structured_metadata->0.namespace@,
                cfg.structured_metadata->0.key@,
            ),
        )
    } else {
        Err(JsonBodyError::EmptyStructured { direction, section })
    }
}

/// The destination of an extract entry.
pub open spec fn dest_of(direction: Direction, cfg: ExtractOpConfig) -> Result<Dest, JsonBodyError> {
    match (cfg.metadata, cfg.structured_metadata) {
        (Some(key), None) => if key@.len() == 0 {
            Err(JsonBodyError::EmptyMetadata { direction, section: Section::Extract })
        } else {
            Ok(Dest::Metadata(key@))
        },
        (None, Some(m)) => if complete(m) {
            Ok(Dest::Structured(m.namespace@, m.key@))
        } else {
            Err(JsonBodyError::EmptyStructured { direction, section: Section::Extract })
        },
        _ => Err(JsonBodyError::ExtractDests { direction, pointer: cfg.pointer }),
    }
}

pub open spec fn encoded_last(tokens: Seq<Seq<char>>) -> Option<Seq<u8>> {
    if tokens.len() > 0 {
        Some(json_string(tokens.last()))
    } else {
        None
    }
}

/// An add or replace entry as an operation.
pub open spec fn valued_op(
    direction: Direction,
    section: Section,
    kind: OpKind,
    cfg: PointerOpConfig,
) -> Result<Op, JsonBodyError> {
    match pointer_tokens(cfg.pointer@) {
        None => Err(JsonBodyError::Pointer { pointer: cfg.pointer }),
        Some(tokens) => if tokens.len() == 0 && kind == OpKind::Add {
            Err(JsonBodyError::Root { direction, section })
        } else {
            match source_of(direction, section, cfg) {
                Err(err) => Err(err),
                Ok(source) => Ok(
                    Op {
                        tokens,
                        kind,
                        source: if source is Static {
                            None
                        } else {
                            Some(source)
                        },
                        dest: None,
                        payload: match source {
                            Source::Static(b) => Some(b),
                            _ => None,
                        },
                        encoded: encoded_last(tokens),
                    },
                ),
            }
        },
    }
}

/// A remove entry as an operation.
pub open spec fn remove_op(direction: Direction, pointer: String) -> Result<Op, JsonBodyError> {
    match pointer_tokens(pointer@) {
        None => Err(JsonBodyError::Pointer { pointer }),
        Some(tokens) => if tokens.len() == 0 {
            Err(JsonBodyError::Root { direction, section: Section::Remove })
        } else {
            Ok(
                Op {
                    tokens,
                    kind: OpKind::Remove,
                    source: None,
                    dest: None,
                    payload: None,
                    encoded: encoded_last(tokens),
                },
            )
        },
    }
}

/// An extract entry as an operation.
pub open spec fn extract_entry_op(direction: Direction, cfg: ExtractOpConfig) -> Result<
    Op,
    JsonBodyError,
> {
    match pointer_tokens(cfg.pointer@) {
        None => Err(JsonBodyError::Pointer { pointer: cfg.pointer }),
        Some(tokens) => match dest_of(direction, cfg) {
            Err(err) => Err(err),
            Ok(dest) => Ok(
                Op {
                    tokens,
                    kind: OpKind::Extract,
                    source: None,
                    dest: Some(dest),
                    payload: None,
                    encoded: None,
                },
            ),
        },
    }
}

/// The source of an add or replace entry, exactly one of which must be set.
fn value_source(direction: Direction, section: Section, cfg: &PointerOpConfig) -> (r: Result<
    ValueSource,
    JsonBodyError,
>)
    ensures
        match r {
            Ok(s) => source_of(direction, section, *cfg) == Ok::<Source, JsonBodyError>(s.model()),
            Err(err) => source_of(direction, section, *cfg) == Err::<Source, JsonBodyError>(err),
        },
        r matches Ok(ValueSource::Static(b)) ==> is_value(b@),
{
    let one = match (&cfg.value, &cfg.metadata, &cfg.structured_metadata) {
        (Some(_), None, None) => true,
        (None, Some(_), None) => true,
        (None, None, Some(_)) => true,
        _ => false,
    };
    if !one {
        return Err(JsonBodyError::ValueSources { direction, section, pointer: cfg.pointer.clone() });
    }
    if let Some(value) = &cfg.value {
        return match compact_json(value.as_slice()) {
            Some(b) => Ok(ValueSource::Static(b)),
            None => Err(JsonBodyError::StaticValue { pointer: cfg.pointer.clone() }),
        };
    }
    if let Some(key) = &cfg.metadata {
        if key.as_str().is_empty() {
            return Err(JsonBodyError::EmptyMetadata { direction, section });
        }
        return Ok(ValueSource::Metadata(key.clone()));
    }
    match &cfg.structured_metadata {
        Some(m) => if m.namespace.as_str().is_empty() || m.key.as_str().is_empty() {
            Err(JsonBodyError::EmptyStructured { direction, section })
        } else {
            Ok(ValueSource::Structured { namespace: m.namespace.clone(), key: m.key.clone() })
        },
        None => Err(
            JsonBodyError::ValueSources { direction, section, pointer: cfg.pointer.clone() },
        ),
    }
}

/// The destination of an extract entry, exactly one of which must be set.
fn extract_dest(direction: Direction, cfg: &ExtractOpConfig) -> (r: Result<
    ExtractDest,
    JsonBodyError,
>)
    ensures
        match r {
            Ok(d) => dest_of(direction, *cfg) == Ok::<Dest, JsonBodyError>(d.model()),
            Err(err) => dest_of(direction, *cfg) == Err::<Dest, JsonBodyError>(err),
        },
{
    match (&cfg.metadata, &cfg.structured_metadata) {
        (Some(key), None) => if key.as_str().is_empty() {
            Err(JsonBodyError::EmptyMetadata { direction, section: Section::Extract })
        } else {
            Ok(ExtractDest::Metadata(key.clone()))
        },
        (None, Some(m)) => if m.namespace.as_str().is_empty() || m.key.as_str().is_empty() {
            Err(JsonBodyError::EmptyStructured { direction, section: Section::Extract })
        } else {
            Ok(ExtractDest::Structured { namespace: m.namespace.clone(), key: m.key.clone() })
        },
        _ => Err(JsonBodyError::ExtractDests { direction, pointer: cfg.pointer.clone() }),
    }
}

/// The outcome of compiling one entry, as mathematical data.
pub open spec fn op_of(r: Result<CompiledOp, JsonBodyError>) -> Result<Op, JsonBodyError> {
    match r {
        Ok(op) => Ok(op.model()),
        Err(err) => Err(err),
    }
}

/// Compile an add or replace entry.
fn compile_valued_op(direction: Direction, section: Section, kind: OpKind, cfg: &PointerOpConfig) -> (r:
    Result<CompiledOp, JsonBodyError>)
    ensures
        op_of(r) == valued_op(direction, section, kind, *cfg),
        r matches Ok(op) ==> op.pointer == cfg.pointer && injects_json(op.model()),
{
    let tokens = match compile_pointer(cfg.pointer.as_str()) {
        Some(t) => t,
        None => {
            return Err(JsonBodyError::Pointer { pointer: cfg.pointer.clone() });
        },
    };
    if tokens.len() == 0 && kind == OpKind::Add {
        return Err(JsonBodyError::Root { direction, section });
    }
    let source = value_source(direction, section, cfg)?;
    let encoded_last_token = encoded_last_object_token(&tokens);
    let (source, static_payload): (Option<ValueSource>, Option<Vec<u8>>) = match source {
        ValueSource::Static(b) => (None, Some(b)),
        other => (Some(other), None),
    };
    let op = CompiledOp {
        pointer: cfg.pointer.clone(),
        tokens,
        kind,
        source,
        dest: None,
        static_payload,
        encoded_last_token,
    };
    proof {
        if tokens@.len() > 0 {
            assert(texts(tokens@).last() == tokens@.last()@);
        }
    }
    Ok(op)
}

/// Compile a remove pointer.
fn compile_remove_op(direction: Direction, pointer: &String) -> (r: Result<CompiledOp, JsonBodyError>)
    ensures
        op_of(r) == remove_op(direction, *pointer),
        r matches Ok(op) ==> op.pointer == *pointer && injects_json(op.model()),
{
    let tokens = match compile_pointer(pointer.as_str()) {
        Some(t) => t,
        None => {
            return Err(JsonBodyError::Pointer { pointer: pointer.clone() });
        },
    };
    if tokens.len() == 0 {
        return Err(JsonBodyError::Root { direction, section: Section::Remove });
    }
    let encoded_last_token = encoded_last_object_token(&tokens);
    proof {
        assert(texts(tokens@).last() == tokens@.last()@);
    }
    Ok(
        CompiledOp {
            pointer: pointer.clone(),
            tokens,
            kind: OpKind::Remove,
            source: None,
            dest: None,
            static_payload: None,
            encoded_last_token,
        },
    )
}

/// Compile an extract entry.
fn compile_extract_op(direction: Direction, cfg: &ExtractOpConfig) -> (r: Result<
    CompiledOp,
    JsonBodyError,
>)
    ensures
        op_of(r) == extract_entry_op(direction, *cfg),
        r matches Ok(op) ==> op.pointer == cfg.pointer && injects_json(op.model()),
{
    let tokens = match compile_pointer(cfg.pointer.as_str()) {
        Some(t) => t,
        None => {
            return Err(JsonBodyError::Pointer { pointer: cfg.pointer.clone() });
        },
    };
    let dest = extract_dest(direction, cfg)?;
    Ok(
        CompiledOp {
            pointer: cfg.pointer.clone(),
            tokens,
            kind: OpKind::Extract,
            source: None,
            dest: Some(dest),
            static_payload: None,
            encoded_last_token: None,
        },
    )
}


/// All operations of a list of entries, or the error of the first entry that has one.
pub open spec fn collected(entries: Seq<Result<Op, JsonBodyError>>) -> Result<
    Seq<Op>,
    JsonBodyError,
>
    decreases entries.len(),
{
    if entries.len() == 0 {
        Ok(Seq::empty())
    } else {
        match collected(entries.drop_last()) {
            Err(err) => Err(err),
            Ok(front) => match entries.last() {
                Err(err) => Err(err),
                Ok(op) => Ok(front.push(op)),
            },
        }
    }
}

/// The entries of one direction, in order: extract, add, replace, remove.
pub open spec fn entries_of(
    direction: Direction,
    add: Seq<PointerOpConfig>,
    replace: Seq<PointerOpConfig>,
    remove: Seq<String>,
    extract: Seq<ExtractOpConfig>,
) -> Seq<Result<Op, JsonBodyError>> {
    extract.map_values(|c: ExtractOpConfig| extract_entry_op(direction, c)) + add.map_values(
        |c: PointerOpConfig| valued_op(direction, Section::Add, OpKind::Add, c),
    ) + replace.map_values(
        |c: PointerOpConfig| valued_op(direction, Section::Replace, OpKind::Replace, c),
    ) + remove.map_values(|p: String| remove_op(direction, p))
}

/// The pointers of one direction, in the order of its entries.
pub open spec fn pointers_of(
    add: Seq<PointerOpConfig>,
    replace: Seq<PointerOpConfig>,
    remove: Seq<String>,
    extract: Seq<ExtractOpConfig>,
) -> Seq<String> {
    extract.map_values(|c: ExtractOpConfig| c.pointer) + add.map_values(|c: PointerOpConfig| c.pointer)
        + replace.map_values(|c: PointerOpConfig| c.pointer) + remove
}

/// Two operations of one direction conflict: mutating ones when their pointers
/// overlap, extracting ones when their pointers are equal.
pub open spec fn conflicts(a: Op, b: Op) -> bool {
    if a.kind.mutating() && b.kind.mutating() {
        overlap(a.tokens, b.tokens)
    } else if !a.kind.mutating() && !b.kind.mutating() {
        a.tokens == b.tokens
    } else {
        false
    }
}

/// The first conflicting pair at or after `(i, j)`.
pub open spec fn conflict_from(ops: Seq<Op>, i: int, j: int) -> Option<(int, int)>
    decreases ops.len() - i, ops.len() - j,
{
    if !(0 <= i < ops.len()) || j <= i {
        None
    } else if j >= ops.len() {
        conflict_from(ops, i + 1, i + 2)
    } else if conflicts(ops[i], ops[j]) {
        Some((i, j))
    } else {
        conflict_from(ops, i, j + 1)
    }
}

/// The operations of one direction.
pub open spec fn direction_ops(
    direction: Direction,
    add: Seq<PointerOpConfig>,
    replace: Seq<PointerOpConfig>,
    remove: Seq<String>,
    extract: Seq<ExtractOpConfig>,
) -> Result<Seq<Op>, JsonBodyError> {
    match collected(entries_of(direction, add, replace, remove, extract)) {
        Err(err) => Err(err),
        Ok(ops) => match conflict_from(ops, 0, 1) {
            None => Ok(ops),
            Some((i, j)) => {
                let pointers = pointers_of(add, replace, remove, extract);
                Err(JsonBodyError::Overlap { direction, first: pointers[i], second: pointers[j] })
            },
        },
    }
}

proof fn lemma_no_conflict(ops: Seq<Op>, i: int, j: int, a: int, b: int)
    requires
        0 <= i < j,
        conflict_from(ops, i, j) is None,
        i <= a < b < ops.len(),
        a == i ==> j <= b,
    ensures
        !conflicts(ops[a], ops[b]),
    decreases ops.len() - i, ops.len() - j,
{
    if j >= ops.len() {
        lemma_no_conflict(ops, i + 1, i + 2, a, b);
    } else if !(a == i && b == j) {
        lemma_no_conflict(ops, i, j + 1, a, b);
    }
}

/// Each mutating operation of an accepted configuration stands alone: no other
/// one changes what is at its pointer, above it or below it.
pub proof fn law_configured_operations_stand_alone(
    direction: Direction,
    add: Seq<PointerOpConfig>,
    replace: Seq<PointerOpConfig>,
    remove: Seq<String>,
    extract: Seq<ExtractOpConfig>,
    j: int,
)
    requires
        direction_ops(direction, add, replace, remove, extract) matches Ok(ops) && 0 <= j < ops.len()
            && ops[j].kind.mutating(),
    ensures
        stands_alone(direction_ops(direction, add, replace, remove, extract)->Ok_0, j),
{
    let ops = direction_ops(direction, add, replace, remove, extract)->Ok_0;
    assert forall|i: int| 0 <= i < ops.len() && i != j && (#[trigger] ops[i]).kind.mutating() implies !overlap(
        ops[i].tokens,
        ops[j].tokens,
    ) by {
        if i < j {
            lemma_no_conflict(ops, 0, 1, i, j);
        } else {
            lemma_no_conflict(ops, 0, 1, j, i);
        }
    }
}

/// Whether two compiled operations conflict.
fn overlapping_ops(a: &CompiledOp, b: &CompiledOp) -> (r: bool)
    ensures
        r == conflicts(a.model(), b.model()),
{
    if a.kind.is_mutating() && b.kind.is_mutating() {
        pointers_overlap(&a.tokens, &b.tokens)
    } else if !a.kind.is_mutating() && !b.kind.is_mutating() {
        same_tokens(&a.tokens, &b.tokens)
    } else {
        false
    }
}

/// Refuse conflicting pointers.
fn reject_overlaps(direction: Direction, ops: &Vec<CompiledOp>) -> (r: Result<(), JsonBodyError>)
    ensures
        match conflict_from(models(ops@), 0, 1) {
            None => r is Ok,
            Some((i, j)) => 0 <= i < j < ops@.len() && r == Err::<(), JsonBodyError>(
                JsonBodyError::Overlap {
                    direction,
                    first: ops@[i].pointer,
                    second: ops@[j].pointer,
                },
            ),
        },
{
    let ghost all = models(ops@);
    let n: usize = ops.len();
    let mut i: usize = 0;
    while i < n
        invariant
            n == ops@.len(),
            i <= n,
            all == models(ops@),
            conflict_from(all, 0, 1) == conflict_from(all, i as int, i + 1),
        decreases n - i,
    {
        let mut j: usize = i + 1;
        while j < n
            invariant
                n == ops@.len(),
                i < j <= n,
                all == models(ops@),
                conflict_from(all, 0, 1) == conflict_from(all, i as int, j as int),
            decreases n - j,
        {
            assert(all[i as int] == ops@[i as int].model());
            assert(all[j as int] == ops@[j as int].model());
            if overlapping_ops(&ops[i], &ops[j]) {
                return Err(
                    JsonBodyError::Overlap {
                        direction,
                        first: ops[i].pointer.clone(),
                        second: ops[j].pointer.clone(),
                    },
                );
            }
            j = j + 1;
        }
        i = i + 1;
    }
    Ok(())
}

/// Bytes by which one operation can grow the document.
pub open spec fn growth_of(op: Op) -> nat {
    if op.kind == OpKind::Add || op.kind == OpKind::Replace {
        (match op.payload {
            Some(b) => b.len(),
            None => 0,
        }) + (match op.encoded {
            Some(b) => b.len(),
            None => 0,
        })
    } else {
        0
    }
}

/// Bytes by which a list of operations can grow the document.
pub open spec fn growth(ops: Seq<Op>) -> nat
    decreases ops.len(),
{
    if ops.len() == 0 {
        0
    } else {
        growth(ops.drop_last()) + growth_of(ops.last())
    }
}

pub open spec fn clamp(n: nat) -> usize {
    if n > usize::MAX {
        usize::MAX
    } else {
        n as usize
    }
}

/// Bytes contributed by one operation to the size of the output.
fn op_growth_bytes(op: &CompiledOp) -> (r: usize)
    ensures
        r == clamp(growth_of(op.model())),
{
    let payload: usize = match &op.static_payload {
        Some(b) => b.len(),
        None => 0,
    };
    let key: usize = match &op.encoded_last_token {
        Some(b) => b.len(),
        None => 0,
    };
    match op.kind {
        OpKind::Add | OpKind::Replace => payload.saturating_add(key),
        OpKind::Remove | OpKind::Extract => 0,
    }
}

/// Compiled operations with their index and growth hint.
fn finalize_op_set(ops: Vec<CompiledOp>) -> (r: CompiledOpSet)
    ensures
        r.wf(),
        r.ops == ops,
        r.growth_hint == clamp(growth(models(ops@))),
{
    let ghost all = models(ops@);
    let mut growth_hint: usize = 0;
    let mut i: usize = 0;
    while i < ops.len()
        invariant
            i <= ops@.len(),
            all == models(ops@),
            growth_hint == clamp(growth(all.take(i as int))),
        decreases ops@.len() - i,
    {
        assert(all.take(i + 1).drop_last() =~= all.take(i as int));
        assert(all.take(i + 1).last() == ops@[i as int].model());
        growth_hint = growth_hint.saturating_add(op_growth_bytes(&ops[i]));
        i = i + 1;
    }
    assert(all.take(ops@.len() as int) =~= all);
    let index = OpPathIndex::build(ops.as_slice());
    CompiledOpSet { ops, index, growth_hint }
}

proof fn lemma_collected_fails(entries: Seq<Result<Op, JsonBodyError>>, i: int)
    requires
        0 <= i < entries.len(),
        collected(entries.take(i)) is Ok,
        entries[i] is Err,
    ensures
        collected(entries) == Err::<Seq<Op>, JsonBodyError>(entries[i]->Err_0),
    decreases entries.len(),
{
    assert(entries.take(i + 1).drop_last() =~= entries.take(i));
    assert(entries.take(i + 1).last() == entries[i]);
    if i + 1 < entries.len() {
        assert(entries.drop_last()[i] == entries[i]);
        assert(entries.drop_last().take(i) =~= entries.take(i));
        lemma_collected_fails(entries.drop_last(), i);
    } else {
        assert(entries.take(i + 1) =~= entries);
    }
}

/// What has been compiled is the front of `entries`, with the pointers `pointers`.
spec fn compiled_front(
    ops: Seq<CompiledOp>,
    entries: Seq<Result<Op, JsonBodyError>>,
    pointers: Seq<String>,
) -> bool {
    &&& ops.len() <= entries.len()
    &&& entries.len() == pointers.len()
    &&& collected(entries.take(ops.len() as int)) == Ok::<Seq<Op>, JsonBodyError>(models(ops))
    &&& forall|k: int| 0 <= k < ops.len() ==> (#[trigger] ops[k]).pointer == pointers[k]
    &&& inject_json(models(ops))
}

/// One more compiled entry.
proof fn lemma_compiled_push(
    ops: Seq<CompiledOp>,
    op: CompiledOp,
    entries: Seq<Result<Op, JsonBodyError>>,
    pointers: Seq<String>,
)
    requires
        compiled_front(ops, entries, pointers),
        ops.len() < entries.len(),
        entries[ops.len() as int] == Ok::<Op, JsonBodyError>(op.model()),
        op.pointer == pointers[ops.len() as int],
        injects_json(op.model()),
    ensures
        compiled_front(ops.push(op), entries, pointers),
{
    let n = ops.len() as int;
    assert(entries.take(n + 1).drop_last() =~= entries.take(n));
    assert(entries.take(n + 1).last() == entries[n]);
    assert(models(ops.push(op)) =~= models(ops).push(op.model()));
}

/// Compile the lists of one direction.
fn compile_direction(
    direction: Direction,
    add: &Vec<PointerOpConfig>,
    replace: &Vec<PointerOpConfig>,
    remove: &Vec<String>,
    extract: &Vec<ExtractOpConfig>,
) -> (r: Result<CompiledOpSet, JsonBodyError>)
    ensures
        match direction_ops(direction, add@, replace@, remove@, extract@) {
            Err(err) => r == Err::<CompiledOpSet, JsonBodyError>(err),
            Ok(ops) => r is Ok && r->Ok_0.wf() && r->Ok_0.model() == ops && r->Ok_0.growth_hint
                == clamp(growth(ops)) && inject_json(ops),
        },
{
    let ghost entries = entries_of(direction, add@, replace@, remove@, extract@);
    let ghost pointers = pointers_of(add@, replace@, remove@, extract@);
    let mut ops: Vec<CompiledOp> = Vec::new();
    assert(entries.take(0) =~= Seq::<Result<Op, JsonBodyError>>::empty());
    assert(models(ops@) =~= Seq::<Op>::empty());
    let mut i: usize = 0;
    while i < extract.len()
        invariant
            entries == entries_of(direction, add@, replace@, remove@, extract@),
            pointers == pointers_of(add@, replace@, remove@, extract@),
            i <= extract@.len(),
            ops@.len() == i,
            compiled_front(ops@, entries, pointers),
        decreases extract@.len() - i,
    {
        assert(entries[i as int] == extract_entry_op(direction, extract@[i as int]));
        match compile_extract_op(direction, &extract[i]) {
            Ok(op) => {
                proof {
                    lemma_compiled_push(ops@, op, entries, pointers);
                }
                ops.push(op);
            },
            Err(err) => {
                proof {
                    lemma_collected_fails(entries, i as int);
                }
                return Err(err);
            },
        }
        i = i + 1;
    }
    i = 0;
    while i < add.len()
        invariant
            entries == entries_of(direction, add@, replace@, remove@, extract@),
            pointers == pointers_of(add@, replace@, remove@, extract@),
            i <= add@.len(),
            ops@.len() == extract@.len() + i,
            compiled_front(ops@, entries, pointers),
        decreases add@.len() - i,
    {
        let ghost at = extract@.len() + i;
        assert(entries[at] == valued_op(direction, Section::Add, OpKind::Add, add@[i as int]));
        match compile_valued_op(direction, Section::Add, OpKind::Add, &add[i]) {
            Ok(op) => {
                proof {
                    lemma_compiled_push(ops@, op, entries, pointers);
                }
                ops.push(op);
            },
            Err(err) => {
                proof {
                    lemma_collected_fails(entries, at);
                }
                return Err(err);
            },
        }
        i = i + 1;
    }
    i = 0;
    while i < replace.len()
        invariant
            entries == entries_of(direction, add@, replace@, remove@, extract@),
            pointers == pointers_of(add@, replace@, remove@, extract@),
            i <= replace@.len(),
            ops@.len() == extract@.len() + add@.len() + i,
            compiled_front(ops@, entries, pointers),
        decreases replace@.len() - i,
    {
        let ghost at = extract@.len() + add@.len() + i;
        assert(entries[at] == valued_op(
            direction,
            Section::Replace,
            OpKind::Replace,
            replace@[i as int],
        ));
        match compile_valued_op(direction, Section::Replace, OpKind::Replace, &replace[i]) {
            Ok(op) => {
                proof {
                    lemma_compiled_push(ops@, op, entries, pointers);
                }
                ops.push(op);
            },
            Err(err) => {
                proof {
                    lemma_collected_fails(entries, at);
                }
                return Err(err);
            },
        }
        i = i + 1;
    }
    i = 0;
    while i < remove.len()
        invariant
            entries == entries_of(direction, add@, replace@, remove@, extract@),
            pointers == pointers_of(add@, replace@, remove@, extract@),
            i <= remove@.len(),
            ops@.len() == extract@.len() + add@.len() + replace@.len() + i,
            compiled_front(ops@, entries, pointers),
        decreases remove@.len() - i,
    {
        let ghost at = extract@.len() + add@.len() + replace@.len() + i;
        assert(entries[at] == remove_op(direction, remove@[i as int]));
        match compile_remove_op(direction, &remove[i]) {
            Ok(op) => {
                proof {
                    lemma_compiled_push(ops@, op, entries, pointers);
                }
                ops.push(op);
            },
            Err(err) => {
                proof {
                    lemma_collected_fails(entries, at);
                }
                return Err(err);
            },
        }
        i = i + 1;
    }
    assert(entries.take(entries.len() as int) =~= entries);
    reject_overlaps(direction, &ops)?;
    Ok(finalize_op_set(ops))
}

/// Compiled operations of both directions.
pub struct CompiledOps {
    pub request: CompiledOpSet,
    pub response: CompiledOpSet,
}

/// The operations of both directions, or why the configuration is refused.
pub open spec fn plan_of(cfg: JsonBodyConfig) -> Result<(Seq<Op>, Seq<Op>), JsonBodyError> {
    if cfg.max_body_bytes == 0 {
        Err(JsonBodyError::MaxBodyBytes)
    } else if cfg.response_add@.len() > 0 {
        Err(JsonBodyError::ResponseGrowth { section: Section::Add })
    } else if cfg.response_replace@.len() > 0 {
        Err(JsonBodyError::ResponseGrowth { section: Section::Replace })
    } else {
        match direction_ops(
            Direction::Request,
            cfg.request_add@,
            cfg.request_replace@,
            cfg.request_remove@,
            cfg.request_extract@,
        ) {
            Err(err) => Err(err),
            Ok(request) => match direction_ops(
                Direction::Response,
                cfg.response_add@,
                cfg.response_replace@,
                cfg.response_remove@,
                cfg.response_extract@,
            ) {
                Err(err) => Err(err),
                Ok(response) => if request.len() == 0 && response.len() == 0 {
                    Err(JsonBodyError::NoOperations)
                } else {
                    Ok((request, response))
                },
            },
        }
    }
}

/// Validate a configuration and compile its pointers.
pub fn build_ops(cfg: &JsonBodyConfig) -> (r: Result<
    (usize, OnInvalidBehavior, CompiledOps),
    JsonBodyError,
>)
    ensures
        match plan_of(*cfg) {
            Err(err) => r == Err::<(usize, OnInvalidBehavior, CompiledOps), JsonBodyError>(err),
            Ok((request, response)) => {
                &&& r is Ok
                &&& r->Ok_0.0 == cfg.max_body_bytes
                &&& r->Ok_0.1 == cfg.on_invalid
                &&& r->Ok_0.2.request.wf()
                &&& r->Ok_0.2.request.model() == request
                &&& r->Ok_0.2.response.wf()
                &&& r->Ok_0.2.response.model() == response
                &&& r->Ok_0.2.request.growth_hint == clamp(growth(request))
                &&& r->Ok_0.2.response.growth_hint == clamp(growth(response))
                &&& inject_json(request)
                &&& inject_json(response)
            },
        },
{
    if cfg.max_body_bytes == 0 {
        return Err(JsonBodyError::MaxBodyBytes);
    }
    if cfg.response_add.len() > 0 {
        return Err(JsonBodyError::ResponseGrowth { section: Section::Add });
    }
    if cfg.response_replace.len() > 0 {
        return Err(JsonBodyError::ResponseGrowth { section: Section::Replace });
    }
    let request = compile_direction(
        Direction::Request,
        &cfg.request_add,
        &cfg.request_replace,
        &cfg.request_remove,
        &cfg.request_extract,
    )?;
    let response = compile_direction(
        Direction::Response,
        &cfg.response_add,
        &cfg.response_replace,
        &cfg.response_remove,
        &cfg.response_extract,
    )?;
    if request.ops.len() == 0 && response.ops.len() == 0 {
        return Err(JsonBodyError::NoOperations);
    }
    Ok((cfg.max_body_bytes, cfg.on_invalid, CompiledOps { request, response }))
}


impl Direction {
    pub open spec fn label(self) -> Seq<char> {
        match self {
            Direction::Request => "request"@,
            Direction::Response => "response"@,
        }
    }

    fn name(self) -> (r: &'static str)
        ensures
            r@ == self.label(),
    {
        match self {
            Direction::Request => "request",
            Direction::Response => "response",
        }
    }
}

impl Section {
    pub open spec fn label(self) -> Seq<char> {
        match self {
            Section::Extract => "extract"@,
            Section::Add => "add"@,
            Section::Replace => "replace"@,
            Section::Remove => "remove"@,
        }
    }

    fn name(self) -> (r: &'static str)
        ensures
            r@ == self.label(),
    {
        match self {
            Section::Extract => "extract",
            Section::Add => "add",
            Section::Replace => "replace",
            Section::Remove => "remove",
        }
    }
}

/// `json_body: <direction>_<section>`, the start of most messages.
pub open spec fn list_label(direction: Direction, section: Section) -> Seq<char> {
    "json_body: "@ + direction.label() + "_"@ + section.label()
}

fn list_name(direction: Direction, section: Section) -> (r: String)
    ensures
        r@ == list_label(direction, section),
{
    let mut out = concat3("json_body: ", direction.name(), "_");
    out.append(section.name());
    out
}

impl JsonBodyError {
    /// The message of this error.
    pub open spec fn text(self) -> Seq<char> {
        match self {
            JsonBodyError::MaxBodyBytes => "json_body: max_body_bytes must be greater than 0"@,
            JsonBodyError::ResponseGrowth { section } => list_label(Direction::Response, section)
                + " is not supported: the response length is already committed"@,
            JsonBodyError::NoOperations =>
                "json_body: at least one add, remove, replace, or extract operation is required"@,
            JsonBodyError::Pointer { pointer } => "json_body: invalid JSON Pointer '"@ + pointer@ + "'"@,
            JsonBodyError::Root { direction, section } => list_label(direction, section)
                + " cannot target the document root (pointer \"\")"@,
            JsonBodyError::ValueSources { direction, section, pointer } => list_label(
                direction,
                section,
            ) + " pointer '"@ + pointer@
                + "' must set exactly one of 'value', 'metadata', or 'structured_metadata'"@,
            JsonBodyError::ExtractDests { direction, pointer } => list_label(
                direction,
                Section::Extract,
            ) + " pointer '"@ + pointer@
                + "' must set exactly one of 'metadata' or 'structured_metadata'"@,
            JsonBodyError::EmptyMetadata { direction, section } => list_label(direction, section)
                + " 'metadata' must not be empty"@,
            JsonBodyError::EmptyStructured { direction, section } => list_label(direction, section)
                + " structured_metadata namespace and key must not be empty"@,
            JsonBodyError::StaticValue { pointer } =>
                "json_body: the static value of pointer '"@ + pointer@ + "' is not JSON"@,
            JsonBodyError::Overlap { direction, first, second } =>
                "json_body: overlapping JSON Pointers in "@ + direction.label() + ": '"@ + first@
                    + "' and '"@ + second@ + "'"@,
        }
    }

    /// The message of this error.
    pub fn message(&self) -> (r: String)
        ensures
            r@ == self.text(),
    {
        match self {
            JsonBodyError::MaxBodyBytes => copy_text(
                "json_body: max_body_bytes must be greater than 0",
            ),
            JsonBodyError::ResponseGrowth { section } => concat(
                list_name(Direction::Response, *section).as_str(),
                " is not supported: the response length is already committed",
            ),
            JsonBodyError::NoOperations => copy_text(
                "json_body: at least one add, remove, replace, or extract operation is required",
            ),
            JsonBodyError::Pointer { pointer } => concat3(
                "json_body: invalid JSON Pointer '",
                pointer.as_str(),
                "'",
            ),
            JsonBodyError::Root { direction, section } => concat(
                list_name(*direction, *section).as_str(),
                " cannot target the document root (pointer \"\")",
            ),
            JsonBodyError::ValueSources { direction, section, pointer } => {
                let mut out = concat3(
                    list_name(*direction, *section).as_str(),
                    " pointer '",
                    pointer.as_str(),
                );
                out.append("' must set exactly one of 'value', 'metadata', or 'structured_metadata'");
                out
            },
            JsonBodyError::ExtractDests { direction, pointer } => {
                let mut out = concat3(
                    list_name(*direction, Section::Extract).as_str(),
                    " pointer '",
                    pointer.as_str(),
                );
                out.append("' must set exactly one of 'metadata' or 'structured_metadata'");
                out
            },
            JsonBodyError::EmptyMetadata { direction, section } => concat(
                list_name(*direction, *section).as_str(),
                " 'metadata' must not be empty",
            ),
            JsonBodyError::EmptyStructured { direction, section } => concat(
                list_name(*direction, *section).as_str(),
                " structured_metadata namespace and key must not be empty",
            ),
            JsonBodyError::StaticValue { pointer } => concat3(
                "json_body: the static value of pointer '",
                pointer.as_str(),
                "' is not JSON",
            ),
            JsonBodyError::Overlap { direction, first, second } => {
                let mut out = concat3(
                    "json_body: overlapping JSON Pointers in ",
                    direction.name(),
                    ": '",
                );
                out.append(first.as_str());
                out.append("' and '");
                out.append(second.as_str());
                out.append("'");
                out
            },
        }
    }
}

} // verus!
