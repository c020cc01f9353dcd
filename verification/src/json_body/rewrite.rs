//! One-pass application of pointer operations to a JSON document.
//!
//! No document tree is built: unmatched spans are copied, and operations are
//! spliced in where the pass reaches them.

use vstd::prelude::*;
use vstd::slice::slice_subrange;
use vstd::slice::slice_to_vec;

use crate::context::{holds_json, overlaid, overlaid_json, FilterContext, MetaMap, StructuredMap};
use crate::json_body::error::RewriteError;
use crate::json_body::index::{int_of, OpPathIndex};
use crate::json_body::ops::{append_op, bytes_of, extract_op, models, mutate_op, place_of, segments, texts, CompiledOp, ExtractDest, Op, OpKind, PathToken, Source, ValueSource};
use crate::json_body::ops::lemma_place_names;
use crate::json_body::ops::path_eq_tokens;
use crate::json_body::grammar::is_string;
use crate::json_body::output::quotes_key;
use crate::json_body::quoted::{law_json_string_is_string, lemma_quoted_key};
use crate::json_body::scan::{bump_depth, expect_byte, has_escape, lemma_string_end, lemma_value_end, lemma_ws_end, read_separator, skip_bom, skip_string_with_meta, skip_value, skip_ws, string_end, value_end, ws_end, Step};
use crate::json_body::walk::{added_members, adds_member, capture, comma, copy_value, inserted, key_text, put, replaced, resolve, root_replace_op, settle, start, walk_document, walk_element, walk_elements, walk_member, walk_members, walk_value, Env, Walk};
use crate::json_text::{decode_json_string, encode_json_string, json_string, utf8_text};
use crate::number::decimal;
use crate::text::{copy_texts, opt_text, same_text};

verus! {

/// Compiled operations plus lookup index for one direction.
pub struct CompiledOpSet {
    /// Operations in order.
    pub ops: Vec<CompiledOp>,
    /// Index for pointer lookups.
    pub index: OpPathIndex,
    /// Bytes by which static values and keys can grow the document.
    pub growth_hint: usize,
}

impl CompiledOpSet {
    /// The operations as mathematical data.
    pub open spec fn model(self) -> Seq<Op> {
        models(self.ops@)
    }

    /// The index belongs to the operations.
    pub open spec fn wf(self) -> bool {
        self.index.wf() && self.index.ops() == self.model()
    }
}

/// Whether a pass emits a rewritten body or only captures extracts.
#[derive(Clone, Copy, Debug, PartialEq, Eq, Structural)]
pub enum RewriteMode {
    /// Capture extracts only.
    ExtractOnly,
    /// Capture extracts and emit a rewritten body.
    Rewrite,
}

/// Result of one pass.
#[derive(Debug)]
pub struct RewriteOutcome {
    /// Rewritten bytes; `None` in extract-only mode.
    pub output: Option<Vec<u8>>,
}

/// What stays the same during a pass.
struct Plan<'a> {
    op_set: &'a CompiledOpSet,
    base: &'a MetaMap,
    preset: &'a StructuredMap,
    emit: bool,
}

impl Plan<'_> {
    spec fn env(self) -> Env {
        Env {
            ops: self.op_set.model(),
            base: self.base@,
            preset: self.preset@,
            emit: self.emit,
        }
    }
}

/// What a pass gathers.
struct Session {
    metadata: MetaMap,
    captured: StructuredMap,
    resolved: Vec<Option<Vec<u8>>>,
    path: Vec<PathToken>,
    out: Vec<u8>,
}

impl Session {
    spec fn walk(self) -> Walk {
        Walk {
            meta: self.metadata@,
            captured: self.captured@,
            resolved: self.resolved@.map_values(|v: Option<Vec<u8>>| bytes_of(v)),
            out: self.out@,
        }
    }

    spec fn place(self) -> Seq<Seq<char>> {
        place_of(segments(self.path@))
    }

    /// Write a separator, `prefix` and `body`.
    fn write_item(&mut self, plan: &Plan, emitted: bool, prefix: &[u8], body: &[u8])
        ensures
            final(self).walk() == put(plan.env(), old(self).walk(), comma(emitted) + prefix@ + body@),
            final(self).path@ == old(self).path@,
            final(self).resolved@ == old(self).resolved@,
    {
        if plan.emit {
            if emitted {
                self.out.push(0x2C);
            }
            self.out.extend_from_slice(prefix);
            self.out.extend_from_slice(body);
            assert(self.out@ =~= old(self).out@ + (comma(emitted) + prefix@ + body@));
        }
    }

    /// Write one byte.
    fn write_byte(&mut self, plan: &Plan, b: u8)
        ensures
            final(self).walk() == put(plan.env(), old(self).walk(), seq![b]),
            final(self).path@ == old(self).path@,
            final(self).resolved@ == old(self).resolved@,
    {
        if plan.emit {
            self.out.push(b);
            assert(self.out@ =~= old(self).out@ + seq![b]);
        }
    }
}

/// Resolve the value of operation `j` and settle it for the rest of the pass.
fn resolve_payload(plan: &Plan, session: &mut Session, j: usize) -> (r: Option<Vec<u8>>)
    requires
        plan.op_set.wf(),
        j < plan.op_set.ops@.len(),
        old(session).resolved@.len() == plan.op_set.ops@.len(),
    ensures
        bytes_of(r) == resolve(plan.env(), old(session).walk(), j as int),
        final(session).walk() == settle(plan.env(), old(session).walk(), j as int),
        final(session).path@ == old(session).path@,
        final(session).resolved@.len() == old(session).resolved@.len(),
{
    let op = &plan.op_set.ops[j];
    assert(plan.env().ops[j as int] == op.model());
    let ghost w = session.walk();
    assert(w.resolved[j as int] == bytes_of(session.resolved@[j as int]));
    let found: Option<Vec<u8>> = match &session.resolved[j] {
        Some(b) => Some(slice_to_vec(b.as_slice())),
        None => match &op.static_payload {
            Some(b) => Some(slice_to_vec(b.as_slice())),
            None => match &op.source {
                None => None,
                Some(ValueSource::Static(b)) => Some(slice_to_vec(b.as_slice())),
                Some(ValueSource::Metadata(key)) => match session.metadata.get(key.as_str()) {
                    Some(text) => encode_json_string(text.as_str()),
                    None => match plan.base.get(key.as_str()) {
                        Some(text) => encode_json_string(text.as_str()),
                        None => None,
                    },
                },
                Some(ValueSource::Structured { namespace, key }) => match plan.preset.get(
                    namespace.as_str(),
                    key.as_str(),
                ) {
                    Some(json) => Some(slice_to_vec(json.as_slice())),
                    None => None,
                },
            },
        },
    };
    match found {
        Some(payload) => {
            let copy = slice_to_vec(payload.as_slice());
            session.resolved.set(j, Some(copy));
            assert(session.walk() =~= settle(plan.env(), w, j as int)) by {
                assert(session.walk().resolved =~= w.resolved.update(j as int, Some(payload@)));
            }
            Some(payload)
        },
        None => None,
    }
}

/// Decode a captured JSON span for metadata.
fn metadata_text(json: &[u8]) -> (r: Option<String>)
    ensures
        opt_text(r) == crate::json_body::walk::metadata_text(json@),
{
    if json.len() > 0 && json[0] == 0x22 {
        decode_json_string(json)
    } else {
        utf8_text(slice_to_vec(json))
    }
}

/// Capture the span `json` if an extract names the current path.
fn store_capture(plan: &Plan, session: &mut Session, json: &[u8])
    requires
        plan.op_set.wf(),
    ensures
        final(session).walk() == capture(plan.env(), old(session).walk(), old(session).place(), json@),
        final(session).path@ == old(session).path@,
        final(session).resolved@ == old(session).resolved@,
{
    match plan.op_set.index.extract_at(session.path.as_slice()) {
        None => {},
        Some(j) => {
            proof {
                lemma_extract_bound(plan.env().ops, session.place());
            }
            assert(plan.env().ops[j as int] == plan.op_set.ops@[j as int].model());
            match &plan.op_set.ops[j].dest {
                None => {},
                Some(ExtractDest::Metadata(key)) => {
                    if let Some(text) = metadata_text(json) {
                        session.metadata.insert(key.clone(), text);
                    }
                },
                Some(ExtractDest::Structured { namespace, key }) => {
                    session.captured.insert(namespace.clone(), key.clone(), slice_to_vec(json));
                },
            }
        },
    }
}

proof fn lemma_extract_bound(ops: Seq<Op>, place: Seq<Seq<char>>)
    ensures
        extract_op(ops, place) matches Some(j) ==> 0 <= j < ops.len(),
    decreases ops.len(),
{
    if ops.len() > 0 {
        lemma_extract_bound(ops.drop_last(), place);
    }
}

pub proof fn lemma_mutate_bound(ops: Seq<Op>, place: Seq<Seq<char>>)
    ensures
        mutate_op(ops, place) matches Some(j) ==> 0 <= j < ops.len() && ops[j].kind.mutating()
            && ops[j].tokens == place,
    decreases ops.len(),
{
    if ops.len() > 0 {
        lemma_mutate_bound(ops.drop_last(), place);
    }
}

pub proof fn lemma_append_bound(ops: Seq<Op>, place: Seq<Seq<char>>)
    ensures
        append_op(ops, place) matches Some(j) ==> 0 <= j < ops.len() && ops[j].appends_to(place),
    decreases ops.len(),
{
    if ops.len() > 0 {
        lemma_append_bound(ops.drop_last(), place);
    }
}

/// Parse an object key: the position behind it and its decoded text.
pub fn parse_string(input: &[u8], i: usize) -> (r: Result<(usize, String), RewriteError>)
    requires
        i <= input@.len(),
    ensures
        match string_end(input@, i as int) {
            None => r == Err::<(usize, String), RewriteError>(RewriteError::InvalidJson),
            Some(e) => match key_text(input@.subrange(i as int, e)) {
                None => r == Err::<(usize, String), RewriteError>(RewriteError::InvalidJson),
                Some(t) => r is Ok && r->Ok_0.0 == e && r->Ok_0.1@ == t && i + 2 <= e
                    <= input@.len(),
            },
        },
{
    proof {
        lemma_string_end(input@, i as int);
    }
    let (e, escaped) = skip_string_with_meta(input, i)?;
    let raw = slice_subrange(input, i, e);
    assert(escaped == has_escape(raw@, 0, raw@.len() as int)) by {
        if escaped {
            let k = choose|k: int| i <= k < e && #[trigger] input@[k] == 0x5C;
            assert(raw@[k - i] == 0x5C);
        }
        if has_escape(raw@, 0, raw@.len() as int) {
            let k = choose|k: int| 0 <= k < raw@.len() && #[trigger] raw@[k] == 0x5C;
            assert(input@[k + i] == 0x5C);
        }
    }
    let text = if escaped {
        decode_json_string(raw)
    } else {
        let inner = slice_subrange(raw, 1, raw.len() - 1);
        utf8_text(slice_to_vec(inner))
    };
    match text {
        Some(t) => Ok((e, t)),
        None => Err(RewriteError::InvalidJson),
    }
}

/// The outcome of an executable step as the walk states it.
spec fn step_of(r: Result<usize, RewriteError>, w: Walk) -> Result<(int, Walk), RewriteError> {
    match r {
        Ok(e) => Ok((e as int, w)),
        Err(err) => Err(err),
    }
}

/// Copy one value as a raw span.
fn copy_span(plan: &Plan, input: &[u8], i: usize, depth: u32, session: &mut Session) -> (r: Result<
    usize,
    RewriteError,
>)
    requires
        i <= input@.len(),
    ensures
        step_of(r, final(session).walk()) == copy_value(
            plan.env(),
            input@,
            i as int,
            depth as int,
            old(session).walk(),
        ),
        r matches Ok(e) ==> i < e <= input@.len(),
        final(session).path@ == old(session).path@,
        final(session).resolved@ == old(session).resolved@,
{
    let start = skip_ws(input, i);
    let e = skip_value(input, i, depth)?;
    proof {
        lemma_value_start(input@, i as int, depth as int);
    }
    let none: [u8; 0] = [];
    session.write_item(plan, false, &none, slice_subrange(input, start, e));
    assert(comma(false) + none@ + input@.subrange(start as int, e as int) =~= input@.subrange(
        start as int,
        e as int,
    ));
    Ok(e)
}

/// A value ends behind its first byte.
proof fn lemma_value_start(s: Seq<u8>, i: int, depth: int)
    ensures
        value_end(s, i, depth) matches Ok(e) ==> ws_end(s, i) < e <= s.len(),
        value_end(s, i, depth) == value_end(s, ws_end(s, i), depth),
        ws_end(s, ws_end(s, i)) == ws_end(s, i),
{
    lemma_ws_end(s, i);
    lemma_ws_idempotent(s, i);
    lemma_value_end(s, ws_end(s, i), depth);
}

proof fn lemma_ws_idempotent(s: Seq<u8>, i: int)
    ensures
        ws_end(s, ws_end(s, i)) == ws_end(s, i),
    decreases s.len() - i,
{
    if 0 <= i < s.len() && crate::json_body::scan::is_ws(s[i]) {
        lemma_ws_idempotent(s, i + 1);
    }
}


proof fn lemma_push_key(path: Seq<PathToken>, key: String)
    ensures
        place_of(segments(path.push(PathToken::Key(key)))) == place_of(segments(path)).push(key@),
{
    assert(place_of(segments(path.push(PathToken::Key(key)))) =~= place_of(segments(path)).push(key@));
}

proof fn lemma_push_index(path: Seq<PathToken>, idx: usize)
    ensures
        place_of(segments(path.push(PathToken::Index(idx)))) == place_of(segments(path)).push(
            decimal(idx as nat),
        ),
{
    assert(place_of(segments(path.push(PathToken::Index(idx)))) =~= place_of(segments(path)).push(
        decimal(idx as nat),
    ));
}

/// Whether `list` holds the text `s`.
pub fn contains_text(list: &Vec<String>, s: &str) -> (r: bool)
    ensures
        r == texts(list@).contains(s@),
{
    let mut i: usize = 0;
    while i < list.len()
        invariant
            i <= list@.len(),
            forall|k: int| 0 <= k < i ==> #[trigger] texts(list@)[k] != s@,
        decreases list@.len() - i,
    {
        assert(texts(list@)[i as int] == list@[i as int]@);
        if same_text(list[i].as_str(), s) {
            return true;
        }
        i = i + 1;
    }
    false
}

/// Whether operation `op` adds a member to the object at `path`.
fn adds_to(op: &CompiledOp, path: &[PathToken]) -> (r: bool)
    ensures
        r == adds_member(op.model(), place_of(segments(path@))),
{
    let n: usize = op.tokens.len();
    if op.kind != OpKind::Add || op.is_append() || n == 0 {
        return false;
    }
    let above = slice_subrange(op.tokens.as_slice(), 0, n - 1);
    proof {
        lemma_place_names(texts(above@), path@);
        assert(texts(above@) =~= op.model().tokens.drop_last());
    }
    path_eq_tokens(path, above)
}

/// Emit the adds that the object at the current path does not have yet.
fn inject_object_adds(plan: &Plan, satisfied: &Vec<String>, emitted: bool, session: &mut Session)
    requires
        plan.op_set.wf(),
        old(session).resolved@.len() == plan.op_set.ops@.len(),
    ensures
        final(session).walk() == added_members(
            plan.env(),
            old(session).place(),
            texts(satisfied@),
            0,
            emitted,
            old(session).walk(),
        ),
        final(session).path@ == old(session).path@,
        final(session).resolved@.len() == old(session).resolved@.len(),
{
    let ghost env = plan.env();
    let ghost place = session.place();
    let mut written: bool = emitted;
    let mut j: usize = 0;
    while j < plan.op_set.ops.len()
        invariant
            plan.op_set.wf(),
            env == plan.env(),
            j <= plan.op_set.ops@.len(),
            env.ops.len() == plan.op_set.ops@.len(),
            session.path@ == old(session).path@,
            place == old(session).place(),
            session.resolved@.len() == plan.op_set.ops@.len(),
            added_members(env, place, texts(satisfied@), 0, emitted, old(session).walk())
                == added_members(env, place, texts(satisfied@), j as int, written, session.walk()),
        decreases plan.op_set.ops@.len() - j,
    {
        let op = &plan.op_set.ops[j];
        assert(env.ops[j as int] == op.model());
        if adds_to(op, session.path.as_slice()) {
            let n: usize = op.tokens.len();
            assert(op.model().tokens.last() == op.tokens@[n - 1]@);
            if !contains_text(satisfied, op.tokens[n - 1].as_str()) {
                if let Some(encoded) = &op.encoded_last_token {
                    if plan.emit {
                        if let Some(payload) = resolve_payload(plan, session, j) {
                            let mut prefix = slice_to_vec(encoded.as_slice());
                            prefix.push(0x3A);
                            assert(prefix@ =~= encoded@ + seq![0x3Au8]);
                            session.write_item(plan, written, prefix.as_slice(), payload.as_slice());
                            written = true;
                        }
                    }
                }
            }
        }
        j = j + 1;
    }
}

/// Write the value of operation `j` before the next array element.
fn insert_value(plan: &Plan, session: &mut Session, emitted: bool, j: usize) -> (r: bool)
    requires
        plan.op_set.wf(),
        j < plan.op_set.ops@.len(),
        old(session).resolved@.len() == plan.op_set.ops@.len(),
    ensures
        (r, final(session).walk()) == inserted(
            plan.env(),
            old(session).walk(),
            emitted,
            Seq::empty(),
            j as int,
        ),
        final(session).path@ == old(session).path@,
        final(session).resolved@.len() == old(session).resolved@.len(),
{
    if plan.emit {
        if let Some(payload) = resolve_payload(plan, session, j) {
            let none: [u8; 0] = [];
            assert(none@ =~= Seq::<u8>::empty());
            session.write_item(plan, emitted, &none, payload.as_slice());
            return true;
        }
    }
    emitted
}

/// Write the value of operation `j` in place of `original`.
fn replace_value(
    plan: &Plan,
    session: &mut Session,
    emitted: bool,
    prefix: &[u8],
    j: usize,
    original: &[u8],
) -> (r: bool)
    requires
        plan.op_set.wf(),
        j < plan.op_set.ops@.len(),
        old(session).resolved@.len() == plan.op_set.ops@.len(),
    ensures
        final(session).walk() == replaced(
            plan.env(),
            old(session).walk(),
            emitted,
            prefix@,
            j as int,
            original@,
        ),
        r == (plan.emit && resolve(plan.env(), old(session).walk(), j as int) is Some),
        final(session).path@ == old(session).path@,
        final(session).resolved@.len() == old(session).resolved@.len(),
{
    if plan.emit {
        match resolve_payload(plan, session, j) {
            Some(payload) => {
                session.write_item(plan, emitted, prefix, payload.as_slice());
                true
            },
            None => {
                session.write_item(plan, emitted, prefix, original);
                false
            },
        }
    } else {
        false
    }
}

/// Rewrite the value at the current path.
fn rewrite_value(plan: &Plan, input: &[u8], i: usize, depth: u32, session: &mut Session) -> (r: Result<
    usize,
    RewriteError,
>)
    requires
        plan.op_set.wf(),
        i <= input@.len(),
        old(session).resolved@.len() == plan.op_set.ops@.len(),
    ensures
        step_of(r, final(session).walk()) == walk_value(
            plan.env(),
            input@,
            i as int,
            old(session).place(),
            depth as int,
            old(session).walk(),
        ),
        r matches Ok(e) ==> i < e <= input@.len() && final(session).path@ == old(session).path@
            && final(session).resolved@.len() == old(session).resolved@.len(),
    decreases input@.len() - i, 0int,
{
    let k = skip_ws(input, i);
    let touched = plan.op_set.index.has_descendant_ops(session.path.as_slice());
    let e: usize = if touched && k < input.len() && input[k] == 0x7B {
        let inner: u32 = bump_depth(depth)?;
        session.write_byte(plan, 0x7B);
        rewrite_object(plan, input, k + 1, inner, session)?
    } else if touched && k < input.len() && input[k] == 0x5B {
        let inner: u32 = bump_depth(depth)?;
        session.write_byte(plan, 0x5B);
        rewrite_array(plan, input, k + 1, inner, session)?
    } else {
        copy_span(plan, input, k, depth, session)?
    };
    store_capture(plan, session, slice_subrange(input, k, e));
    Ok(e)
}

/// Rewrite the members of the object at the current path, behind its opening brace.
fn rewrite_object(plan: &Plan, input: &[u8], i: usize, depth: u32, session: &mut Session) -> (r: Result<
    usize,
    RewriteError,
>)
    requires
        plan.op_set.wf(),
        i <= input@.len(),
        old(session).resolved@.len() == plan.op_set.ops@.len(),
    ensures
        step_of(r, final(session).walk()) == walk_members(
            plan.env(),
            input@,
            i as int,
            old(session).place(),
            depth as int,
            true,
            false,
            Seq::empty(),
            old(session).walk(),
        ),
        r matches Ok(e) ==> i < e <= input@.len() && final(session).path@ == old(session).path@
            && final(session).resolved@.len() == old(session).resolved@.len(),
    decreases input@.len() - i, 2int,
{
    let ghost env = plan.env();
    let ghost place = session.place();
    let mut pos: usize = i;
    let mut first: bool = true;
    let mut emitted: bool = false;
    let mut satisfied: Vec<String> = Vec::new();
    assert(texts(satisfied@) =~= Seq::<Seq<char>>::empty());
    loop
        invariant
            plan.op_set.wf(),
            env == plan.env(),
            i <= pos <= input@.len(),
            place == old(session).place(),
            session.path@ == old(session).path@,
            session.resolved@.len() == plan.op_set.ops@.len(),
            old(session).resolved@.len() == plan.op_set.ops@.len(),
            walk_members(
                env,
                input@,
                i as int,
                place,
                depth as int,
                true,
                false,
                Seq::empty(),
                old(session).walk(),
            ) == walk_members(
                env,
                input@,
                pos as int,
                place,
                depth as int,
                first,
                emitted,
                texts(satisfied@),
                session.walk(),
            ),
        decreases input@.len() - pos,
    {
        match read_separator(input, pos, first, 0x7D)? {
            Step::Close(e) => {
                inject_object_adds(plan, &satisfied, emitted, session);
                session.write_byte(plan, 0x7D);
                return Ok(e);
            },
            Step::Item(q) => {
                let (e, key) = parse_string(input, q)?;
                proof {
                    lemma_string_end(input@, q as int);
                }
                let c = expect_byte(input, skip_ws(input, e), 0x3A)?;
                let (v, now) = rewrite_member(
                    plan,
                    input,
                    q,
                    e,
                    c,
                    key,
                    depth,
                    emitted,
                    &mut satisfied,
                    session,
                )?;
                pos = v;
                emitted = now;
                first = false;
            },
        }
    }
}

/// Rewrite one object member: key string `input[q..e]`, value behind `c`.
fn rewrite_member(
    plan: &Plan,
    input: &[u8],
    q: usize,
    e: usize,
    c: usize,
    key: String,
    depth: u32,
    emitted: bool,
    satisfied: &mut Vec<String>,
    session: &mut Session,
) -> (r: Result<(usize, bool), RewriteError>)
    requires
        plan.op_set.wf(),
        q <= e <= c <= input@.len(),
        old(session).resolved@.len() == plan.op_set.ops@.len(),
    ensures
        match walk_member(
            plan.env(),
            input@,
            q as int,
            e as int,
            c as int,
            key@,
            old(session).place(),
            depth as int,
            emitted,
            texts(old(satisfied)@),
            old(session).walk(),
        ) {
            Err(err) => r == Err::<(usize, bool), RewriteError>(err),
            Ok((v, now, kept, w)) => {
                &&& r is Ok
                &&& r->Ok_0.0 == v
                &&& r->Ok_0.1 == now
                &&& texts(final(satisfied)@) == kept
                &&& final(session).walk() == w
                &&& c < v <= input@.len()
                &&& final(session).path@ == old(session).path@
                &&& final(session).resolved@.len() == old(session).resolved@.len()
            },
        },
    decreases input@.len() - c, 1int,
{
    let ghost env = plan.env();
    let ghost place = session.place();
    let ghost below = place.push(key@);
    let ghost path = session.path@;
    proof {
        lemma_mutate_bound(env.ops, below);
        lemma_push_key(path, key);
        lemma_value_start(input@, c as int, depth as int);
    }
    let mut prefix = slice_to_vec(slice_subrange(input, q, e));
    prefix.push(0x3A);
    assert(prefix@ =~= input@.subrange(q as int, e as int) + seq![0x3Au8]);
    match plan.op_set.index.mutate_child_key(session.path.as_slice(), key.as_str()) {
        Some(j) => {
            let op = &plan.op_set.ops[j];
            assert(env.ops[j as int] == op.model());
            let start = skip_ws(input, c);
            let v = skip_value(input, c, depth)?;
            let original = slice_subrange(input, start, v);
            session.path.push(PathToken::Key(key.clone()));
            store_capture(plan, session, original);
            session.path.pop();
            assert(session.path@ =~= path);
            if op.kind == OpKind::Remove {
                return Ok((v, emitted));
            }
            let done = replace_value(plan, session, emitted, prefix.as_slice(), j, original);
            if done && op.kind == OpKind::Add {
                let ghost before = satisfied@;
                satisfied.push(key);
                assert(texts(satisfied@) =~= texts(before).push(key@));
            }
            Ok((v, true))
        },
        None => {
            let none: [u8; 0] = [];
            session.write_item(plan, emitted, prefix.as_slice(), &none);
            assert(comma(emitted) + prefix@ + none@ =~= comma(emitted) + prefix@);
            let v: usize = if plan.op_set.index.child_needs_rewrite(
                session.path.as_slice(),
                key.as_str(),
            ) {
                session.path.push(PathToken::Key(key.clone()));
                let v = rewrite_value(plan, input, c, depth, session)?;
                session.path.pop();
                assert(session.path@ =~= path);
                v
            } else {
                copy_span(plan, input, c, depth, session)?
            };
            Ok((v, true))
        },
    }
}

/// Rewrite the elements of the array at the current path, behind its opening bracket.
fn rewrite_array(plan: &Plan, input: &[u8], i: usize, depth: u32, session: &mut Session) -> (r: Result<
    usize,
    RewriteError,
>)
    requires
        plan.op_set.wf(),
        i <= input@.len(),
        old(session).resolved@.len() == plan.op_set.ops@.len(),
    ensures
        step_of(r, final(session).walk()) == walk_elements(
            plan.env(),
            input@,
            i as int,
            old(session).place(),
            depth as int,
            0,
            false,
            old(session).walk(),
        ),
        r matches Ok(e) ==> i < e <= input@.len() && final(session).path@ == old(session).path@
            && final(session).resolved@.len() == old(session).resolved@.len(),
    decreases input@.len() - i, 2int,
{
    let ghost env = plan.env();
    let ghost place = session.place();
    let mut pos: usize = i;
    let mut idx: usize = 0;
    let mut emitted: bool = false;
    loop
        invariant
            plan.op_set.wf(),
            env == plan.env(),
            i <= pos <= input@.len(),
            idx <= pos,
            place == old(session).place(),
            session.path@ == old(session).path@,
            session.resolved@.len() == plan.op_set.ops@.len(),
            old(session).resolved@.len() == plan.op_set.ops@.len(),
            walk_elements(
                env,
                input@,
                i as int,
                place,
                depth as int,
                0,
                false,
                old(session).walk(),
            ) == walk_elements(
                env,
                input@,
                pos as int,
                place,
                depth as int,
                idx as int,
                emitted,
                session.walk(),
            ),
        decreases input@.len() - pos,
    {
        proof {
            lemma_mutate_bound(env.ops, place.push(decimal(idx as nat)));
            lemma_append_bound(env.ops, place);
        }
        let step = read_separator(input, pos, idx == 0, 0x5D)?;
        let at = plan.op_set.index.mutate_at_index(session.path.as_slice(), idx);
        let before: bool = match at {
            Some(j) => {
                assert(env.ops[j as int] == plan.op_set.ops@[j as int].model());
                if plan.op_set.ops[j].kind == OpKind::Add {
                    insert_value(plan, session, emitted, j)
                } else {
                    emitted
                }
            },
            None => emitted,
        };
        match step {
            Step::Close(e) => {
                match plan.op_set.index.add_append(session.path.as_slice()) {
                    Some(j) => {
                        let _ = insert_value(plan, session, before, j);
                    },
                    None => {},
                }
                session.write_byte(plan, 0x5D);
                return Ok(e);
            },
            Step::Item(q) => {
                let (v, now) = rewrite_element(plan, input, q, idx, at, depth, before, session)?;
                pos = v;
                emitted = now;
                idx = idx + 1;
            },
        }
    }
}

/// Rewrite the array element `idx`, which starts at `q`; `at` is the mutating
/// operation that names it.
fn rewrite_element(
    plan: &Plan,
    input: &[u8],
    q: usize,
    idx: usize,
    at: Option<usize>,
    depth: u32,
    emitted: bool,
    session: &mut Session,
) -> (r: Result<(usize, bool), RewriteError>)
    requires
        plan.op_set.wf(),
        q <= input@.len(),
        old(session).resolved@.len() == plan.op_set.ops@.len(),
        int_of(at) == mutate_op(plan.env().ops, old(session).place().push(decimal(idx as nat))),
    ensures
        match walk_element(
            plan.env(),
            input@,
            q as int,
            old(session).place().push(decimal(idx as nat)),
            depth as int,
            emitted,
            old(session).walk(),
        ) {
            Err(err) => r == Err::<(usize, bool), RewriteError>(err),
            Ok((v, now, w)) => {
                &&& r is Ok
                &&& r->Ok_0.0 == v
                &&& r->Ok_0.1 == now
                &&& final(session).walk() == w
                &&& q < v <= input@.len()
                &&& final(session).path@ == old(session).path@
                &&& final(session).resolved@.len() == old(session).resolved@.len()
            },
        },
    decreases input@.len() - q, 1int,
{
    let ghost env = plan.env();
    let ghost path = session.path@;
    let none: [u8; 0] = [];
    assert(none@ =~= Seq::<u8>::empty());
    proof {
        lemma_mutate_bound(env.ops, session.place().push(decimal(idx as nat)));
        lemma_push_index(path, idx);
        lemma_value_start(input@, q as int, depth as int);
    }
    if let Some(j) = at {
        let op = &plan.op_set.ops[j];
        assert(env.ops[j as int] == op.model());
        if op.kind != OpKind::Add {
            let start = skip_ws(input, q);
            let v = skip_value(input, q, depth)?;
            let original = slice_subrange(input, start, v);
            session.path.push(PathToken::Index(idx));
            store_capture(plan, session, original);
            session.path.pop();
            assert(session.path@ =~= path);
            if op.kind == OpKind::Remove {
                return Ok((v, emitted));
            }
            let _ = replace_value(plan, session, emitted, &none, j, original);
            return Ok((v, true));
        }
    }
    session.write_item(plan, emitted, &none, &none);
    assert(comma(emitted) + none@ + none@ =~= comma(emitted));
    let v: usize = if plan.op_set.index.child_index_needs_rewrite(session.path.as_slice(), idx) {
        session.path.push(PathToken::Index(idx));
        let v = rewrite_value(plan, input, q, depth, session)?;
        session.path.pop();
        assert(session.path@ =~= path);
        v
    } else {
        copy_span(plan, input, q, depth, session)?
    };
    Ok((v, true))
}


/// Output bytes to reserve for an input of `input_len` bytes.
pub fn rewrite_output_capacity(input_len: usize, growth_hint: usize) -> (r: usize)
    requires
        growth_hint == 0 || input_len + growth_hint + 64 <= usize::MAX,
    ensures
        r == (if growth_hint == 0 {
            input_len as int
        } else {
            input_len + growth_hint + 64
        }),
{
    if growth_hint == 0 {
        input_len
    } else {
        input_len + growth_hint + 64
    }
}

/// The first operation that replaces the whole document.
fn find_root_replace(ops: &Vec<CompiledOp>) -> (r: Option<usize>)
    ensures
        int_of(r) == root_replace_op(models(ops@), 0),
        r matches Some(j) ==> j < ops@.len(),
{
    let ghost all = models(ops@);
    let mut j: usize = 0;
    while j < ops.len()
        invariant
            j <= ops@.len(),
            all == models(ops@),
            root_replace_op(all, 0) == root_replace_op(all, j as int),
        decreases ops@.len() - j,
    {
        assert(all[j as int] == ops@[j as int].model());
        if ops[j].tokens.len() == 0 && ops[j].kind == OpKind::Replace {
            return Some(j);
        }
        j = j + 1;
    }
    None
}

/// The state of a pass that has not started.
fn new_session(plan: &Plan, capacity: usize) -> (r: Session)
    ensures
        r.walk() == start(plan.env()),
        r.path@ == Seq::<PathToken>::empty(),
        r.resolved@.len() == plan.op_set.ops@.len(),
{
    let ops = &plan.op_set.ops;
    let mut resolved: Vec<Option<Vec<u8>>> = Vec::new();
    let mut j: usize = 0;
    while j < ops.len()
        invariant
            j <= ops@.len(),
            resolved@.len() == j,
            forall|k: int|
                0 <= k < j ==> bytes_of(#[trigger] resolved@[k]) == bytes_of(ops@[k].static_payload),
        decreases ops@.len() - j,
    {
        let slot: Option<Vec<u8>> = match &ops[j].static_payload {
            Some(b) => Some(slice_to_vec(b.as_slice())),
            None => None,
        };
        resolved.push(slot);
        j = j + 1;
    }
    let session = Session {
        metadata: MetaMap::new(),
        captured: StructuredMap::new(),
        resolved,
        path: Vec::new(),
        out: Vec::with_capacity(capacity),
    };
    proof {
        let w = session.walk();
        assert forall|k: int| 0 <= k < w.resolved.len() implies w.resolved[k] == start(
            plan.env(),
        ).resolved[k] by {
            assert(w.resolved[k] == bytes_of(session.resolved@[k]));
            assert(plan.env().ops[k] == ops@[k].model());
        }
        assert(w.resolved =~= start(plan.env()).resolved);
    }
    session
}

/// Run one pass over `input`.
fn run_pass(plan: &Plan, input: &[u8], session: &mut Session) -> (r: Result<(), RewriteError>)
    requires
        plan.op_set.wf(),
        old(session).walk() == start(plan.env()),
        old(session).path@.len() == 0,
        old(session).resolved@.len() == plan.op_set.ops@.len(),
    ensures
        match walk_document(plan.env(), input@) {
            Err(err) => r == Err::<(), RewriteError>(err),
            Ok(w) => r is Ok && final(session).walk().out == w.out && final(session).walk().meta
                == w.meta && final(session).walk().captured == w.captured,
        },
{
    let ghost env = plan.env();
    let i = skip_ws(input, skip_bom(input));
    if i >= input.len() {
        return Err(RewriteError::InvalidJson);
    }
    match find_root_replace(&plan.op_set.ops) {
        Some(j) => {
            if let Some(payload) = resolve_payload(plan, session, j) {
                let e = skip_value(input, i, 0)?;
                if skip_ws(input, e) != input.len() {
                    return Err(RewriteError::InvalidJson);
                }
                let none: [u8; 0] = [];
                session.write_item(plan, false, &none, payload.as_slice());
                assert(comma(false) + none@ + payload@ =~= payload@);
                return Ok(());
            }
        },
        None => {},
    }
    assert(session.place() =~= Seq::<Seq<char>>::empty());
    let e = rewrite_value(plan, input, i, 0, session)?;
    if plan.emit && skip_ws(input, e) != input.len() {
        return Err(RewriteError::InvalidJson);
    }
    Ok(())
}

/// The environment of a pass over one direction.
pub open spec fn pass_env(
    ops: Seq<Op>,
    mode: RewriteMode,
    base: Map<Seq<char>, Seq<char>>,
    preset: Map<(Seq<char>, Seq<char>), Seq<u8>>,
) -> Env {
    Env { ops, base, preset, emit: mode == RewriteMode::Rewrite }
}

/// Walk `input` once, capturing extracts and, in rewrite mode, emitting the
/// rewritten body. Captures are written to `ctx` when the pass succeeds.
pub fn rewrite_document(
    input: &[u8],
    op_set: &CompiledOpSet,
    mode: RewriteMode,
    ctx: &mut FilterContext,
) -> (r: Result<RewriteOutcome, RewriteError>)
    requires
        op_set.wf(),
    ensures
        match walk_document(
            pass_env(op_set.model(), mode, old(ctx).metadata@, old(ctx).structured@),
            input@,
        ) {
            Err(err) => {
                &&& r == Err::<RewriteOutcome, RewriteError>(err)
                &&& final(ctx).metadata@ == old(ctx).metadata@
                &&& final(ctx).structured@ == old(ctx).structured@
            },
            Ok(w) => {
                &&& r is Ok
                &&& bytes_of(r->Ok_0.output) == (if mode == RewriteMode::Rewrite {
                    Some(w.out)
                } else {
                    None
                })
                &&& final(ctx).metadata@ == overlaid(old(ctx).metadata@, w.meta)
                &&& final(ctx).structured@ == overlaid_json(old(ctx).structured@, w.captured)
            },
        },
        holds_json(old(ctx).structured@) ==> holds_json(final(ctx).structured@),
{
    let emit: bool = mode == RewriteMode::Rewrite;
    let n: usize = input.len();
    let capacity: usize = if !emit {
        0
    } else if op_set.growth_hint <= usize::MAX - n && op_set.growth_hint + n <= usize::MAX - 64 {
        rewrite_output_capacity(n, op_set.growth_hint)
    } else {
        n
    };
    let plan = Plan { op_set, base: &ctx.metadata, preset: &ctx.structured, emit };
    let mut session = new_session(&plan, capacity);
    run_pass(&plan, input, &mut session)?;
    let Session { metadata, captured, resolved: _, path: _, out } = session;
    ctx.absorb_metadata(&metadata);
    ctx.absorb_structured(&captured);
    let output: Option<Vec<u8>> = if emit {
        Some(out)
    } else {
        None
    };
    Ok(RewriteOutcome { output })
}

/// An operation whose value is already known.
#[derive(Debug)]
pub struct ResolvedOp {
    /// Decoded pointer tokens (empty for the document root).
    pub tokens: Vec<String>,
    pub kind: OpKind,
    /// JSON to inject; `None` for remove.
    pub payload: Option<Vec<u8>>,
}

impl ResolvedOp {
    pub open spec fn model(self) -> Op {
        Op {
            tokens: texts(self.tokens@),
            kind: self.kind,
            source: match self.payload {
                Some(b) => Some(Source::Static(b@)),
                None => None,
            },
            dest: None,
            payload: bytes_of(self.payload),
            encoded: if self.tokens@.len() > 0 {
                Some(json_string(self.tokens@.last()@))
            } else {
                None
            },
        }
    }
}

/// A copy of `v`.
pub fn copy_bytes(v: &Option<Vec<u8>>) -> (r: Option<Vec<u8>>)
    ensures
        bytes_of(r) == bytes_of(*v),
{
    match v {
        Some(b) => Some(slice_to_vec(b.as_slice())),
        None => None,
    }
}

/// The last token of a pointer as a JSON string.
pub fn encoded_last_object_token(tokens: &Vec<String>) -> (r: Option<Vec<u8>>)
    ensures
        bytes_of(r) == (if tokens@.len() > 0 {
            Some(json_string(tokens@.last()@))
        } else {
            None
        }),
        r matches Some(key) ==> is_string(key@) && key_text(key@) == Some(tokens@.last()@),
{
    if tokens.len() > 0 {
        let r = encode_json_string(tokens[tokens.len() - 1].as_str());
        proof {
            law_json_string_is_string(tokens@.last()@);
            lemma_quoted_key(tokens@.last()@);
        }
        r
    } else {
        None
    }
}

/// Rewrite `input` with operations whose values are known.
pub fn rewrite(input: &[u8], ops: &[ResolvedOp]) -> (r: Result<Vec<u8>, RewriteError>)
    ensures
        match walk_document(
            pass_env(
                ops@.map_values(|op: ResolvedOp| op.model()),
                RewriteMode::Rewrite,
                Map::empty(),
                Map::empty(),
            ),
            input@,
        ) {
            Err(err) => r == Err::<Vec<u8>, RewriteError>(err),
            Ok(w) => r is Ok && r->Ok_0@ == w.out,
        },
        forall|k: int| 0 <= k < ops@.len() ==> quotes_key((#[trigger] ops@[k]).model()),
{
    let ghost all = ops@.map_values(|op: ResolvedOp| op.model());
    let mut compiled: Vec<CompiledOp> = Vec::new();
    let mut growth_hint: usize = 0;
    let mut i: usize = 0;
    while i < ops.len()
        invariant
            i <= ops@.len(),
            all == ops@.map_values(|op: ResolvedOp| op.model()),
            compiled@.len() == i,
            forall|k: int| 0 <= k < i ==> (#[trigger] compiled@[k]).model() == all[k],
            forall|k: int| 0 <= k < i ==> quotes_key((#[trigger] ops@[k]).model()),
        decreases ops@.len() - i,
    {
        let op = &ops[i];
        let source: Option<ValueSource> = match &op.payload {
            Some(b) => {
                growth_hint = growth_hint.saturating_add(b.len());
                Some(ValueSource::Static(slice_to_vec(b.as_slice())))
            },
            None => None,
        };
        let entry = CompiledOp {
            pointer: String::new(),
            tokens: copy_texts(&op.tokens),
            kind: op.kind,
            source,
            dest: None,
            static_payload: copy_bytes(&op.payload),
            encoded_last_token: encoded_last_object_token(&op.tokens),
        };
        assert(entry.model() =~= all[i as int]);
        assert(op.tokens@.len() > 0 ==> op.model().tokens.last() == op.tokens@.last()@);
        compiled.push(entry);
        i = i + 1;
    }
    assert(models(compiled@) =~= all);
    let index = OpPathIndex::build(compiled.as_slice());
    let op_set = CompiledOpSet { ops: compiled, index, growth_hint };
    let mut ctx = FilterContext::new();
    match rewrite_document(input, &op_set, RewriteMode::Rewrite, &mut ctx) {
        Ok(outcome) => match outcome.output {
            Some(out) => Ok(out),
            None => Ok(Vec::new()),
        },
        Err(err) => Err(err),
    }
}

/// The metadata that the extracts of `op_set` capture from `input`.
pub fn extract_document(input: &[u8], op_set: &CompiledOpSet) -> (r: Result<MetaMap, RewriteError>)
    requires
        op_set.wf(),
    ensures
        match walk_document(
            pass_env(op_set.model(), RewriteMode::ExtractOnly, Map::empty(), Map::empty()),
            input@,
        ) {
            Err(err) => r == Err::<MetaMap, RewriteError>(err),
            Ok(w) => r is Ok && r->Ok_0@ == w.meta,
        },
{
    let base = MetaMap::new();
    let preset = StructuredMap::new();
    let plan = Plan { op_set, base: &base, preset: &preset, emit: false };
    let mut session = new_session(&plan, 0);
    run_pass(&plan, input, &mut session)?;
    let Session { metadata, captured: _, resolved: _, path: _, out: _ } = session;
    Ok(metadata)
}

} // verus!
