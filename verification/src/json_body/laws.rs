//! What the configuration of JSON operations means, and what a filter leaves of
//! a body and of its context.

use vstd::prelude::*;
use vstd::utf8::encode_utf8;

use crate::action::{Action, BodyAccess};
use crate::context::{keeps, overlaid, overlaid_json, FilterContext};
use crate::json_body::capture::{extracts_alone, law_extracted_text, stands_at};
use crate::json_body::config::{collected, conflict_from, conflicts, direction_ops, entries_of, extract_entry_op, growth, growth_of, plan_of, remove_op, valued_op, Direction, ExtractOpConfig, JsonBodyConfig, JsonBodyError, OnInvalidBehavior, PointerOpConfig, Section};
use crate::json_body::filter::{access_of, applied, body_after, due, invalid_outcome, mode_of, FitMode};
use crate::json_body::ops::{append_op, extract_op, mutate_op, Dest, Op, OpKind, Source};
use crate::json_body::pointer::{overlap, pointer_tokens, unescaped_all, unescaped_from};
use crate::json_body::prepass::{captured_text, compilable, decl_ops, declarable, headers_after, metadata_after, ExtractTarget, JsonExtractDecl};
use crate::json_body::rewrite::{pass_env, RewriteMode};
use crate::json_body::tree::tree_document;
use crate::json_body::walk::{resolve, root_replace_op, walk_document, Env, Walk};
use crate::json_text::{json_compact, json_string, json_string_decoded};
use crate::number::{decimal, lemma_decimal_round_trip};
use crate::path_laws::law_split_undoes_join;
use crate::text::join;
use crate::text_laws::law_split_single;

verus! {

/// How a pointer writes a character of a token.
pub open spec fn escaped_char(c: char) -> Seq<char> {
    if c == '~' {
        seq!['~', '0']
    } else if c == '/' {
        seq!['~', '1']
    } else {
        seq![c]
    }
}

/// How a pointer writes a token.
pub open spec fn escaped(t: Seq<char>) -> Seq<char>
    decreases t.len(),
{
    if t.len() == 0 {
        Seq::empty()
    } else {
        escaped_char(t[0]) + escaped(t.drop_first())
    }
}

/// The pointer with these tokens.
pub open spec fn pointer_text(tokens: Seq<Seq<char>>) -> Seq<char> {
    if tokens.len() == 0 {
        Seq::empty()
    } else {
        seq!['/'] + join(tokens.map_values(|t: Seq<char>| escaped(t)), seq!['/'])
    }
}

proof fn lemma_unescaped(front: Seq<char>, t: Seq<char>)
    ensures
        unescaped_from(front + escaped(t), front.len() as int) == Some(t),
    decreases t.len(),
{
    let all = front + escaped(t);
    let i = front.len() as int;
    if t.len() == 0 {
        assert(all =~= front);
        assert(unescaped_from(all, i) == Some(Seq::<char>::empty()));
        assert(t =~= Seq::<char>::empty());
    } else {
        let c = escaped_char(t[0]);
        let rest = t.drop_first();
        lemma_unescaped(front + c, rest);
        assert(all =~= front + c + escaped(rest));
        assert(all[i] == c[0]);
        if c.len() == 2 {
            assert(all[i + 1] == c[1]);
        }
        assert(seq![t[0]] + rest =~= t);
    }
}

proof fn lemma_no_slash(t: Seq<char>)
    ensures
        !escaped(t).contains('/'),
    decreases t.len(),
{
    if t.len() > 0 {
        let c = escaped_char(t[0]);
        let rest = t.drop_first();
        lemma_no_slash(rest);
        if escaped(t).contains('/') {
            let k = escaped(t).index_of('/');
            if k < c.len() {
                assert(c[k] == '/');
            } else {
                assert(escaped(rest)[k - c.len()] == '/');
            }
        }
    }
}

proof fn lemma_unescaped_all(tokens: Seq<Seq<char>>)
    ensures
        unescaped_all(tokens.map_values(|t: Seq<char>| escaped(t))) == Some(tokens),
    decreases tokens.len(),
{
    let pieces = tokens.map_values(|t: Seq<char>| escaped(t));
    if tokens.len() == 0 {
        assert(tokens =~= Seq::<Seq<char>>::empty());
    } else {
        let front = tokens.drop_last();
        let last = tokens.last();
        lemma_unescaped_all(front);
        assert(pieces.drop_last() =~= front.map_values(|t: Seq<char>| escaped(t)));
        let none = Seq::<char>::empty();
        lemma_unescaped(none, last);
        assert(none + escaped(last) =~= escaped(last));
        assert(front.push(last) =~= tokens);
    }
}

/// A pointer is read as the tokens that it is written from, whatever slashes and
/// tildes they hold.
pub proof fn law_pointer_round_trip(tokens: Seq<Seq<char>>)
    ensures
        pointer_tokens(pointer_text(tokens)) == Some(tokens),
{
    if tokens.len() == 0 {
        assert(tokens =~= Seq::<Seq<char>>::empty());
    } else {
        let pieces = tokens.map_values(|t: Seq<char>| escaped(t));
        assert forall|k: int| 0 <= k < pieces.len() implies !(#[trigger] pieces[k]).contains('/') by {
            lemma_no_slash(tokens[k]);
        }
        law_split_undoes_join(pieces, '/');
        lemma_unescaped_all(tokens);
        let text = pointer_text(tokens);
        assert(text.skip(1) =~= join(pieces, seq!['/']));
    }
}

/// A pointer starts with a slash, unless it is empty, and a tilde in it stands
/// before a zero or a one.
pub proof fn law_refused_pointer(p: Seq<char>, front: Seq<char>, c: char)
    requires
        !front.contains('~'),
        !front.contains('/'),
        c != '0',
        c != '1',
        c != '/',
    ensures
        p.len() > 0 && p[0] != '/' ==> pointer_tokens(p) is None,
        pointer_tokens(seq!['/'] + front + seq!['~']) is None,
        pointer_tokens(seq!['/'] + front + seq!['~', c]) is None,
{
    let a = front + seq!['~'];
    let b = front + seq!['~', c];
    lemma_bad_tilde(front, Seq::empty(), 0);
    lemma_bad_tilde(front, seq![c], 0);
    assert(front + seq!['~'] + Seq::<char>::empty() =~= a);
    assert(front + seq!['~'] + seq![c] =~= b);
    assert((seq!['/'] + front + seq!['~']).skip(1) =~= a);
    assert((seq!['/'] + front + seq!['~', c]).skip(1) =~= b);
    assert(!a.contains('/')) by {
        if a.contains('/') {
            let k = a.index_of('/');
            assert(k < front.len() && front[k] == '/');
        }
    }
    assert(!b.contains('/')) by {
        if b.contains('/') {
            let k = b.index_of('/');
            assert(k < front.len() && front[k] == '/');
        }
    }
    law_split_single(a, '/');
    law_split_single(b, '/');
    reveal_with_fuel(unescaped_all, 2);
}

proof fn lemma_bad_tilde(front: Seq<char>, rest: Seq<char>, i: int)
    requires
        0 <= i <= front.len(),
        !front.contains('~'),
        rest.len() == 0 || (rest[0] != '0' && rest[0] != '1'),
    ensures
        unescaped_from(front + seq!['~'] + rest, i) is None,
    decreases front.len() - i,
{
    let all = front + seq!['~'] + rest;
    if i < front.len() {
        assert(all[i] == front[i]);
        assert(front.contains(front[i]));
        lemma_bad_tilde(front, rest, i + 1);
    } else {
        assert(all[i] == '~');
        if rest.len() > 0 {
            assert(all[i + 1] == rest[0]);
        }
    }
}

/// Pointers overlap exactly where one is the other or leads to it.
pub proof fn law_pointers_overlap(a: Seq<Seq<char>>, more: Seq<Seq<char>>, x: Seq<char>, y: Seq<char>)
    ensures
        overlap(a, a + more),
        x != y ==> !overlap(a.push(x), a.push(y) + more),
{
    assert((a + more).subrange(0, a.len() as int) =~= a);
    if x != y {
        let (p, q) = (a.push(x), a.push(y) + more);
        let n = a.len() as int;
        if p.is_prefix_of(q) {
            assert(q.subrange(0, p.len() as int)[n] == p[n]);
        }
        if q.is_prefix_of(p) {
            assert(p.subrange(0, q.len() as int)[n] == q[n]);
        }
    }
}

/// An add or replace entry is an operation at its pointer with its value: static
/// JSON in compact form, the text of metadata, or structured metadata.
pub proof fn law_valued_entry(
    direction: Direction,
    section: Section,
    kind: OpKind,
    cfg: PointerOpConfig,
    tokens: Seq<Seq<char>>,
)
    requires
        pointer_tokens(cfg.pointer@) == Some(tokens),
        tokens.len() > 0,
    ensures
        ({
            let r = valued_op(direction, section, kind, cfg);
            &&& r matches Ok(op) ==> op.tokens == tokens && op.kind == kind && op.dest is None && op.encoded
                == Some(json_string(tokens.last()))
            &&& cfg.value matches Some(value) ==> cfg.metadata is None && cfg.structured_metadata is None ==> match json_compact(
                value@,
            ) {
                Some(b) => r matches Ok(op) && op.payload == Some(b),
                None => r == Err::<Op, JsonBodyError>(
                    JsonBodyError::StaticValue { pointer: cfg.pointer },
                ),
            }
            &&& cfg.metadata matches Some(key) ==> cfg.value is None && cfg.structured_metadata is None
                && key@.len() > 0 ==> (r matches Ok(op) && op.payload is None && op.source == Some(
                Source::Metadata(key@),
            ))
            &&& cfg.structured_metadata matches Some(m) ==> cfg.value is None && cfg.metadata is None
                && m.namespace@.len() > 0 && m.key@.len() > 0 ==> (r matches Ok(op) && op.payload is None
                && op.source == Some(Source::Structured(m.namespace@, m.key@)))
            &&& cfg.value is None && cfg.metadata is None && cfg.structured_metadata is None ==> r is Err
            &&& cfg.value is Some && cfg.metadata is Some ==> r is Err
            &&& cfg.value is Some && cfg.structured_metadata is Some ==> r is Err
            &&& cfg.metadata is Some && cfg.structured_metadata is Some ==> r is Err
        }),
{
}

/// A remove entry removes what stands at its pointer, and an extract entry copies
/// it to its destination. The root can be extracted, and not removed.
pub proof fn law_plain_entries(
    direction: Direction,
    pointer: String,
    cfg: ExtractOpConfig,
    tokens: Seq<Seq<char>>,
)
    requires
        pointer_tokens(pointer@) == Some(tokens),
        pointer_tokens(cfg.pointer@) == Some(tokens),
    ensures
        tokens.len() > 0 ==> (remove_op(direction, pointer) matches Ok(op) && op.kind == OpKind::Remove
            && op.tokens == tokens && op.payload is None),
        tokens.len() == 0 ==> remove_op(direction, pointer) is Err,
        extract_entry_op(direction, cfg) matches Ok(op) ==> op.kind == OpKind::Extract && op.tokens == tokens,
        cfg.metadata matches Some(key) ==> cfg.structured_metadata is None && key@.len() > 0 ==> (extract_entry_op(
            direction,
            cfg,
        ) matches Ok(op) && op.dest == Some(Dest::Metadata(key@))),
        cfg.structured_metadata matches Some(m) ==> cfg.metadata is None && m.namespace@.len() > 0
            && m.key@.len() > 0 ==> (extract_entry_op(direction, cfg) matches Ok(op) && op.dest == Some(
            Dest::Structured(m.namespace@, m.key@),
        )),
        (cfg.metadata is Some <==> cfg.structured_metadata is Some) ==> extract_entry_op(direction, cfg) is Err,
{
}

/// Entries are all accepted, in their order, or none is.
pub proof fn law_all_entries(entries: Seq<Result<Op, JsonBodyError>>)
    ensures
        collected(entries) is Ok <==> forall|k: int| 0 <= k < entries.len() ==> (#[trigger] entries[k]) is Ok,
        collected(entries) matches Ok(ops) ==> ops.len() == entries.len() && forall|k: int|
            0 <= k < entries.len() ==> (#[trigger] entries[k]) is Ok && entries[k]->Ok_0 == ops[k],
    decreases entries.len(),
{
    if entries.len() > 0 {
        let front = entries.drop_last();
        law_all_entries(front);
        assert forall|k: int| 0 <= k < front.len() implies #[trigger] front[k] == entries[k] by {}
        if collected(entries) is Ok {
            assert forall|k: int| 0 <= k < entries.len() implies (#[trigger] entries[k]) is Ok
                && entries[k]->Ok_0 == collected(entries)->Ok_0[k] by {
                if k < front.len() {
                    assert(front[k] == entries[k]);
                }
            }
        }
        if forall|k: int| 0 <= k < entries.len() ==> (#[trigger] entries[k]) is Ok {
            assert forall|k: int| 0 <= k < front.len() implies (#[trigger] front[k]) is Ok by {
                assert(entries[k] is Ok);
            }
            assert(entries[entries.len() - 1] is Ok);
        }
    }
}

/// The operations of a direction are those of its entries: extracts, then adds,
/// then replacements, then removals.
pub proof fn law_operations_of_direction(
    direction: Direction,
    add: Seq<PointerOpConfig>,
    replace: Seq<PointerOpConfig>,
    remove: Seq<String>,
    extract: Seq<ExtractOpConfig>,
    k: int,
)
    ensures
        direction_ops(direction, add, replace, remove, extract) matches Ok(ops) ==> {
            let (a, b, c) = (extract.len() as int, add.len() as int, replace.len() as int);
            &&& ops.len() == extract.len() + add.len() + replace.len() + remove.len()
            &&& 0 <= k < extract.len() ==> extract_entry_op(direction, extract[k]) == Ok::<Op, JsonBodyError>(
                ops[k],
            )
            &&& 0 <= k < add.len() ==> valued_op(direction, Section::Add, OpKind::Add, add[k]) == Ok::<
                Op,
                JsonBodyError,
            >(ops[a + k])
            &&& 0 <= k < replace.len() ==> valued_op(
                direction,
                Section::Replace,
                OpKind::Replace,
                replace[k],
            ) == Ok::<Op, JsonBodyError>(ops[a + b + k])
            &&& 0 <= k < remove.len() ==> remove_op(direction, remove[k]) == Ok::<Op, JsonBodyError>(
                ops[a + b + c + k],
            )
        },
{
    let entries = entries_of(direction, add, replace, remove, extract);
    law_all_entries(entries);
    if direction_ops(direction, add, replace, remove, extract) is Ok {
        let (a, b, c) = (extract.len() as int, add.len() as int, replace.len() as int);
        if 0 <= k < extract.len() {
            assert(entries[k] == extract_entry_op(direction, extract[k]));
        }
        if 0 <= k < add.len() {
            assert(entries[a + k] == valued_op(direction, Section::Add, OpKind::Add, add[k]));
        }
        if 0 <= k < replace.len() {
            assert(entries[a + b + k] == valued_op(
                direction,
                Section::Replace,
                OpKind::Replace,
                replace[k],
            ));
        }
        if 0 <= k < remove.len() {
            assert(entries[a + b + c + k] == remove_op(direction, remove[k]));
        }
    }
}

/// A configuration needs an operation and a size; responses are not added to and
/// not replaced in.
pub proof fn law_refused_configuration(cfg: JsonBodyConfig)
    ensures
        cfg.max_body_bytes == 0 ==> plan_of(cfg) is Err,
        cfg.response_add@.len() > 0 ==> plan_of(cfg) is Err,
        cfg.response_replace@.len() > 0 ==> plan_of(cfg) is Err,
        plan_of(cfg) matches Ok((request, response)) ==> request.len() + response.len() > 0
            && direction_ops(
            Direction::Request,
            cfg.request_add@,
            cfg.request_replace@,
            cfg.request_remove@,
            cfg.request_extract@,
        ) == Ok::<Seq<Op>, JsonBodyError>(request) && direction_ops(
            Direction::Response,
            Seq::empty(),
            Seq::empty(),
            cfg.response_remove@,
            cfg.response_extract@,
        ) == Ok::<Seq<Op>, JsonBodyError>(response),
{
    if cfg.response_add@.len() == 0 {
        assert(cfg.response_add@ =~= Seq::<PointerOpConfig>::empty());
    }
    if cfg.response_replace@.len() == 0 {
        assert(cfg.response_replace@ =~= Seq::<PointerOpConfig>::empty());
    }
}

/// A document grows by the values and the keys that are added or put in place of
/// others, and by nothing else.
pub proof fn law_growth(ops: Seq<Op>, op: Op)
    ensures
        growth(Seq::empty()) == 0,
        growth(ops.push(op)) == growth(ops) + growth_of(op),
        op.kind == OpKind::Remove || op.kind == OpKind::Extract ==> growth_of(op) == 0,
        op.kind == OpKind::Add || op.kind == OpKind::Replace ==> (op.payload matches Some(p) ==> op.encoded matches Some(e)
            ==> growth_of(op) == p.len() + e.len()),
{
    assert(ops.push(op).drop_last() =~= ops);
}

/// Metadata that a pass captured takes the place of what was there, unless it is
/// too long to be kept; all else stays.
pub proof fn law_metadata_overlaid(
    base: Map<Seq<char>, Seq<char>>,
    extra: Map<Seq<char>, Seq<char>>,
    key: Seq<char>,
)
    ensures
        ({
            let all = overlaid(base, extra);
            &&& extra.contains_key(key) && encode_utf8(extra[key]).len() <= 256 ==> all.contains_key(key)
                && all[key] == extra[key]
            &&& extra.contains_key(key) && encode_utf8(extra[key]).len() > 256 ==> (all.contains_key(key)
                <==> base.contains_key(key)) && (base.contains_key(key) ==> all[key] == base[key])
            &&& !extra.contains_key(key) ==> (all.contains_key(key) <==> base.contains_key(key)) && (
            base.contains_key(key) ==> all[key] == base[key])
        }),
{
}

/// Structured metadata that a pass captured is kept in compact form.
pub proof fn law_structured_overlaid(
    base: Map<(Seq<char>, Seq<char>), Seq<u8>>,
    extra: Map<(Seq<char>, Seq<char>), Seq<u8>>,
    key: (Seq<char>, Seq<char>),
)
    ensures
        ({
            let all = overlaid_json(base, extra);
            &&& extra.contains_key(key) && json_compact(extra[key]) is Some ==> all.contains_key(key)
                && all[key] == json_compact(extra[key])->0
            &&& !extra.contains_key(key) ==> (all.contains_key(key) <==> base.contains_key(key)) && (
            base.contains_key(key) ==> all[key] == base[key])
        }),
{
}

/// A rewritten request is what the pass wrote. A rewritten response has the
/// length that it had: what the pass wrote with spaces behind it, or the response
/// as it was where that does not fit.
pub proof fn law_body_after(ops: Seq<Op>, original: Seq<u8>, w: Walk, j: int)
    requires
        0 <= j < ops.len(),
        ops[j].kind != OpKind::Extract,
    ensures
        body_after(ops, FitMode::Request, original, w) == w.out,
        w.out.len() <= original.len() ==> {
            let b = body_after(ops, FitMode::Response, original, w);
            &&& b.len() == original.len()
            &&& b.take(w.out.len() as int) == w.out
            &&& forall|k: int| w.out.len() <= k < b.len() ==> #[trigger] b[k] == 0x20
        },
        w.out.len() > original.len() ==> body_after(ops, FitMode::Response, original, w) == original,
{
    if w.out.len() <= original.len() {
        let b = body_after(ops, FitMode::Response, original, w);
        assert(b.take(w.out.len() as int) =~= w.out);
    }
}

/// Extracts read bodies as they arrive, other operations change them at their
/// end, and no operations need no body.
pub proof fn law_body_access(ops: Seq<Op>, j: int)
    ensures
        ops.len() == 0 ==> access_of(ops) == BodyAccess::NoAccess,
        0 <= j < ops.len() && ops[j].kind != OpKind::Extract ==> access_of(ops) == BodyAccess::ReadWrite
            && !due(ops, false) && due(ops, true),
        ops.len() > 0 && (forall|k: int| 0 <= k < ops.len() ==> (#[trigger] ops[k]).kind == OpKind::Extract)
            ==> access_of(ops) == BodyAccess::ReadOnly && due(ops, false),
{
}

/// A body that cannot be processed is let through, refused with 400, or an error,
/// as it is configured.
pub proof fn law_invalid_body(reason: Seq<char>)
    ensures
        invalid_outcome(OnInvalidBehavior::Continue, reason) == Ok::<Action, Seq<char>>(Action::Continue),
        invalid_outcome(OnInvalidBehavior::Reject, reason) == Ok::<Action, Seq<char>>(
            Action::Reject(400, Seq::empty()),
        ),
        invalid_outcome(OnInvalidBehavior::Error, reason) == Err::<Action, Seq<char>>("json_body: "@ + reason),
{
}

/// A filter that extracts from a body with the JSON string of a text at the
/// pointer leaves that text under the metadata key, if it is short enough to be
/// kept.
pub proof fn law_filter_extracts(
    ops: Seq<Op>,
    on_invalid: OnInvalidBehavior,
    fit: FitMode,
    end_of_stream: bool,
    before: FilterContext,
    body: Seq<u8>,
    r: Result<Action, Seq<char>>,
    after: FilterContext,
    new_body: Option<Seq<u8>>,
    j: int,
    key: Seq<char>,
    t: Seq<char>,
)
    requires
        applied(ops, on_invalid, fit, end_of_stream, before, Some(body), r, after, new_body),
        extracts_alone(ops, j, Dest::Metadata(key)),
        tree_document(body) matches Some(tree) && stands_at(tree, ops[j].tokens, json_string(t)),
        json_string_decoded(json_string(t)) == Some(t),
        encode_utf8(t).len() <= 256,
        walk_document(pass_env(ops, mode_of(ops), before.metadata@, before.structured@), body) is Ok,
    ensures
        r == Ok::<Action, Seq<char>>(Action::BodyDone),
        after.metadata@.contains_key(key),
        after.metadata@[key] == t,
{
    law_extracted_text(pass_env(ops, mode_of(ops), before.metadata@, before.structured@), j, key, t, body);
    assert(keeps(t));
}

/// A filter without operations, and one whose pass fails, changes nothing.
pub proof fn law_filter_changes_nothing(
    ops: Seq<Op>,
    on_invalid: OnInvalidBehavior,
    fit: FitMode,
    end_of_stream: bool,
    before: FilterContext,
    body: Option<Seq<u8>>,
    r: Result<Action, Seq<char>>,
    after: FilterContext,
    new_body: Option<Seq<u8>>,
)
    requires
        applied(ops, on_invalid, fit, end_of_stream, before, body, r, after, new_body),
        ops.len() == 0 || body is None || walk_document(
            pass_env(ops, mode_of(ops), before.metadata@, before.structured@),
            body->0,
        ) is Err,
    ensures
        new_body == body,
        after.metadata@ == before.metadata@,
        after.structured@ == before.structured@,
        ops.len() > 0 && end_of_stream && on_invalid == OnInvalidBehavior::Reject ==> r == Ok::<
            Action,
            Seq<char>,
        >(Action::Reject(400, Seq::empty())),
        ops.len() == 0 ==> r == Ok::<Action, Seq<char>>(Action::Continue),
        ops.len() > 0 && body is Some && !end_of_stream && (forall|k: int|
            0 <= k < ops.len() ==> (#[trigger] ops[k]).kind == OpKind::Extract) ==> r == Ok::<Action, Seq<char>>(
            Action::Continue,
        ),
{
}

/// A declared extract whose pointer leads to the JSON string of a text captures
/// that text.
pub proof fn law_declared_extract(decls: Seq<JsonExtractDecl>, i: int, t: Seq<char>, s: Seq<u8>)
    requires
        compilable(decls),
        0 <= i < decls.len(),
        pointer_tokens(decls[i].pointer@) matches Some(tokens) && tree_document(s) matches Some(tree)
            && stands_at(tree, tokens, json_string(t)),
        json_string_decoded(json_string(t)) == Some(t),
    ensures
        walk_document(
            pass_env(decl_ops(decls), RewriteMode::ExtractOnly, Map::empty(), Map::empty()),
            s,
        ) matches Ok(w) ==> captured_text(w, i) == Some(t),
{
    let ops = decl_ops(decls);
    let env = pass_env(ops, RewriteMode::ExtractOnly, Map::empty(), Map::empty());
    let key = decimal(i as nat);
    lemma_no_root(ops, 0);
    assert(extracts_alone(ops, i, Dest::Metadata(key))) by {
        assert forall|k: int| 0 <= k < ops.len() && k != i implies (#[trigger] ops[k]).dest != Some(
            Dest::Metadata(key),
        ) && (ops[k].kind == OpKind::Extract ==> ops[k].tokens != ops[i].tokens) by {
            lemma_decimal_round_trip(i as nat);
            lemma_decimal_round_trip(k as nat);
            assert(pointer_tokens(decls[k].pointer@) is Some) by {
                assert(declarable(decls[k]));
            }
            if k < i {
                assert(pointer_tokens(decls[k].pointer@) != pointer_tokens(decls[i].pointer@));
            } else {
                assert(pointer_tokens(decls[i].pointer@) != pointer_tokens(decls[k].pointer@));
            }
        }
    }
    law_extracted_text(env, i, key, t, s);
}

proof fn lemma_no_root(ops: Seq<Op>, j: int)
    requires
        0 <= j,
        forall|k: int| 0 <= k < ops.len() ==> (#[trigger] ops[k]).kind == OpKind::Extract,
    ensures
        root_replace_op(ops, j) is None,
    decreases ops.len() - j,
{
    if j < ops.len() {
        lemma_no_root(ops, j + 1);
    }
}

/// The text of a declared extract for metadata is under its key, the last one of
/// a key counting; other keys stay.
pub proof fn law_declared_metadata(
    decls: Seq<JsonExtractDecl>,
    w: Walk,
    n: int,
    base: Map<Seq<char>, Seq<char>>,
    i: int,
    key: Seq<char>,
)
    requires
        0 <= n <= decls.len(),
    ensures
        0 <= i < n && (decls[i].dest matches ExtractTarget::Metadata(k) && k@ == key) && captured_text(w, i) is Some
            && (forall|j: int|
            i < j < n ==> !((#[trigger] decls[j]).dest matches ExtractTarget::Metadata(k) && k@ == key))
            ==> metadata_after(decls, w, n, base).contains_key(key) && metadata_after(decls, w, n, base)[key]
            == captured_text(w, i)->0,
        (forall|j: int|
            0 <= j < n ==> !((#[trigger] decls[j]).dest matches ExtractTarget::Metadata(k) && k@ == key))
            ==> (metadata_after(decls, w, n, base).contains_key(key) <==> base.contains_key(key))
            && metadata_after(decls, w, n, base)[key] == base[key],
    decreases n,
{
    if n > 0 {
        law_declared_metadata(decls, w, n - 1, base, i, key);
    }
}

/// The text of a declared extract for a header is a header behind those that were
/// there.
pub proof fn law_declared_headers(
    decls: Seq<JsonExtractDecl>,
    w: Walk,
    n: int,
    base: Seq<(Seq<char>, Seq<char>)>,
    i: int,
    key: Seq<char>,
)
    requires
        0 <= n <= decls.len(),
    ensures
        base.is_prefix_of(headers_after(decls, w, n, base)),
        0 <= i < n && (decls[i].dest matches ExtractTarget::Header(k) && k@ == key) && captured_text(w, i) is Some
            ==> headers_after(decls, w, n, base).contains((key, captured_text(w, i)->0)),
        headers_after(decls, w, n, base).len() <= base.len() + n,
    decreases n,
{
    if n > 0 {
        law_declared_headers(decls, w, n - 1, base, i, key);
        let earlier = headers_after(decls, w, n - 1, base);
        let now = headers_after(decls, w, n, base);
        assert(now.subrange(0, base.len() as int) =~= earlier.subrange(0, base.len() as int));
        if 0 <= i < n && (decls[i].dest matches ExtractTarget::Header(k) && k@ == key) && captured_text(w, i) is Some {
            let pair = (key, captured_text(w, i)->0);
            if i < n - 1 {
                let k = earlier.index_of(pair);
                assert(now[k] == pair);
            } else {
                assert(now[now.len() - 1] == pair);
            }
        }
    }
}

/// Operations conflict exactly where two of them change places that overlap, or
/// extract the same place.
pub proof fn law_conflicts(ops: Seq<Op>, i: int, j: int)
    requires
        0 <= i < j,
    ensures
        conflict_from(ops, i, j) is None <==> forall|a: int, b: int|
            i <= a < b < ops.len() && (a == i ==> j <= b) ==> !(#[trigger] conflicts(ops[a], ops[b])),
        conflict_from(ops, i, j) matches Some((a, b)) ==> i <= a < b < ops.len() && conflicts(ops[a], ops[b]),
    decreases ops.len() - i, ops.len() - j,
{
    if i < ops.len() {
        if j >= ops.len() {
            law_conflicts(ops, i + 1, i + 2);
            if conflict_from(ops, i, j) is None {
                assert forall|a: int, b: int| i <= a < b < ops.len() && (a == i ==> j <= b) implies !(
                #[trigger] conflicts(ops[a], ops[b])) by {
                    assert(i + 1 <= a);
                }
            }
        } else if !conflicts(ops[i], ops[j]) {
            law_conflicts(ops, i, j + 1);
            if conflict_from(ops, i, j) is None {
                assert forall|a: int, b: int| i <= a < b < ops.len() && (a == i ==> j <= b) implies !(
                #[trigger] conflicts(ops[a], ops[b])) by {
                    if a == i && b == j {
                    } else {
                        assert(a == i ==> j + 1 <= b);
                    }
                }
            }
        }
    }
}

/// Changes conflict where their pointers overlap, and extracts where they are at
/// the same place; an extract and a change never do.
pub proof fn law_what_conflicts(a: Op, b: Op)
    ensures
        a.kind != OpKind::Extract && b.kind != OpKind::Extract ==> (conflicts(a, b) <==> a.tokens.is_prefix_of(
            b.tokens,
        ) || b.tokens.is_prefix_of(a.tokens)),
        a.kind == OpKind::Extract && b.kind == OpKind::Extract ==> (conflicts(a, b) <==> a.tokens == b.tokens),
        (a.kind == OpKind::Extract) != (b.kind == OpKind::Extract) ==> !conflicts(a, b),
{
}

/// The value of an operation: its static JSON, the text of metadata as a JSON
/// string, where what the pass captured comes before what was set earlier, or
/// structured metadata as it is.
pub proof fn law_injected_value(env: Env, w: Walk, j: int, key: Seq<char>, ns: Seq<char>)
    requires
        0 <= j < env.ops.len(),
        w.resolved[j] is None,
    ensures
        env.ops[j].payload is Some ==> resolve(env, w, j) == env.ops[j].payload,
        env.ops[j].payload is None && env.ops[j].source == Some(Source::Metadata(key)) ==> {
            &&& w.meta.contains_key(key) ==> resolve(env, w, j) == Some(json_string(w.meta[key]))
            &&& !w.meta.contains_key(key) && env.base.contains_key(key) ==> resolve(env, w, j) == Some(
                json_string(env.base[key]),
            )
            &&& !w.meta.contains_key(key) && !env.base.contains_key(key) ==> resolve(env, w, j) is None
        },
        env.ops[j].payload is None && env.ops[j].source == Some(Source::Structured(ns, key)) ==> {
            &&& env.preset.contains_key((ns, key)) ==> resolve(env, w, j) == Some(env.preset[(ns, key)])
            &&& !env.preset.contains_key((ns, key)) ==> resolve(env, w, j) is None
        },
{
}

/// Of several operations at a place the last one counts.
pub proof fn law_last_operation_counts(ops: Seq<Op>, place: Seq<Seq<char>>, op: Op)
    ensures
        op.kind != OpKind::Extract && !(op.kind == OpKind::Add && op.tokens.len() > 0 && op.tokens.last()
            == seq!['-']) && op.tokens == place ==> mutate_op(ops.push(op), place) == Some(ops.len() as int),
        op.kind == OpKind::Extract && op.tokens == place ==> extract_op(ops.push(op), place) == Some(
            ops.len() as int,
        ) && mutate_op(ops.push(op), place) == mutate_op(ops, place),
        op.kind == OpKind::Add && op.tokens == place.push(seq!['-']) ==> append_op(ops.push(op), place) == Some(
            ops.len() as int,
        ),
        op.tokens != place ==> extract_op(ops.push(op), place) == extract_op(ops, place) && mutate_op(
            ops.push(op),
            place,
        ) == mutate_op(ops, place),
{
    assert(ops.push(op).drop_last() =~= ops);
    assert(place.push(seq!['-']).drop_last() =~= place);
}

/// Declared extracts are accepted where every pointer can be read, every
/// destination has a name and no pointer occurs twice, and in no other case.
pub proof fn law_declarations_accepted(decls: Seq<JsonExtractDecl>)
    ensures
        compilable(decls) <==> {
            &&& forall|i: int| 0 <= i < decls.len() ==> pointer_tokens((#[trigger] decls[i]).pointer@) is Some
            &&& forall|i: int|
                0 <= i < decls.len() ==> match (#[trigger] decls[i]).dest {
                    ExtractTarget::Metadata(k) => k@.len() > 0,
                    ExtractTarget::Header(k) => k@.len() > 0,
                }
            &&& forall|i: int, j: int|
                0 <= i < j < decls.len() ==> pointer_tokens((#[trigger] decls[i]).pointer@) != pointer_tokens(
                    (#[trigger] decls[j]).pointer@,
                )
        },
{
    if compilable(decls) {
        assert forall|i: int| 0 <= i < decls.len() implies pointer_tokens((#[trigger] decls[i]).pointer@) is Some
            && match decls[i].dest {
            ExtractTarget::Metadata(k) => k@.len() > 0,
            ExtractTarget::Header(k) => k@.len() > 0,
        } by {
            assert(declarable(decls[i]));
        }
    }
}

} // verus!
