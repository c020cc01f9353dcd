//! What a pass of pointer operations writes: JSON, in which each pointer reads
//! what its operation has put there.

use vstd::prelude::*;

use crate::context::holds_json;
use crate::json_body::grammar::{is_member, is_string, is_value, lemma_array_is_value, lemma_object_is_value, lemma_run_push, lemma_span_is_string, lemma_span_is_value, lemma_string_is_value, lemma_ws_stays, member, run};
use crate::json_body::ops::{append_op, extract_op, mutate_op, touches, Op, OpKind, Source};
use crate::json_body::pointer::overlap;
use crate::json_body::quoted::law_json_string_is_string;
use crate::json_body::rewrite::{lemma_append_bound, lemma_mutate_bound};
use crate::json_body::scan::{bom_len, byte_at, colon_end, lemma_next_item, lemma_string_end, lemma_ws_end, next_item, string_end, value_end, ws_end, Next};
use crate::json_body::walk::{added_before, added_behind, added_members, adds_member, capture, comma, copy_value, inserted, key_text, put, replaced, resolve, root_replace_op, settle, start, walk_document, walk_element, walk_elements, walk_member, walk_members, walk_value, Env, Walk};
use crate::json_text::json_string;
use crate::number::{canonical, decimal, lemma_decimal_round_trip};

verus! {

/// What the operation brings into the document is JSON, and its key is the last
/// token of its pointer.
pub open spec fn injects_json(op: Op) -> bool {
    &&& op.payload matches Some(b) ==> is_value(b)
    &&& op.source matches Some(Source::Static(b)) ==> is_value(b)
    &&& quotes_key(op)
}

/// The key that the operation brings is the last token of its pointer.
pub open spec fn quotes_key(op: Op) -> bool {
    op.encoded matches Some(b) ==> is_string(b) && op.tokens.len() > 0 && key_text(b) == Some(
        op.tokens.last(),
    )
}

/// What the operations bring into the document is JSON.
pub open spec fn inject_json(ops: Seq<Op>) -> bool {
    forall|j: int| 0 <= j < ops.len() ==> injects_json(#[trigger] ops[j])
}

/// What a pass brings into the document from outside is JSON: what its
/// operations write, and the structured metadata that was set before.
pub open spec fn brings_json(env: Env) -> bool {
    inject_json(env.ops) && holds_json(env.preset)
}

/// The text of an object with these keys and values.
pub open spec fn object_text(items: Seq<(Seq<u8>, Seq<u8>)>) -> Seq<u8> {
    seq![0x7Bu8] + run(member_texts(items), true) + seq![0x7Du8]
}

pub open spec fn member_texts(items: Seq<(Seq<u8>, Seq<u8>)>) -> Seq<Seq<u8>> {
    items.map_values(|item: (Seq<u8>, Seq<u8>)| member(item.0, item.1))
}

/// The text of an array of these values.
pub open spec fn array_text(items: Seq<Seq<u8>>) -> Seq<u8> {
    seq![0x5Bu8] + run(items, true) + seq![0x5Du8]
}

pub open spec fn all_members(items: Seq<(Seq<u8>, Seq<u8>)>) -> bool {
    forall|k: int|
        0 <= k < items.len() ==> is_string((#[trigger] items[k]).0) && is_value(items[k].1)
}

pub open spec fn all_values(items: Seq<Seq<u8>>) -> bool {
    forall|k: int| 0 <= k < items.len() ==> is_value(#[trigger] items[k])
}

/// Whether one of the keys is `name`.
pub open spec fn has_key(items: Seq<(Seq<u8>, Seq<u8>)>, name: Seq<char>) -> bool {
    exists|k: int| 0 <= k < items.len() && key_text((#[trigger] items[k]).0) == Some(name)
}

/// Whether every value that the pointer `tokens` leads to in `t` is `want`,
/// where `None` says that it leads to no value. If it must be there, the last
/// token is a key of every object that the tokens before it lead to.
pub open spec fn reads(t: Seq<u8>, tokens: Seq<Seq<char>>, want: Option<Seq<u8>>, must: bool) -> bool
    decreases tokens.len(),
{
    if tokens.len() == 0 {
        want == Some(t)
    } else {
        ||| byte_at(t, 0) != Some(0x7Bu8) && byte_at(t, 0) != Some(0x5Bu8)
        ||| exists|items: Seq<(Seq<u8>, Seq<u8>)>|
            {
                &&& #[trigger] object_text(items) == t
                &&& all_members(items)
                &&& forall|k: int|
                    0 <= k < items.len() && key_text((#[trigger] items[k]).0) == Some(tokens[0])
                        ==> reads(items[k].1, tokens.skip(1), want, must)
                &&& must && tokens.len() == 1 ==> has_key(items, tokens[0])
            }
        ||| exists|items: Seq<Seq<u8>>|
            {
                &&& #[trigger] array_text(items) == t
                &&& all_values(items)
                &&& forall|k: int|
                    0 <= k < items.len() && decimal(k as nat) == tokens[0] ==> reads(
                        #[trigger] items[k],
                        tokens.skip(1),
                        want,
                        must,
                    )
            }
    }
}

/// Whether `place` lies above the end of a pointer.
pub open spec fn leads_through(tokens: Seq<Seq<char>>, place: Seq<Seq<char>>) -> bool {
    place.len() < tokens.len() && tokens.take(place.len() as int) == place
}

/// The value that operation `j` writes in every pass, where it does not depend
/// on what the pass captures.
pub open spec fn known_value(env: Env, j: int) -> Option<Seq<u8>> {
    if env.ops[j].payload is Some {
        env.ops[j].payload
    } else {
        match env.ops[j].source {
            Some(Source::Static(b)) => Some(b),
            Some(Source::Structured(ns, k)) => if env.preset.contains_key((ns, k)) {
                Some(env.preset[(ns, k)])
            } else {
                None
            },
            _ => None,
        }
    }
}

/// Whether no other operation changes what stands at the pointer of operation
/// `j`, above it or below it.
pub open spec fn stands_alone(ops: Seq<Op>, j: int) -> bool {
    forall|i: int|
        0 <= i < ops.len() && i != j && (#[trigger] ops[i]).kind.mutating() ==> !overlap(
            ops[i].tokens,
            ops[j].tokens,
        )
}

/// Whether no operation adds to or removes from a container that the pointer of
/// operation `j` goes through by an index.
pub open spec fn keeps_indexes(ops: Seq<Op>, j: int) -> bool {
    forall|i: int|
        0 <= i < ops.len() && ((#[trigger] ops[i]).kind == OpKind::Add || ops[i].kind
            == OpKind::Remove) && ops[i].tokens.len() > 0 && leads_through(
            ops[j].tokens,
            ops[i].tokens.drop_last(),
        ) ==> !canonical(ops[j].tokens[ops[i].tokens.len() - 1])
}

/// Whether operation `j` adds, replaces or removes one place of its own, which
/// is to hold `want`.
pub open spec fn settles(env: Env, j: int, want: Option<Seq<u8>>) -> bool {
    &&& 0 <= j < env.ops.len()
    &&& env.ops[j].kind.mutating()
    &&& !env.ops[j].appends()
    &&& env.ops[j].kind == OpKind::Add ==> env.ops[j].encoded is Some
    &&& stands_alone(env.ops, j)
    &&& keeps_indexes(env.ops, j)
    &&& if env.ops[j].kind == OpKind::Remove {
        want is None
    } else {
        want is Some && known_value(env, j) == want
    }
}

/// Whether the place of operation `j` must be there behind a pass.
pub open spec fn must_be(env: Env, j: int) -> bool {
    env.ops[j].kind == OpKind::Add
}

/// The values that a walk has settled are JSON, and that of operation `j` is
/// the one it is to have.
spec fn settled(env: Env, j: int, want: Option<Seq<u8>>, w: Walk) -> bool {
    &&& w.resolved.len() == env.ops.len()
    &&& forall|i: int|
        0 <= i < w.resolved.len() && (#[trigger] w.resolved[i]) is Some ==> is_value(
            w.resolved[i]->0,
        )
    &&& settles(env, j, want) && want is Some && w.resolved[j] is Some ==> w.resolved[j] == want
}

proof fn lemma_resolve(env: Env, j: int, want: Option<Seq<u8>>, w: Walk, i: int)
    requires
        brings_json(env),
        settled(env, j, want, w),
        0 <= i < env.ops.len(),
    ensures
        resolve(env, w, i) matches Some(b) ==> is_value(b),
        settles(env, j, want) && want is Some ==> resolve(env, w, j) == want,
        settled(env, j, want, settle(env, w, i)),
        settle(env, w, i).out == w.out,
{
    assert(injects_json(env.ops[i]));
    if let Some(Source::Metadata(k)) = env.ops[i].source {
        law_json_string_is_string(w.meta[k]);
        law_json_string_is_string(env.base[k]);
        lemma_string_is_value(json_string(w.meta[k]));
        lemma_string_is_value(json_string(env.base[k]));
    }
}

proof fn lemma_capture(env: Env, j: int, want: Option<Seq<u8>>, w: Walk, place: Seq<Seq<char>>, json: Seq<u8>)
    requires
        settled(env, j, want, w),
    ensures
        settled(env, j, want, capture(env, w, place, json)),
        capture(env, w, place, json).out == w.out,
{
}

/// A walk that is inside a container: `items` are written behind the opening
/// byte, which stands behind `base`.
pub open spec fn inside(base: Seq<u8>, open: u8, items: Seq<Seq<u8>>, emitted: bool, w: Walk) -> bool {
    &&& w.out == base + seq![open] + run(items, true)
    &&& emitted == (items.len() > 0)
}

/// What the pointer of operation `j` reads in the members of the object at
/// `place`.
spec fn members_read(
    env: Env,
    j: int,
    want: Option<Seq<u8>>,
    place: Seq<Seq<char>>,
    items: Seq<(Seq<u8>, Seq<u8>)>,
) -> bool {
    let tokens = env.ops[j].tokens;
    settles(env, j, want) && leads_through(tokens, place) ==> forall|k: int|
        0 <= k < items.len() && key_text((#[trigger] items[k]).0) == Some(tokens[place.len() as int])
            ==> reads(items[k].1, tokens.skip(place.len() as int + 1), want, must_be(env, j))
}

/// What the pointer of operation `j` reads in the elements of the array at
/// `place`.
spec fn elements_read(
    env: Env,
    j: int,
    want: Option<Seq<u8>>,
    place: Seq<Seq<char>>,
    items: Seq<Seq<u8>>,
) -> bool {
    let tokens = env.ops[j].tokens;
    settles(env, j, want) && leads_through(tokens, place) ==> forall|k: int|
        0 <= k < items.len() && decimal(k as nat) == tokens[place.len() as int] ==> reads(
            #[trigger] items[k],
            tokens.skip(place.len() as int + 1),
            want,
            must_be(env, j),
        )
}

/// Elements keep their indexes where the pointer of operation `j` goes through
/// the array at `place` by one.
spec fn counted(
    env: Env,
    j: int,
    want: Option<Seq<u8>>,
    place: Seq<Seq<char>>,
    items: Seq<Seq<u8>>,
    idx: int,
) -> bool {
    settles(env, j, want) && leads_through(env.ops[j].tokens, place) && canonical(
        env.ops[j].tokens[place.len() as int],
    ) ==> items.len() == idx
}

/// What the pointer of operation `j` reads in the text of the value at `place`.
spec fn value_reads(env: Env, j: int, want: Option<Seq<u8>>, place: Seq<Seq<char>>, t: Seq<u8>) -> bool {
    settles(env, j, want) && leads_through(env.ops[j].tokens, place) ==> reads(
        t,
        env.ops[j].tokens.skip(place.len() as int),
        want,
        must_be(env, j),
    )
}

/// One item more.
pub proof fn lemma_item(
    base: Seq<u8>,
    open: u8,
    items: Seq<Seq<u8>>,
    emitted: bool,
    w: Walk,
    item: Seq<u8>,
    n: Walk,
)
    requires
        inside(base, open, items, emitted, w),
        n.out == w.out + (comma(emitted) + item),
    ensures
        inside(base, open, items.push(item), true, n),
{
    lemma_run_push(items, true, item);
    assert(n.out =~= base + seq![open] + run(items.push(item), true));
}

/// One member more.
pub proof fn lemma_member_item(
    base: Seq<u8>,
    items: Seq<(Seq<u8>, Seq<u8>)>,
    emitted: bool,
    w: Walk,
    key: Seq<u8>,
    value: Seq<u8>,
    n: Walk,
)
    requires
        inside(base, 0x7B, member_texts(items), emitted, w),
        all_members(items),
        is_string(key),
        is_value(value),
        n.out == w.out + (comma(emitted) + (key + seq![0x3Au8]) + value),
    ensures
        inside(base, 0x7B, member_texts(items.push((key, value))), true, n),
        all_members(items.push((key, value))),
{
    let item = member(key, value);
    let more = items.push((key, value));
    assert(comma(emitted) + (key + seq![0x3Au8]) + value =~= comma(emitted) + item);
    lemma_item(base, 0x7B, member_texts(items), emitted, w, item, n);
    assert(member_texts(more) =~= member_texts(items).push(item));
    assert forall|k: int| 0 <= k < more.len() implies is_string((#[trigger] more[k]).0) && is_value(
        more[k].1,
    ) by {
        if k < items.len() {
            assert(more[k] == items[k]);
        }
    }
}

proof fn lemma_members_read_push(
    env: Env,
    j: int,
    want: Option<Seq<u8>>,
    place: Seq<Seq<char>>,
    items: Seq<(Seq<u8>, Seq<u8>)>,
    key: Seq<u8>,
    value: Seq<u8>,
)
    requires
        members_read(env, j, want, place, items),
        settles(env, j, want) && leads_through(env.ops[j].tokens, place) && key_text(key) == Some(
            env.ops[j].tokens[place.len() as int],
        ) ==> reads(value, env.ops[j].tokens.skip(place.len() as int + 1), want, must_be(env, j)),
    ensures
        members_read(env, j, want, place, items.push((key, value))),
{
    let more = items.push((key, value));
    let tokens = env.ops[j].tokens;
    if settles(env, j, want) && leads_through(tokens, place) {
        assert forall|k: int|
            0 <= k < more.len() && key_text((#[trigger] more[k]).0) == Some(
                tokens[place.len() as int],
            ) implies reads(more[k].1, tokens.skip(place.len() as int + 1), want, must_be(env, j)) by {
            if k < items.len() {
                assert(more[k] == items[k]);
            }
        }
    }
}

proof fn lemma_elements_read_push(
    env: Env,
    j: int,
    want: Option<Seq<u8>>,
    place: Seq<Seq<char>>,
    items: Seq<Seq<u8>>,
    value: Seq<u8>,
)
    requires
        elements_read(env, j, want, place, items),
        all_values(items),
        is_value(value),
        settles(env, j, want) && leads_through(env.ops[j].tokens, place) && decimal(items.len())
            == env.ops[j].tokens[place.len() as int] ==> reads(
            value,
            env.ops[j].tokens.skip(place.len() as int + 1),
            want,
            must_be(env, j),
        ),
    ensures
        elements_read(env, j, want, place, items.push(value)),
        all_values(items.push(value)),
{
    let more = items.push(value);
    let tokens = env.ops[j].tokens;
    if settles(env, j, want) && leads_through(tokens, place) {
        assert forall|k: int| 0 <= k < more.len() && decimal(k as nat) == tokens[place.len() as int] implies reads(
            #[trigger] more[k],
            tokens.skip(place.len() as int + 1),
            want,
            must_be(env, j),
        ) by {
            if k < items.len() {
                assert(more[k] == items[k]);
            }
        }
    }
    assert forall|k: int| 0 <= k < more.len() implies is_value(#[trigger] more[k]) by {
        if k < items.len() {
            assert(more[k] == items[k]);
        }
    }
}

/// Keys that are there stay there.
spec fn all_there(satisfied: Seq<Seq<char>>, items: Seq<(Seq<u8>, Seq<u8>)>) -> bool {
    forall|name: Seq<char>| #[trigger] satisfied.contains(name) ==> has_key(items, name)
}

proof fn lemma_there_push(satisfied: Seq<Seq<char>>, items: Seq<(Seq<u8>, Seq<u8>)>, key: Seq<u8>, value: Seq<u8>)
    ensures
        all_there(satisfied, items) ==> all_there(satisfied, items.push((key, value))),
        key_text(key) matches Some(name) ==> has_key(items.push((key, value)), name),
        forall|name: Seq<char>| has_key(items, name) ==> #[trigger] has_key(items.push((key, value)), name),
{
    let more = items.push((key, value));
    assert(more[items.len() as int] == (key, value));
    assert forall|name: Seq<char>| has_key(items, name) implies #[trigger] has_key(more, name) by {
        let k = choose|k: int| 0 <= k < items.len() && key_text((#[trigger] items[k]).0) == Some(name);
        assert(more[k] == items[k]);
    }
}

/// What is at the pointer of operation `j` is changed by operation `j` alone.
proof fn lemma_own_place(env: Env, j: int, want: Option<Seq<u8>>, below: Seq<Seq<char>>)
    requires
        settles(env, j, want),
        below.is_prefix_of(env.ops[j].tokens),
    ensures
        touches(env.ops, below),
        below == env.ops[j].tokens ==> mutate_op(env.ops, below) == Some(j),
        below.len() < env.ops[j].tokens.len() ==> mutate_op(env.ops, below) is None,
{
    let tokens = env.ops[j].tokens;
    assert(tokens.take(below.len() as int) =~= below);
    assert(env.ops[j].reaches(below));
    lemma_mutate_bound(env.ops, below);
    if let Some(m) = mutate_op(env.ops, below) {
        if m != j {
            assert(env.ops[m].tokens.is_prefix_of(tokens));
            assert(overlap(env.ops[m].tokens, tokens));
        }
    }
    if below == tokens {
        lemma_mutate_found(env.ops, j, below);
    }
}

proof fn lemma_mutate_found(ops: Seq<Op>, j: int, place: Seq<Seq<char>>)
    requires
        0 <= j < ops.len(),
        ops[j].mutates(place),
    ensures
        mutate_op(ops, place) is Some,
    decreases ops.len(),
{
    if j < ops.len() - 1 {
        lemma_mutate_found(ops.drop_last(), j, place);
    }
}

/// Nothing is added to or removed from the array at `place` where the pointer of
/// operation `j` goes through it by an index.
proof fn lemma_no_shift(env: Env, j: int, want: Option<Seq<u8>>, place: Seq<Seq<char>>, i: int)
    requires
        settles(env, j, want),
        leads_through(env.ops[j].tokens, place),
        0 <= i < env.ops.len(),
        env.ops[i].kind == OpKind::Add || env.ops[i].kind == OpKind::Remove,
        env.ops[i].tokens.len() > 0,
        env.ops[i].tokens.drop_last() == place,
    ensures
        !canonical(env.ops[j].tokens[place.len() as int]),
{
}

/// What a pointer reads in an object is what it reads in its members.
proof fn lemma_object_reads(
    env: Env,
    j: int,
    want: Option<Seq<u8>>,
    place: Seq<Seq<char>>,
    items: Seq<(Seq<u8>, Seq<u8>)>,
)
    requires
        all_members(items),
        members_read(env, j, want, place, items),
        settles(env, j, want) && must_be(env, j) && leads_through(env.ops[j].tokens, place)
            && place.len() + 1 == env.ops[j].tokens.len() ==> has_key(
            items,
            env.ops[j].tokens.last(),
        ),
    ensures
        value_reads(env, j, want, place, object_text(items)),
        is_value(object_text(items)),
{
    let texts = member_texts(items);
    assert forall|k: int| 0 <= k < texts.len() implies is_member(#[trigger] texts[k]) by {
        assert(texts[k] == member(items[k].0, items[k].1));
    }
    lemma_object_is_value(texts);
    if settles(env, j, want) && leads_through(env.ops[j].tokens, place) {
        let rest = env.ops[j].tokens.skip(place.len() as int);
        assert(rest.skip(1) =~= env.ops[j].tokens.skip(place.len() as int + 1));
        assert(object_text(items) == object_text(items));
    }
}

/// What a pointer reads in an array is what it reads in its elements.
proof fn lemma_array_reads(
    env: Env,
    j: int,
    want: Option<Seq<u8>>,
    place: Seq<Seq<char>>,
    items: Seq<Seq<u8>>,
)
    requires
        all_values(items),
        elements_read(env, j, want, place, items),
    ensures
        value_reads(env, j, want, place, array_text(items)),
        is_value(array_text(items)),
{
    lemma_array_is_value(items);
    if settles(env, j, want) && leads_through(env.ops[j].tokens, place) {
        let rest = env.ops[j].tokens.skip(place.len() as int);
        assert(rest.skip(1) =~= env.ops[j].tokens.skip(place.len() as int + 1));
        assert(array_text(items) == array_text(items));
    }
}

/// Whether the key of operation `j` is among the members of the object at
/// `place`, or is added to them at or behind operation `i`.
spec fn is_coming(
    env: Env,
    j: int,
    want: Option<Seq<u8>>,
    place: Seq<Seq<char>>,
    satisfied: Seq<Seq<char>>,
    items: Seq<(Seq<u8>, Seq<u8>)>,
    i: int,
) -> bool {
    let tokens = env.ops[j].tokens;
    settles(env, j, want) && must_be(env, j) && leads_through(tokens, place) && place.len() + 1
        == tokens.len() ==> has_key(items, tokens.last()) || (i <= j && !satisfied.contains(
        tokens.last(),
    ))
}

/// A member that is added reads as the operation wants it.
proof fn lemma_added_reads(
    env: Env,
    j: int,
    want: Option<Seq<u8>>,
    place: Seq<Seq<char>>,
    i: int,
    w: Walk,
)
    requires
        brings_json(env),
        settled(env, j, want, w),
        0 <= i < env.ops.len(),
        adds_member(env.ops[i], place),
        env.ops[i].encoded is Some,
        resolve(env, w, i) is Some,
        settles(env, j, want),
        leads_through(env.ops[j].tokens, place),
        key_text(env.ops[i].encoded->0) == Some(env.ops[j].tokens[place.len() as int]),
    ensures
        reads(
            resolve(env, w, i)->0,
            env.ops[j].tokens.skip(place.len() as int + 1),
            want,
            must_be(env, j),
        ),
{
    let tokens = env.ops[j].tokens;
    let l = place.len() as int;
    assert(injects_json(env.ops[i]));
    assert(env.ops[i].tokens =~= env.ops[i].tokens.drop_last().push(env.ops[i].tokens.last()));
    assert(env.ops[i].tokens =~= tokens.take(l + 1));
    assert(env.ops[i].tokens.is_prefix_of(tokens));
    if i != j {
        assert(overlap(env.ops[i].tokens, tokens));
    }
    lemma_resolve(env, j, want, w, i);
    assert(tokens.skip(l + 1) =~= Seq::<Seq<char>>::empty());
}

/// The members that are added before an object closes.
proof fn lemma_added_members(
    env: Env,
    j: int,
    want: Option<Seq<u8>>,
    place: Seq<Seq<char>>,
    satisfied: Seq<Seq<char>>,
    i: int,
    emitted: bool,
    w: Walk,
    base: Seq<u8>,
    items: Seq<(Seq<u8>, Seq<u8>)>,
) -> (more: Seq<(Seq<u8>, Seq<u8>)>)
    requires
        env.emit,
        brings_json(env),
        settled(env, j, want, w),
        0 <= i,
        inside(base, 0x7B, member_texts(items), emitted, w),
        all_members(items),
        members_read(env, j, want, place, items),
        is_coming(env, j, want, place, satisfied, items, i),
    ensures
        settled(env, j, want, added_members(env, place, satisfied, i, emitted, w)),
        inside(
            base,
            0x7B,
            member_texts(more),
            more.len() > 0,
            added_members(env, place, satisfied, i, emitted, w),
        ),
        all_members(more),
        members_read(env, j, want, place, more),
        is_coming(env, j, want, place, satisfied, more, env.ops.len() as int),
    decreases env.ops.len() - i,
{
    if i >= env.ops.len() {
        items
    } else if adds_member(env.ops[i], place) && !satisfied.contains(env.ops[i].tokens.last())
        && env.ops[i].encoded is Some {
        let key = env.ops[i].encoded->0;
        let (e, n) = inserted(env, w, emitted, key + seq![0x3Au8], i);
        assert(injects_json(env.ops[i]));
        lemma_resolve(env, j, want, w, i);
        match resolve(env, w, i) {
            Some(b) => {
                if settles(env, j, want) && leads_through(env.ops[j].tokens, place) && key_text(key)
                    == Some(env.ops[j].tokens[place.len() as int]) {
                    lemma_added_reads(env, j, want, place, i, w);
                }
                lemma_member_item(base, items, emitted, w, key, b, n);
                lemma_members_read_push(env, j, want, place, items, key, b);
                lemma_there_push(satisfied, items, key, b);
                lemma_added_members(
                    env,
                    j,
                    want,
                    place,
                    satisfied,
                    i + 1,
                    e,
                    n,
                    base,
                    items.push((key, b)),
                )
            },
            None => lemma_added_members(env, j, want, place, satisfied, i + 1, e, n, base, items),
        }
    } else {
        if settles(env, j, want) && must_be(env, j) && leads_through(env.ops[j].tokens, place)
            && place.len() + 1 == env.ops[j].tokens.len() && i == j {
            assert(env.ops[j].tokens.drop_last() =~= place);
        }
        lemma_added_members(env, j, want, place, satisfied, i + 1, emitted, w, base, items)
    }
}

/// A value that is inserted into an array.
proof fn lemma_inserted(
    env: Env,
    j: int,
    want: Option<Seq<u8>>,
    place: Seq<Seq<char>>,
    w: Walk,
    emitted: bool,
    i: int,
    base: Seq<u8>,
    items: Seq<Seq<u8>>,
) -> (more: Seq<Seq<u8>>)
    requires
        env.emit,
        brings_json(env),
        settled(env, j, want, w),
        0 <= i < env.ops.len(),
        env.ops[i].kind == OpKind::Add,
        env.ops[i].tokens.len() > 0,
        env.ops[i].tokens.drop_last() == place,
        inside(base, 0x5B, items, emitted, w),
        all_values(items),
        elements_read(env, j, want, place, items),
    ensures
        settled(env, j, want, inserted(env, w, emitted, Seq::empty(), i).1),
        inside(
            base,
            0x5B,
            more,
            inserted(env, w, emitted, Seq::empty(), i).0,
            inserted(env, w, emitted, Seq::empty(), i).1,
        ),
        all_values(more),
        elements_read(env, j, want, place, more),
        settles(env, j, want) && leads_through(env.ops[j].tokens, place) ==> !canonical(
            env.ops[j].tokens[place.len() as int],
        ),
{
    lemma_resolve(env, j, want, w, i);
    if settles(env, j, want) && leads_through(env.ops[j].tokens, place) {
        lemma_no_shift(env, j, want, place, i);
    }
    match resolve(env, w, i) {
        Some(b) => {
            assert(comma(emitted) + Seq::<u8>::empty() + b =~= comma(emitted) + b);
            lemma_item(
                base,
                0x5B,
                items,
                emitted,
                w,
                b,
                inserted(env, w, emitted, Seq::empty(), i).1,
            );
            lemma_decimal_round_trip(items.len());
            lemma_elements_read_push(env, j, want, place, items, b);
            items.push(b)
        },
        None => items,
    }
}

/// What `replaced` writes behind its prefix.
proof fn lemma_replaced(
    env: Env,
    j: int,
    want: Option<Seq<u8>>,
    w: Walk,
    emitted: bool,
    prefix: Seq<u8>,
    i: int,
    original: Seq<u8>,
) -> (t: Seq<u8>)
    requires
        env.emit,
        brings_json(env),
        settled(env, j, want, w),
        0 <= i < env.ops.len(),
        is_value(original),
    ensures
        settled(env, j, want, replaced(env, w, emitted, prefix, i, original)),
        is_value(t),
        replaced(env, w, emitted, prefix, i, original).out == w.out + (comma(emitted) + prefix + t),
        i == j && settles(env, j, want) && want is Some ==> want == Some(t),
{
    lemma_resolve(env, j, want, w, i);
    match resolve(env, w, i) {
        Some(b) => b,
        None => original,
    }
}

proof fn lemma_copied(
    env: Env,
    j: int,
    want: Option<Seq<u8>>,
    s: Seq<u8>,
    i: int,
    depth: int,
    w: Walk,
) -> (t: Seq<u8>)
    requires
        env.emit,
        settled(env, j, want, w),
        0 <= i <= s.len(),
        copy_value(env, s, i, depth, w) is Ok,
    ensures
        settled(env, j, want, copy_value(env, s, i, depth, w)->Ok_0.1),
        is_value(t),
        copy_value(env, s, i, depth, w)->Ok_0.1.out == w.out + t,
        byte_at(t, 0) == byte_at(s, ws_end(s, i)),
{
    lemma_span_is_value(s, i, depth);
    s.subrange(ws_end(s, i), value_end(s, i, depth)->Ok_0)
}

/// What the pass writes for a value is a value, in which the pointer of
/// operation `j` reads what that operation wants.
#[verifier::rlimit(60)]
#[verifier::spinoff_prover]
proof fn lemma_value_written(
    env: Env,
    j: int,
    want: Option<Seq<u8>>,
    s: Seq<u8>,
    i: int,
    place: Seq<Seq<char>>,
    depth: int,
    w: Walk,
) -> (t: Seq<u8>)
    requires
        env.emit,
        brings_json(env),
        settled(env, j, want, w),
        0 <= i <= s.len(),
        walk_value(env, s, i, place, depth, w) is Ok,
    ensures
        settled(env, j, want, walk_value(env, s, i, place, depth, w)->Ok_0.1),
        is_value(t),
        walk_value(env, s, i, place, depth, w)->Ok_0.1.out == w.out + t,
        value_reads(env, j, want, place, t),
    decreases s.len() - i, 0int,
{
    let k = ws_end(s, i);
    lemma_ws_end(s, i);
    if settles(env, j, want) && leads_through(env.ops[j].tokens, place) {
        lemma_own_place(env, j, want, place);
    }
    if touches(env.ops, place) && byte_at(s, k) == Some(0x7Bu8) {
        let none = Seq::<(Seq<u8>, Seq<u8>)>::empty();
        let opened = put(env, w, seq![0x7Bu8]);
        assert(member_texts(none) =~= Seq::<Seq<u8>>::empty());
        assert(opened.out =~= w.out + seq![0x7Bu8] + run(member_texts(none), true));
        let walked = walk_members(env, s, k + 1, place, depth + 1, true, false, Seq::empty(), opened);
        let t = lemma_members_written(
            env,
            j,
            want,
            s,
            k + 1,
            place,
            depth + 1,
            true,
            false,
            Seq::empty(),
            opened,
            w.out,
            none,
        );
        lemma_capture(env, j, want, walked->Ok_0.1, place, s.subrange(k, walked->Ok_0.0));
        t
    } else if touches(env.ops, place) && byte_at(s, k) == Some(0x5Bu8) {
        let none = Seq::<Seq<u8>>::empty();
        let opened = put(env, w, seq![0x5Bu8]);
        assert(opened.out =~= w.out + seq![0x5Bu8] + run(none, true));
        let walked = walk_elements(env, s, k + 1, place, depth + 1, 0, false, opened);
        let t = lemma_elements_written(
            env,
            j,
            want,
            s,
            k + 1,
            place,
            depth + 1,
            0,
            false,
            opened,
            w.out,
            none,
        );
        lemma_capture(env, j, want, walked->Ok_0.1, place, s.subrange(k, walked->Ok_0.0));
        t
    } else {
        let walked = copy_value(env, s, k, depth, w);
        let t = lemma_copied(env, j, want, s, k, depth, w);
        lemma_ws_stays(s, i);
        lemma_capture(env, j, want, walked->Ok_0.1, place, s.subrange(k, walked->Ok_0.0));
        t
    }
}

/// What the pass writes for an object.
#[verifier::rlimit(60)]
#[verifier::spinoff_prover]
proof fn lemma_members_written(
    env: Env,
    j: int,
    want: Option<Seq<u8>>,
    s: Seq<u8>,
    i: int,
    place: Seq<Seq<char>>,
    depth: int,
    first: bool,
    emitted: bool,
    satisfied: Seq<Seq<char>>,
    w: Walk,
    base: Seq<u8>,
    items: Seq<(Seq<u8>, Seq<u8>)>,
) -> (t: Seq<u8>)
    requires
        env.emit,
        brings_json(env),
        settled(env, j, want, w),
        0 <= i <= s.len(),
        walk_members(env, s, i, place, depth, first, emitted, satisfied, w) is Ok,
        inside(base, 0x7B, member_texts(items), emitted, w),
        all_members(items),
        members_read(env, j, want, place, items),
        all_there(satisfied, items),
    ensures
        settled(
            env,
            j,
            want,
            walk_members(env, s, i, place, depth, first, emitted, satisfied, w)->Ok_0.1,
        ),
        is_value(t),
        walk_members(env, s, i, place, depth, first, emitted, satisfied, w)->Ok_0.1.out == base + t,
        value_reads(env, j, want, place, t),
    decreases s.len() - i, 2int,
{
    lemma_next_item(s, i, first, 0x7D);
    match next_item(s, i, first, 0x7D) {
        Next::Item(q) => {
            lemma_string_end(s, q);
            let e = string_end(s, q)->0;
            lemma_ws_end(s, e);
            let key = key_text(s.subrange(q, e))->0;
            let c = colon_end(s, e)->0;
            let walked = walk_member(env, s, q, e, c, key, place, depth, emitted, satisfied, w);
            let (v, now, kept, n) = walked->Ok_0;
            let more = lemma_member_written(
                env,
                j,
                want,
                s,
                q,
                e,
                c,
                key,
                place,
                depth,
                emitted,
                satisfied,
                w,
                base,
                items,
            );
            lemma_members_written(env, j, want, s, v, place, depth, false, now, kept, n, base, more)
        },
        _ => {
            let more = lemma_added_members(
                env,
                j,
                want,
                place,
                satisfied,
                0,
                emitted,
                w,
                base,
                items,
            );
            lemma_object_reads(env, j, want, place, more);
            let t = object_text(more);
            assert(base + seq![0x7Bu8] + run(member_texts(more), true) + seq![0x7Du8] =~= base + t);
            t
        },
    }
}

/// What the pass writes for a member.
#[verifier::rlimit(60)]
#[verifier::spinoff_prover]
proof fn lemma_member_written(
    env: Env,
    j: int,
    want: Option<Seq<u8>>,
    s: Seq<u8>,
    q: int,
    e: int,
    c: int,
    key: Seq<char>,
    place: Seq<Seq<char>>,
    depth: int,
    emitted: bool,
    satisfied: Seq<Seq<char>>,
    w: Walk,
    base: Seq<u8>,
    items: Seq<(Seq<u8>, Seq<u8>)>,
) -> (more: Seq<(Seq<u8>, Seq<u8>)>)
    requires
        env.emit,
        brings_json(env),
        settled(env, j, want, w),
        0 <= c <= s.len(),
        string_end(s, q) == Some(e),
        key_text(s.subrange(q, e)) == Some(key),
        walk_member(env, s, q, e, c, key, place, depth, emitted, satisfied, w) is Ok,
        inside(base, 0x7B, member_texts(items), emitted, w),
        all_members(items),
        members_read(env, j, want, place, items),
        all_there(satisfied, items),
    ensures
        ({
            let (_, now, kept, n) = walk_member(
                env,
                s,
                q,
                e,
                c,
                key,
                place,
                depth,
                emitted,
                satisfied,
                w,
            )->Ok_0;
            &&& settled(env, j, want, n)
            &&& inside(base, 0x7B, member_texts(more), now, n)
            &&& all_there(kept, more)
        }),
        all_members(more),
        members_read(env, j, want, place, more),
    decreases s.len() - c, 1int,
{
    let below = place.push(key);
    let name = s.subrange(q, e);
    let prefix = name + seq![0x3Au8];
    let tokens = env.ops[j].tokens;
    let walked = walk_member(env, s, q, e, c, key, place, depth, emitted, satisfied, w);
    let on = settles(env, j, want) && leads_through(tokens, place) && key == tokens[place.len() as int];
    lemma_span_is_string(s, q);
    lemma_mutate_bound(env.ops, below);
    if on {
        assert(below =~= tokens.take(place.len() as int + 1));
        assert(below.is_prefix_of(tokens));
        lemma_own_place(env, j, want, below);
        if below.len() == tokens.len() {
            assert(below =~= tokens);
            assert(tokens.skip(place.len() as int + 1) =~= Seq::<Seq<char>>::empty());
        }
    }
    match mutate_op(env.ops, below) {
        Some(m) => {
            lemma_span_is_value(s, c, depth);
            let original = s.subrange(ws_end(s, c), value_end(s, c, depth)->Ok_0);
            let n = capture(env, w, below, original);
            lemma_capture(env, j, want, w, below, original);
            if env.ops[m].kind == OpKind::Remove {
                items
            } else {
                let t = lemma_replaced(env, j, want, n, emitted, prefix, m, original);
                lemma_member_item(base, items, emitted, w, name, t, walked->Ok_0.3);
                lemma_members_read_push(env, j, want, place, items, name, t);
                lemma_there_push(satisfied, items, name, t);
                let more = items.push((name, t));
                let kept = walked->Ok_0.2;
                assert forall|x: Seq<char>| #[trigger] kept.contains(x) implies has_key(more, x) by {
                    if x != key {
                        let k = kept.index_of(x);
                        assert(satisfied[k] == x);
                        assert(satisfied.contains(x));
                    }
                }
                more
            }
        },
        None => {
            let n = put(env, w, comma(emitted) + prefix);
            let t = if touches(env.ops, below) {
                lemma_value_written(env, j, want, s, c, below, depth, n)
            } else {
                lemma_copied(env, j, want, s, c, depth, n)
            };
            assert(w.out + (comma(emitted) + prefix) + t =~= w.out + (comma(emitted) + prefix + t));
            lemma_member_item(base, items, emitted, w, name, t, walked->Ok_0.3);
            lemma_members_read_push(env, j, want, place, items, name, t);
            lemma_there_push(satisfied, items, name, t);
            items.push((name, t))
        },
    }
}

/// What the pass writes for an array.
#[verifier::rlimit(60)]
#[verifier::spinoff_prover]
proof fn lemma_elements_written(
    env: Env,
    j: int,
    want: Option<Seq<u8>>,
    s: Seq<u8>,
    i: int,
    place: Seq<Seq<char>>,
    depth: int,
    idx: int,
    emitted: bool,
    w: Walk,
    base: Seq<u8>,
    items: Seq<Seq<u8>>,
) -> (t: Seq<u8>)
    requires
        env.emit,
        brings_json(env),
        settled(env, j, want, w),
        0 <= i <= s.len(),
        0 <= idx,
        walk_elements(env, s, i, place, depth, idx, emitted, w) is Ok,
        inside(base, 0x5B, items, emitted, w),
        all_values(items),
        elements_read(env, j, want, place, items),
        counted(env, j, want, place, items, idx),
    ensures
        settled(env, j, want, walk_elements(env, s, i, place, depth, idx, emitted, w)->Ok_0.1),
        is_value(t),
        walk_elements(env, s, i, place, depth, idx, emitted, w)->Ok_0.1.out == base + t,
        value_reads(env, j, want, place, t),
    decreases s.len() - i, 2int,
{
    let token = decimal(idx as nat);
    let below = place.push(token);
    lemma_next_item(s, i, idx == 0, 0x5D);
    let (e1, w1) = added_before(env, place, token, emitted, w);
    lemma_mutate_bound(env.ops, below);
    lemma_append_bound(env.ops, place);
    assert(below.drop_last() =~= place);
    let before = match mutate_op(env.ops, below) {
        Some(m) => if env.ops[m].kind == OpKind::Add {
            lemma_inserted(env, j, want, place, w, emitted, m, base, items)
        } else {
            items
        },
        None => items,
    };
    match next_item(s, i, idx == 0, 0x5D) {
        Next::Item(q) => {
            let (v, now, n) = walk_element(env, s, q, below, depth, e1, w1)->Ok_0;
            let more = lemma_element_written(
                env,
                j,
                want,
                s,
                q,
                place,
                idx,
                depth,
                e1,
                w1,
                base,
                before,
            );
            lemma_elements_written(
                env,
                j,
                want,
                s,
                v,
                place,
                depth,
                idx + 1,
                now,
                n,
                base,
                more,
            )
        },
        _ => {
            let (e2, w2) = added_behind(env, place, e1, w1);
            let more = match append_op(env.ops, place) {
                Some(m) => lemma_inserted(env, j, want, place, w1, e1, m, base, before),
                None => before,
            };
            lemma_array_reads(env, j, want, place, more);
            let t = array_text(more);
            assert(base + seq![0x5Bu8] + run(more, true) + seq![0x5Du8] =~= base + t);
            t
        },
    }
}

/// What the pass writes for an element.
#[verifier::rlimit(60)]
#[verifier::spinoff_prover]
proof fn lemma_element_written(
    env: Env,
    j: int,
    want: Option<Seq<u8>>,
    s: Seq<u8>,
    q: int,
    place: Seq<Seq<char>>,
    idx: int,
    depth: int,
    emitted: bool,
    w: Walk,
    base: Seq<u8>,
    items: Seq<Seq<u8>>,
) -> (more: Seq<Seq<u8>>)
    requires
        env.emit,
        brings_json(env),
        settled(env, j, want, w),
        0 <= q <= s.len(),
        0 <= idx,
        walk_element(env, s, q, place.push(decimal(idx as nat)), depth, emitted, w) is Ok,
        inside(base, 0x5B, items, emitted, w),
        all_values(items),
        elements_read(env, j, want, place, items),
        counted(env, j, want, place, items, idx),
    ensures
        ({
            let (_, now, n) = walk_element(
                env,
                s,
                q,
                place.push(decimal(idx as nat)),
                depth,
                emitted,
                w,
            )->Ok_0;
            settled(env, j, want, n) && inside(base, 0x5B, more, now, n)
        }),
        all_values(more),
        elements_read(env, j, want, place, more),
        counted(env, j, want, place, more, idx + 1),
    decreases s.len() - q, 1int,
{
    let below = place.push(decimal(idx as nat));
    let tokens = env.ops[j].tokens;
    let op = mutate_op(env.ops, below);
    let walked = walk_element(env, s, q, below, depth, emitted, w);
    let on = settles(env, j, want) && leads_through(tokens, place) && decimal(items.len())
        == tokens[place.len() as int];
    lemma_mutate_bound(env.ops, below);
    assert(below.drop_last() =~= place);
    if on {
        lemma_decimal_round_trip(items.len());
        assert(below =~= tokens.take(place.len() as int + 1));
        assert(below.is_prefix_of(tokens));
        lemma_own_place(env, j, want, below);
        if below.len() == tokens.len() {
            assert(below =~= tokens);
            assert(tokens.skip(place.len() as int + 1) =~= Seq::<Seq<char>>::empty());
        }
    }
    if op is Some && env.ops[op->0].kind != OpKind::Add {
        let m = op->0;
        lemma_span_is_value(s, q, depth);
        let original = s.subrange(ws_end(s, q), value_end(s, q, depth)->Ok_0);
        let n = capture(env, w, below, original);
        lemma_capture(env, j, want, w, below, original);
        if env.ops[m].kind == OpKind::Remove {
            if settles(env, j, want) && leads_through(tokens, place) {
                lemma_no_shift(env, j, want, place, m);
            }
            items
        } else {
            let t = lemma_replaced(env, j, want, n, emitted, Seq::empty(), m, original);
            assert(comma(emitted) + Seq::<u8>::empty() + t =~= comma(emitted) + t);
            lemma_item(base, 0x5B, items, emitted, w, t, walked->Ok_0.2);
            lemma_elements_read_push(env, j, want, place, items, t);
            items.push(t)
        }
    } else {
        let n = put(env, w, comma(emitted));
        if on && op is Some {
            lemma_no_shift(env, j, want, place, op->0);
        }
        let t = if touches(env.ops, below) {
            lemma_value_written(env, j, want, s, q, below, depth, n)
        } else {
            lemma_copied(env, j, want, s, q, depth, n)
        };
        assert(w.out + comma(emitted) + t =~= w.out + (comma(emitted) + t));
        lemma_item(base, 0x5B, items, emitted, w, t, walked->Ok_0.2);
        lemma_elements_read_push(env, j, want, place, items, t);
        items.push(t)
    }
}

proof fn lemma_root_bound(ops: Seq<Op>, j: int)
    requires
        0 <= j,
    ensures
        root_replace_op(ops, j) matches Some(k) ==> j <= k < ops.len() && ops[k].tokens.len() == 0
            && ops[k].kind == OpKind::Replace,
        root_replace_op(ops, j) is None ==> forall|k: int|
            j <= k < ops.len() ==> !((#[trigger] ops[k]).tokens.len() == 0 && ops[k].kind
                == OpKind::Replace),
    decreases ops.len() - j,
{
    if j < ops.len() {
        lemma_root_bound(ops, j + 1);
    }
}

/// What the pass writes for a document.
#[verifier::rlimit(60)]
#[verifier::spinoff_prover]
proof fn lemma_document_written(env: Env, j: int, want: Option<Seq<u8>>, s: Seq<u8>)
    requires
        env.emit,
        brings_json(env),
        walk_document(env, s) is Ok,
    ensures
        is_value(walk_document(env, s)->Ok_0.out),
        settles(env, j, want) && (env.ops[j].tokens.len() > 0 || env.ops[j].kind == OpKind::Replace)
            ==> reads(
            walk_document(env, s)->Ok_0.out,
            env.ops[j].tokens,
            want,
            must_be(env, j),
        ),
{
    let w = start(env);
    let i = ws_end(s, bom_len(s));
    lemma_ws_end(s, bom_len(s));
    assert forall|k: int| 0 <= k < w.resolved.len() && (#[trigger] w.resolved[k]) is Some implies is_value(
        w.resolved[k]->0,
    ) by {
        assert(injects_json(env.ops[k]));
    }
    assert(settled(env, j, want, w));
    lemma_root_bound(env.ops, 0);
    let root = root_replace_op(env.ops, 0);
    if root is Some && resolve(env, w, root->0) is Some {
        let m = root->0;
        lemma_resolve(env, j, want, w, m);
        let b = resolve(env, w, m)->0;
        assert(w.out + b =~= b);
        if settles(env, j, want) {
            if m != j {
                assert(env.ops[m].tokens.is_prefix_of(env.ops[j].tokens));
                assert(overlap(env.ops[m].tokens, env.ops[j].tokens));
            }
        }
    } else {
        let t = lemma_value_written(env, j, want, s, i, Seq::empty(), 0, w);
        assert(w.out + t =~= t);
        if settles(env, j, want) {
            let tokens = env.ops[j].tokens;
            if tokens.len() == 0 && env.ops[j].kind == OpKind::Replace {
                if root is Some && root->0 != j {
                    assert(env.ops[root->0].tokens.is_prefix_of(tokens));
                    assert(overlap(env.ops[root->0].tokens, tokens));
                }
                lemma_resolve(env, j, want, w, j);
            } else if tokens.len() > 0 {
                assert(tokens.take(0) =~= Seq::<Seq<char>>::empty());
                assert(tokens.skip(0) =~= tokens);
            }
        }
    }
}

/// A pass that writes a document writes one JSON value, whatever document it
/// reads and whatever its operations add, replace and remove, as long as what
/// they bring into it is JSON.
pub proof fn law_rewrite_yields_json(env: Env, s: Seq<u8>)
    requires
        env.emit,
        brings_json(env),
    ensures
        walk_document(env, s) matches Ok(w) ==> is_value(w.out),
{
    if walk_document(env, s) is Ok {
        lemma_document_written(env, -1, None, s);
    }
}

/// The pointer of an add or a replace reads its value in the written document:
/// wherever it leads to a value, this is the one that was written, and behind an
/// add it leads to one in every object that it is added to. Other operations
/// may do anything elsewhere, but do not overlap with it, and leave the indexes
/// of the arrays alone that it goes through.
pub proof fn law_written_value_is_read(env: Env, j: int, value: Seq<u8>, s: Seq<u8>)
    requires
        env.emit,
        brings_json(env),
        settles(env, j, Some(value)),
        env.ops[j].tokens.len() > 0 || env.ops[j].kind == OpKind::Replace,
    ensures
        walk_document(env, s) matches Ok(w) ==> reads(
            w.out,
            env.ops[j].tokens,
            Some(value),
            env.ops[j].kind == OpKind::Add,
        ),
{
    if walk_document(env, s) is Ok {
        lemma_document_written(env, j, Some(value), s);
    }
}

/// The pointer of a remove leads to nothing in the written document.
pub proof fn law_removed_value_is_gone(env: Env, j: int, s: Seq<u8>)
    requires
        env.emit,
        brings_json(env),
        settles(env, j, None),
        env.ops[j].tokens.len() > 0,
    ensures
        walk_document(env, s) matches Ok(w) ==> reads(w.out, env.ops[j].tokens, None, false),
{
    if walk_document(env, s) is Ok {
        lemma_document_written(env, j, None, s);
    }
}

proof fn lemma_untouched_not_extracted(ops: Seq<Op>, place: Seq<Seq<char>>)
    requires
        extract_op(ops, place) is Some,
    ensures
        touches(ops, place),
    decreases ops.len(),
{
    let last = ops.len() - 1;
    if ops.last().extracts(place) {
        assert(ops[last].tokens.take(place.len() as int) =~= place);
        assert(ops[last].reaches(place));
    } else {
        let front = ops.drop_last();
        lemma_untouched_not_extracted(front, place);
        let j = choose|j: int| 0 <= j < front.len() && #[trigger] front[j].reaches(place);
        assert(ops[j].reaches(place));
    }
}

/// A value that no operation reaches, whether it stands at the root, in an
/// object or in an array, is copied byte for byte, and nothing is captured
/// from it.
pub proof fn law_untouched_value_is_copied(
    env: Env,
    s: Seq<u8>,
    i: int,
    place: Seq<Seq<char>>,
    depth: int,
    w: Walk,
)
    requires
        !touches(env.ops, place),
    ensures
        walk_value(env, s, i, place, depth, w) == copy_value(env, s, ws_end(s, i), depth, w),
{
    if extract_op(env.ops, place) is Some {
        lemma_untouched_not_extracted(env.ops, place);
    }
}

} // verus!
