//! What one add or one remove makes of a JSON value, and that a remove undoes
//! an add.

use vstd::prelude::*;

use crate::json_body::error::{RewriteError, MAX_JSON_DEPTH};
use crate::json_body::grammar::{is_string, is_value, lemma_span_is_string, lemma_span_is_value, lemma_ws_stays, run};
use crate::json_body::ops::{append_op, dash, extract_op, mutate_op, texts, touches, Op, OpKind};
use crate::json_body::output::{all_members, all_values, array_text, inside, lemma_item, lemma_member_item, member_texts, object_text, quotes_key};
use crate::json_body::request_ops::fresh_pass;
use crate::json_body::rewrite::{pass_env, ResolvedOp, RewriteMode};
use crate::json_body::scan::{bom_len, byte_at, colon_end, elements_end, lemma_next_item, lemma_string_end, lemma_ws_end, members_end, next_item, scalar_end, string_end, value_end, ws_end, Next};
use crate::json_body::tree::{element_trees, elements_fit, fits, lemma_array_tree, lemma_elements_tree, lemma_members_tree, lemma_narrower_tree, lemma_object_tree, lemma_tree_of, lemma_value_tree, member_trees, members_fit, tree_document, tree_elements, tree_members, tree_of, tree_value, Tree};
use crate::json_body::walk::{added_before, added_behind, added_members, comma, copy_value, key_text, put, root_replace_op, start, walk_document, walk_element, walk_elements, walk_member, walk_members, walk_value, Env, Walk};
use crate::number::decimal;

verus! {

/// Whether an operation adds a string, number or literal at a pointer with a key
/// at its end, or removes what stands at a pointer.
pub open spec fn is_plain(op: Op) -> bool {
    &&& op.tokens.len() > 0
    &&& !op.appends()
    &&& op.kind == OpKind::Add || op.kind == OpKind::Remove
    &&& op.kind == OpKind::Add ==> {
        &&& op.payload matches Some(b) && scalar_end(b, 0) == Some(b.len() as int)
        &&& op.encoded matches Some(b) && is_string(b) && key_text(b) == Some(op.tokens.last())
    }
}

/// Whether an operation of this kind changes members of objects alone where its
/// pointer, of which `rest` is left, leads in `tree`: an add finds no member with
/// its key, and neither finds an array before its last token.
pub open spec fn has_room(kind: OpKind, rest: Seq<Seq<char>>, tree: Tree) -> bool
    decreases rest.len(), 1int,
{
    if rest.len() == 0 {
        true
    } else {
        match tree {
            Tree::Scalar(_) => true,
            Tree::Object(members) => forall|k: int|
                0 <= k < members.len() ==> member_has_room(kind, rest, #[trigger] members[k]),
            Tree::Array(elements) => rest.len() > 1 && forall|k: int|
                0 <= k < elements.len() ==> element_has_room(kind, rest, k, #[trigger] elements[k]),
        }
    }
}

pub open spec fn member_has_room(kind: OpKind, rest: Seq<Seq<char>>, m: (Seq<u8>, Tree)) -> bool
    decreases rest.len(), 0int,
{
    rest.len() > 0 && key_text(m.0) == Some(rest[0]) ==> if rest.len() == 1 {
        kind == OpKind::Remove
    } else {
        has_room(kind, rest.skip(1), m.1)
    }
}

pub open spec fn element_has_room(kind: OpKind, rest: Seq<Seq<char>>, k: int, x: Tree) -> bool
    decreases rest.len(), 0int,
{
    rest.len() > 0 && decimal(k as nat) == rest[0] ==> has_room(kind, rest.skip(1), x)
}

/// Whether the keys decode of every object that a pointer, of which `rest` is
/// left, leads through.
pub open spec fn is_named(rest: Seq<Seq<char>>, tree: Tree) -> bool
    decreases rest.len(), 1int,
{
    if rest.len() == 0 {
        true
    } else {
        match tree {
            Tree::Scalar(_) => true,
            Tree::Object(members) => forall|k: int|
                0 <= k < members.len() ==> member_is_named(rest, #[trigger] members[k]),
            Tree::Array(elements) => forall|k: int|
                0 <= k < elements.len() ==> element_is_named(rest, k, #[trigger] elements[k]),
        }
    }
}

pub open spec fn member_is_named(rest: Seq<Seq<char>>, m: (Seq<u8>, Tree)) -> bool
    decreases rest.len(), 0int,
{
    &&& key_text(m.0) is Some
    &&& rest.len() > 0 && key_text(m.0) == Some(rest[0]) ==> is_named(rest.skip(1), m.1)
}

pub open spec fn element_is_named(rest: Seq<Seq<char>>, k: int, x: Tree) -> bool
    decreases rest.len(), 0int,
{
    rest.len() > 0 && decimal(k as nat) == rest[0] ==> is_named(rest.skip(1), x)
}

/// What an operation makes of the value `tree`, where `rest` of its pointer is left.
pub open spec fn applied(op: Op, rest: Seq<Seq<char>>, tree: Tree) -> Tree
    decreases rest.len(), 2int, 0int,
{
    if rest.len() == 0 {
        tree
    } else {
        match tree {
            Tree::Scalar(_) => tree,
            Tree::Object(members) => Tree::Object(
                applied_members(op, rest, members) + new_members(op, rest),
            ),
            Tree::Array(elements) => Tree::Array(applied_elements(op, rest, elements)),
        }
    }
}

/// The member that an operation adds at the end of an object.
pub open spec fn new_members(op: Op, rest: Seq<Seq<char>>) -> Seq<(Seq<u8>, Tree)> {
    if op.kind == OpKind::Add && rest.len() == 1 {
        seq![(op.encoded->0, tree_of(op.payload->0))]
    } else {
        Seq::empty()
    }
}

pub open spec fn applied_members(op: Op, rest: Seq<Seq<char>>, members: Seq<(Seq<u8>, Tree)>) -> Seq<
    (Seq<u8>, Tree),
>
    decreases rest.len(), 1int, members.len(),
{
    if members.len() == 0 {
        Seq::empty()
    } else {
        applied_members(op, rest, members.drop_last()) + applied_member(op, rest, members.last())
    }
}

pub open spec fn applied_member(op: Op, rest: Seq<Seq<char>>, m: (Seq<u8>, Tree)) -> Seq<
    (Seq<u8>, Tree),
>
    decreases rest.len(), 0int, 0int,
{
    if rest.len() > 0 && key_text(m.0) == Some(rest[0]) {
        if rest.len() > 1 {
            seq![(m.0, applied(op, rest.skip(1), m.1))]
        } else if op.kind == OpKind::Remove {
            Seq::empty()
        } else {
            seq![m]
        }
    } else {
        seq![m]
    }
}

pub open spec fn applied_elements(op: Op, rest: Seq<Seq<char>>, elements: Seq<Tree>) -> Seq<Tree>
    decreases rest.len(), 1int, elements.len(),
{
    if elements.len() == 0 {
        Seq::empty()
    } else {
        applied_elements(op, rest, elements.drop_last()).push(
            applied_element(op, rest, elements.len() - 1, elements.last()),
        )
    }
}

pub open spec fn applied_element(op: Op, rest: Seq<Seq<char>>, k: int, x: Tree) -> Tree
    decreases rest.len(), 0int, 0int,
{
    if rest.len() > 0 && decimal(k as nat) == rest[0] {
        applied(op, rest.skip(1), x)
    } else {
        x
    }
}

/// How an operation that stands alone is found.
proof fn lemma_alone(op: Op, place: Seq<Seq<char>>)
    requires
        is_plain(op),
    ensures
        mutate_op(seq![op], place) == (if op.tokens == place {
            Some(0int)
        } else {
            None
        }),
        extract_op(seq![op], place) is None,
        append_op(seq![op], place) is None,
        touches(seq![op], place) <==> place.is_prefix_of(op.tokens),
        root_replace_op(seq![op], 0) is None,
{
    let ops = seq![op];
    assert(ops.last() == op);
    assert(ops.drop_last() =~= Seq::<Op>::empty());
    reveal_with_fuel(mutate_op, 2);
    reveal_with_fuel(extract_op, 2);
    reveal_with_fuel(append_op, 2);
    reveal_with_fuel(root_replace_op, 2);
    if place.is_prefix_of(op.tokens) {
        assert(op.tokens.take(place.len() as int) =~= place);
        assert(ops[0].reaches(place));
    }
    if touches(ops, place) {
        let j = choose|j: int| 0 <= j < ops.len() && #[trigger] ops[j].reaches(place);
        assert(ops[j] == op);
        assert(op.tokens.take(place.len() as int) =~= op.tokens.subrange(0, place.len() as int));
    }
}

/// Whether a pass makes one operation, which has its place at or below `place`.
spec fn on_path(env: Env, op: Op, place: Seq<Seq<char>>, w: Walk) -> bool {
    &&& env.emit
    &&& env.ops == seq![op]
    &&& is_plain(op)
    &&& place.is_prefix_of(op.tokens)
    &&& place.len() < op.tokens.len()
    &&& w.resolved == seq![op.payload]
}

spec fn left(op: Op, place: Seq<Seq<char>>) -> Seq<Seq<char>> {
    op.tokens.skip(place.len() as int)
}

/// How a pointer goes on below `place`.
proof fn lemma_below(op: Op, place: Seq<Seq<char>>, token: Seq<char>)
    requires
        is_plain(op),
        place.is_prefix_of(op.tokens),
        place.len() < op.tokens.len(),
    ensures
        place.push(token).is_prefix_of(op.tokens) <==> token == left(op, place)[0],
        op.tokens == place.push(token) <==> token == left(op, place)[0] && left(op, place).len() == 1,
        left(op, place.push(token)) == left(op, place).skip(1),
        left(op, place).len() > 0,
        left(op, place).len() == 1 ==> op.tokens.drop_last() == place && op.tokens.last() == left(
            op,
            place,
        )[0],
        left(op, place).len() > 1 ==> op.tokens.drop_last() != place,
{
    let below = place.push(token);
    let tokens = op.tokens;
    let n = place.len() as int;
    assert(left(op, place)[0] == tokens[n]);
    assert(left(op, below) =~= left(op, place).skip(1));
    if token == tokens[n] {
        assert(below =~= tokens.subrange(0, n + 1));
    }
    if below.is_prefix_of(tokens) {
        assert(below[n] == tokens.subrange(0, n + 1)[n]);
    }
    if tokens.len() == n + 1 {
        assert(tokens.subrange(0, n + 1) =~= tokens);
        assert(tokens.drop_last() =~= place);
    }
    if tokens == below {
        assert(below[n] == token);
    }
}

/// A value that is copied.
pub proof fn lemma_copied_tree(env: Env, s: Seq<u8>, i: int, depth: int, w: Walk) -> (t: Seq<u8>)
    requires
        env.emit,
        0 <= i <= s.len(),
    ensures
        copy_value(env, s, i, depth, w) is Ok <==> (tree_value(s, i) matches Some((_, tree)) && fits(
            tree,
            depth,
        )),
        copy_value(env, s, i, depth, w) matches Ok((e, n)) ==> {
            &&& i < e <= s.len()
            &&& tree_value(s, i) == Some((e, tree_of(t)))
            &&& is_value(t)
            &&& n.resolved == w.resolved
            &&& n.out == w.out + t
        },
{
    lemma_value_tree(s, i, depth);
    let k = ws_end(s, i);
    match value_end(s, i, depth) {
        Ok(e) => {
            lemma_ws_end(s, i);
            lemma_span_is_value(s, i, depth);
            let t = s.subrange(k, e);
            lemma_ws_stays(s, i);
            assert(tree_value(s, k) == tree_value(s, i));
            lemma_narrower_tree(t, s, k, 0);
            t
        },
        Err(_) => Seq::empty(),
    }
}

spec fn members_have_room(kind: OpKind, rest: Seq<Seq<char>>, members: Seq<(Seq<u8>, Tree)>) -> bool {
    forall|k: int| 0 <= k < members.len() ==> member_has_room(kind, rest, #[trigger] members[k])
}

spec fn members_are_named(rest: Seq<Seq<char>>, members: Seq<(Seq<u8>, Tree)>) -> bool {
    forall|k: int| 0 <= k < members.len() ==> member_is_named(rest, #[trigger] members[k])
}

/// What holds of members holds of the first and of those behind it.
proof fn lemma_first_member(
    kind: OpKind,
    rest: Seq<Seq<char>>,
    m: (Seq<u8>, Tree),
    more: Seq<(Seq<u8>, Tree)>,
    depth: int,
)
    ensures
        members_have_room(kind, rest, seq![m] + more) ==> member_has_room(kind, rest, m)
            && members_have_room(kind, rest, more),
        members_are_named(rest, seq![m] + more) <==> member_is_named(rest, m) && members_are_named(
            rest,
            more,
        ),
        members_fit(seq![m] + more, depth) <==> fits(m.1, depth) && members_fit(more, depth),
{
    let all = seq![m] + more;
    assert(all[0] == m);
    assert forall|k: int| 0 <= k < more.len() implies #[trigger] more[k] == all[k + 1] by {}
    if members_have_room(kind, rest, all) {
        assert forall|k: int| 0 <= k < more.len() implies member_has_room(kind, rest, #[trigger] more[k]) by {
            assert(more[k] == all[k + 1]);
        }
    }
    if members_are_named(rest, all) {
        assert forall|k: int| 0 <= k < more.len() implies member_is_named(rest, #[trigger] more[k]) by {
            assert(more[k] == all[k + 1]);
        }
    }
    if member_is_named(rest, m) && members_are_named(rest, more) {
        assert forall|k: int| 0 <= k < all.len() implies member_is_named(rest, #[trigger] all[k]) by {
            if k > 0 {
                assert(all[k] == more[k - 1]);
            }
        }
    }
    if members_fit(all, depth) {
        assert forall|k: int| 0 <= k < more.len() implies fits((#[trigger] more[k]).1, depth) by {
            assert(more[k] == all[k + 1]);
        }
    }
    if fits(m.1, depth) && members_fit(more, depth) {
        assert forall|k: int| 0 <= k < all.len() implies fits((#[trigger] all[k]).1, depth) by {
            if k > 0 {
                assert(all[k] == more[k - 1]);
            }
        }
    }
}

spec fn elements_have_room(kind: OpKind, rest: Seq<Seq<char>>, from: int, elements: Seq<Tree>) -> bool {
    forall|k: int|
        0 <= k < elements.len() ==> element_has_room(kind, rest, from + k, #[trigger] elements[k])
}

spec fn elements_are_named(rest: Seq<Seq<char>>, from: int, elements: Seq<Tree>) -> bool {
    forall|k: int| 0 <= k < elements.len() ==> element_is_named(rest, from + k, #[trigger] elements[k])
}

/// What holds of elements holds of the first and of those behind it.
proof fn lemma_first_element(
    kind: OpKind,
    rest: Seq<Seq<char>>,
    from: int,
    x: Tree,
    more: Seq<Tree>,
    depth: int,
)
    ensures
        elements_have_room(kind, rest, from, seq![x] + more) ==> element_has_room(kind, rest, from, x)
            && elements_have_room(kind, rest, from + 1, more),
        elements_are_named(rest, from, seq![x] + more) <==> element_is_named(rest, from, x)
            && elements_are_named(rest, from + 1, more),
        elements_fit(seq![x] + more, depth) <==> fits(x, depth) && elements_fit(more, depth),
{
    let all = seq![x] + more;
    assert(all[0] == x);
    if elements_have_room(kind, rest, from, all) {
        assert forall|k: int| 0 <= k < more.len() implies element_has_room(
            kind,
            rest,
            from + 1 + k,
            #[trigger] more[k],
        ) by {
            assert(more[k] == all[k + 1]);
        }
    }
    if elements_are_named(rest, from, all) {
        assert forall|k: int| 0 <= k < more.len() implies element_is_named(
            rest,
            from + 1 + k,
            #[trigger] more[k],
        ) by {
            assert(more[k] == all[k + 1]);
        }
    }
    if element_is_named(rest, from, x) && elements_are_named(rest, from + 1, more) {
        assert forall|k: int| 0 <= k < all.len() implies element_is_named(rest, from + k, #[trigger] all[k]) by {
            if k > 0 {
                assert(all[k] == more[k - 1]);
            }
        }
    }
    if elements_fit(all, depth) {
        assert forall|k: int| 0 <= k < more.len() implies fits(#[trigger] more[k], depth) by {
            assert(more[k] == all[k + 1]);
        }
    }
    if fits(x, depth) && elements_fit(more, depth) {
        assert forall|k: int| 0 <= k < all.len() implies fits(#[trigger] all[k], depth) by {
            if k > 0 {
                assert(all[k] == more[k - 1]);
            }
        }
    }
}

/// A pass gets through values alone, and to their ends.
pub proof fn law_only_json_is_walked(
    env: Env,
    s: Seq<u8>,
    i: int,
    place: Seq<Seq<char>>,
    depth: int,
    w: Walk,
)
    ensures
        walk_value(env, s, i, place, depth, w) matches Ok((e, _)) ==> value_end(s, i, depth) == Ok::<
            int,
            RewriteError,
        >(e),
    decreases s.len() - i, 0int,
{
    let k = ws_end(s, i);
    lemma_ws_end(s, i);
    lemma_ws_stays(s, i);
    if touches(env.ops, place) && byte_at(s, k) == Some(0x7Bu8) {
        lemma_members_are_walked(
            env,
            s,
            k + 1,
            place,
            depth + 1,
            true,
            false,
            Seq::empty(),
            put(env, w, seq![0x7Bu8]),
        );
    } else if touches(env.ops, place) && byte_at(s, k) == Some(0x5Bu8) {
        lemma_elements_are_walked(env, s, k + 1, place, depth + 1, 0, false, put(env, w, seq![0x5Bu8]));
    } else {
        assert(value_end(s, k, depth) == value_end(s, i, depth));
    }
}

proof fn lemma_members_are_walked(
    env: Env,
    s: Seq<u8>,
    i: int,
    place: Seq<Seq<char>>,
    depth: int,
    first: bool,
    emitted: bool,
    satisfied: Seq<Seq<char>>,
    w: Walk,
)
    ensures
        walk_members(env, s, i, place, depth, first, emitted, satisfied, w) matches Ok((e, _))
            ==> members_end(s, i, depth, first) == Ok::<int, RewriteError>(e),
    decreases s.len() - i, 2int,
{
    lemma_next_item(s, i, first, 0x7D);
    if let Next::Item(q) = next_item(s, i, first, 0x7D) {
        lemma_string_end(s, q);
        if let Some(e) = string_end(s, q) {
            lemma_ws_end(s, e);
            if let (Some(key), Some(c)) = (key_text(s.subrange(q, e)), colon_end(s, e)) {
                let below = place.push(key);
                if mutate_op(env.ops, below) is None && touches(env.ops, below) {
                    let n = put(env, w, comma(emitted) + (s.subrange(q, e) + seq![0x3Au8]));
                    law_only_json_is_walked(env, s, c, below, depth, n);
                }
                if let Ok((v, now, kept, n)) = walk_member(
                    env,
                    s,
                    q,
                    e,
                    c,
                    key,
                    place,
                    depth,
                    emitted,
                    satisfied,
                    w,
                ) {
                    assert(value_end(s, c, depth) == Ok::<int, RewriteError>(v));
                    if c < v <= s.len() {
                        lemma_members_are_walked(env, s, v, place, depth, false, now, kept, n);
                    }
                }
            }
        }
    }
}

proof fn lemma_elements_are_walked(
    env: Env,
    s: Seq<u8>,
    i: int,
    place: Seq<Seq<char>>,
    depth: int,
    idx: int,
    emitted: bool,
    w: Walk,
)
    requires
        0 <= idx,
    ensures
        walk_elements(env, s, i, place, depth, idx, emitted, w) matches Ok((e, _)) ==> elements_end(
            s,
            i,
            depth,
            idx == 0,
        ) == Ok::<int, RewriteError>(e),
    decreases s.len() - i, 2int,
{
    lemma_next_item(s, i, idx == 0, 0x5D);
    if let Next::Item(q) = next_item(s, i, idx == 0, 0x5D) {
        let below = place.push(decimal(idx as nat));
        let (e1, w1) = added_before(env, place, decimal(idx as nat), emitted, w);
        law_only_json_is_walked(env, s, q, below, depth, put(env, w1, comma(e1)));
        if let Ok((v, now, n)) = walk_element(env, s, q, below, depth, e1, w1) {
            assert(value_end(s, q, depth) == Ok::<int, RewriteError>(v));
            if q < v <= s.len() {
                lemma_elements_are_walked(env, s, v, place, depth, idx + 1, now, n);
            }
        }
    }
}

spec fn tree_at(s: Seq<u8>, i: int) -> Tree {
    (tree_value(s, i)->0).1
}

spec fn members_at(s: Seq<u8>, i: int, first: bool) -> Seq<(Seq<u8>, Tree)> {
    (tree_members(s, i, first)->0).1
}

spec fn elements_at(s: Seq<u8>, i: int, first: bool) -> Seq<Tree> {
    (tree_elements(s, i, first)->0).1
}

/// What a pass with one operation makes of a value.
#[verifier::rlimit(60)]
#[verifier::spinoff_prover]
proof fn lemma_walked_value(
    env: Env,
    op: Op,
    s: Seq<u8>,
    i: int,
    place: Seq<Seq<char>>,
    depth: int,
    w: Walk,
) -> (t: Seq<u8>)
    requires
        on_path(env, op, place, w),
        0 <= i <= s.len(),
        value_end(s, i, depth) is Ok,
        has_room(op.kind, left(op, place), tree_at(s, i)),
    ensures
        ({
            let walked = walk_value(env, s, i, place, depth, w);
            &&& walked is Ok <==> is_named(left(op, place), tree_at(s, i))
            &&& walked matches Ok((e, n)) ==> {
                &&& value_end(s, i, depth) == Ok::<int, RewriteError>(e)
                &&& tree_of(t) == applied(op, left(op, place), tree_at(s, i))
                &&& is_value(t)
                &&& n.resolved == w.resolved
                &&& n.out == w.out + t
            }
        }),
    decreases s.len() - i, 0int,
{
    let k = ws_end(s, i);
    let rest = left(op, place);
    lemma_ws_end(s, i);
    lemma_ws_stays(s, i);
    lemma_alone(op, place);
    lemma_below(op, place, op.tokens[0]);
    lemma_value_tree(s, i, depth);
    if byte_at(s, k) == Some(0x7Bu8) {
        let none = Seq::<(Seq<u8>, Seq<u8>)>::empty();
        let opened = put(env, w, seq![0x7Bu8]);
        let before = Seq::<(Seq<u8>, Tree)>::empty();
        assert(member_texts(none) =~= Seq::<Seq<u8>>::empty());
        assert(opened.out =~= w.out + seq![0x7Bu8] + run(member_texts(none), true));
        assert(member_trees(none) =~= applied_members(op, rest, before));
        assert(before + members_at(s, k + 1, true) =~= members_at(s, k + 1, true));
        lemma_walked_members(
            env,
            op,
            s,
            k + 1,
            place,
            depth + 1,
            true,
            false,
            opened,
            w.out,
            none,
            before,
        )
    } else if byte_at(s, k) == Some(0x5Bu8) {
        let none = Seq::<Seq<u8>>::empty();
        let opened = put(env, w, seq![0x5Bu8]);
        let before = Seq::<Tree>::empty();
        let elements = elements_at(s, k + 1, true);
        assert(opened.out =~= w.out + seq![0x5Bu8] + run(none, true));
        assert(element_trees(none) =~= applied_elements(op, rest, before));
        assert(before + elements =~= elements);
        assert(tree_at(s, i) == Tree::Array(elements));
        lemma_from_start(op.kind, rest, tree_at(s, i));
        lemma_walked_elements(
            env,
            op,
            s,
            k + 1,
            place,
            depth + 1,
            false,
            opened,
            w.out,
            none,
            before,
        )
    } else {
        assert(tree_value(s, k) == tree_value(s, i));
        lemma_copied_tree(env, s, k, depth, w)
    }
}

proof fn lemma_from_start(kind: OpKind, rest: Seq<Seq<char>>, tree: Tree)
    requires
        rest.len() > 0,
        tree is Array,
    ensures
        has_room(kind, rest, tree) ==> elements_have_room(kind, rest, 0, tree->Array_0),
        is_named(rest, tree) <==> elements_are_named(rest, 0, tree->Array_0),
{
    let elements = tree->Array_0;
    if has_room(kind, rest, tree) {
        assert(forall|k: int|
                0 <= k < elements.len() ==> element_has_room(kind, rest, k, #[trigger] elements[k]));
        assert(forall|k: int|
                0 <= k < elements.len() ==> element_has_room(kind, rest, 0 + k, #[trigger] elements[k]));
    }
    if is_named(rest, tree) {
        assert(forall|k: int|
                0 <= k < elements.len() ==> element_is_named(rest, k, #[trigger] elements[k]));
    }
}

/// What a pass with one operation makes of an object.
#[verifier::rlimit(60)]
#[verifier::spinoff_prover]
proof fn lemma_walked_members(
    env: Env,
    op: Op,
    s: Seq<u8>,
    i: int,
    place: Seq<Seq<char>>,
    depth: int,
    first: bool,
    emitted: bool,
    w: Walk,
    base: Seq<u8>,
    items: Seq<(Seq<u8>, Seq<u8>)>,
    before: Seq<(Seq<u8>, Tree)>,
) -> (t: Seq<u8>)
    requires
        on_path(env, op, place, w),
        0 <= i <= s.len(),
        members_end(s, i, depth, first) is Ok,
        members_have_room(op.kind, left(op, place), members_at(s, i, first)),
        inside(base, 0x7B, member_texts(items), emitted, w),
        all_members(items),
        member_trees(items) == applied_members(op, left(op, place), before),
    ensures
        ({
            let walked = walk_members(env, s, i, place, depth, first, emitted, Seq::empty(), w);
            let rest = left(op, place);
            let members = members_at(s, i, first);
            &&& walked is Ok <==> members_are_named(rest, members)
            &&& walked matches Ok((e, n)) ==> {
                &&& members_end(s, i, depth, first) == Ok::<int, RewriteError>(e)
                &&& tree_of(t) == Tree::Object(
                    applied_members(op, rest, before + members) + new_members(op, rest),
                )
                &&& is_value(t)
                &&& n.resolved == w.resolved
                &&& n.out == base + t
            }
        }),
    decreases s.len() - i, 2int,
{
    let rest = left(op, place);
    let members = members_at(s, i, first);
    lemma_next_item(s, i, first, 0x7D);
    lemma_members_tree(s, i, depth, first);
    match next_item(s, i, first, 0x7D) {
        Next::Item(q) => {
            lemma_string_end(s, q);
            let e = string_end(s, q)->0;
            lemma_ws_end(s, e);
            let c = colon_end(s, e)->0;
            let v = value_end(s, c, depth)->Ok_0;
            lemma_value_tree(s, c, depth);
            lemma_members_tree(s, v, depth, false);
            let m = (s.subrange(q, e), tree_at(s, c));
            let behind = members_at(s, v, false);
            assert(members == seq![m] + behind);
            lemma_first_member(op.kind, rest, m, behind, depth);
            if key_text(m.0) is None {
                Seq::empty()
            } else {
                let key = key_text(m.0)->0;
                let more = lemma_walked_member(
                    env,
                    op,
                    s,
                    q,
                    e,
                    c,
                    key,
                    place,
                    depth,
                    emitted,
                    w,
                    base,
                    items,
                    before,
                );
                match walk_member(env, s, q, e, c, key, place, depth, emitted, Seq::empty(), w) {
                    Ok((_, now, _, n)) => {
                        assert(before.push(m) + behind =~= before + members);
                        lemma_walked_members(
                            env,
                            op,
                            s,
                            v,
                            place,
                            depth,
                            false,
                            now,
                            n,
                            base,
                            more,
                            before.push(m),
                        )
                    },
                    Err(_) => Seq::empty(),
                }
            }
        },
        _ => {
            assert(before + members =~= before);
            lemma_closed_object(env, op, place, emitted, w, base, items, before)
        },
    }
}

/// The end of an object.
#[verifier::rlimit(60)]
#[verifier::spinoff_prover]
proof fn lemma_closed_object(
    env: Env,
    op: Op,
    place: Seq<Seq<char>>,
    emitted: bool,
    w: Walk,
    base: Seq<u8>,
    items: Seq<(Seq<u8>, Seq<u8>)>,
    before: Seq<(Seq<u8>, Tree)>,
) -> (t: Seq<u8>)
    requires
        on_path(env, op, place, w),
        inside(base, 0x7B, member_texts(items), emitted, w),
        all_members(items),
        member_trees(items) == applied_members(op, left(op, place), before),
    ensures
        ({
            let n = put(env, added_members(env, place, Seq::empty(), 0, emitted, w), seq![0x7Du8]);
            &&& tree_of(t) == Tree::Object(
                applied_members(op, left(op, place), before) + new_members(op, left(op, place)),
            )
            &&& is_value(t)
            &&& n.resolved == w.resolved
            &&& n.out == base + t
        }),
{
    let rest = left(op, place);
    lemma_below(op, place, op.tokens[0]);
    reveal_with_fuel(added_members, 2);
    let n = added_members(env, place, Seq::empty(), 0, emitted, w);
    let more = if op.kind == OpKind::Add && rest.len() == 1 {
        let key = op.encoded->0;
        let value = op.payload->0;
        assert(env.ops[0] == op);
        assert(w.resolved[0] == op.payload);
        assert(w.resolved.update(0, Some(value)) =~= w.resolved);
        assert(n.out == w.out + (comma(emitted) + (key + seq![0x3Au8]) + value));
        lemma_scalar_is_value(value);
        lemma_member_item(base, items, emitted, w, key, value, n);
        assert(member_trees(items.push((key, value))) =~= member_trees(items).push(
            (key, tree_of(value)),
        ));
        assert(member_trees(items).push((key, tree_of(value))) =~= member_trees(items) + new_members(
            op,
            rest,
        ));
        items.push((key, value))
    } else {
        assert(env.ops[0] == op);
        assert(n == w);
        assert(member_trees(items) =~= member_trees(items) + new_members(op, rest));
        items
    };
    lemma_object_tree(more);
    let t = object_text(more);
    assert(base + seq![0x7Bu8] + run(member_texts(more), true) + seq![0x7Du8] =~= base + t);
    t
}

proof fn lemma_scalar_is_value(t: Seq<u8>)
    requires
        scalar_end(t, 0) == Some(t.len() as int),
    ensures
        is_value(t),
        tree_of(t) is Scalar,
{
    assert(ws_end(t, 0) == 0);
    assert(value_end(t, 0, 0) == Ok::<int, RewriteError>(t.len() as int));
}

/// What a pass with one operation makes of a member.
#[verifier::rlimit(60)]
#[verifier::spinoff_prover]
proof fn lemma_walked_member(
    env: Env,
    op: Op,
    s: Seq<u8>,
    q: int,
    e: int,
    c: int,
    key: Seq<char>,
    place: Seq<Seq<char>>,
    depth: int,
    emitted: bool,
    w: Walk,
    base: Seq<u8>,
    items: Seq<(Seq<u8>, Seq<u8>)>,
    before: Seq<(Seq<u8>, Tree)>,
) -> (more: Seq<(Seq<u8>, Seq<u8>)>)
    requires
        on_path(env, op, place, w),
        0 <= c <= s.len(),
        string_end(s, q) == Some(e),
        key_text(s.subrange(q, e)) == Some(key),
        value_end(s, c, depth) is Ok,
        member_has_room(op.kind, left(op, place), (s.subrange(q, e), tree_at(s, c))),
        inside(base, 0x7B, member_texts(items), emitted, w),
        all_members(items),
        member_trees(items) == applied_members(op, left(op, place), before),
    ensures
        ({
            let walked = walk_member(env, s, q, e, c, key, place, depth, emitted, Seq::empty(), w);
            let rest = left(op, place);
            let m = (s.subrange(q, e), tree_at(s, c));
            &&& walked is Ok <==> member_is_named(rest, m)
            &&& walked matches Ok((v, now, kept, n)) ==> {
                &&& value_end(s, c, depth) == Ok::<int, RewriteError>(v)
                &&& kept == Seq::<Seq<char>>::empty()
                &&& inside(base, 0x7B, member_texts(more), now, n)
                &&& all_members(more)
                &&& member_trees(more) == applied_members(op, rest, before.push(m))
                &&& n.resolved == w.resolved
            }
        }),
    decreases s.len() - c, 1int,
{
    let rest = left(op, place);
    let below = place.push(key);
    let name = s.subrange(q, e);
    let prefix = name + seq![0x3Au8];
    let tree = tree_at(s, c);
    let m = (name, tree);
    let walked = walk_member(env, s, q, e, c, key, place, depth, emitted, Seq::empty(), w);
    lemma_alone(op, below);
    lemma_below(op, place, key);
    lemma_span_is_string(s, q);
    lemma_value_tree(s, c, depth);
    assert(before.push(m).drop_last() =~= before);
    assert(applied_members(op, rest, before.push(m)) == applied_members(op, rest, before)
        + applied_member(op, rest, m));
    assert(env.ops[0] == op);
    if op.tokens == below {
        assert(applied_members(op, rest, before.push(m)) =~= member_trees(items));
        assert(is_named(rest.skip(1), tree));
        items
    } else {
        let n = put(env, w, comma(emitted) + prefix);
        let t = if key == rest[0] {
            lemma_walked_value(env, op, s, c, below, depth, n)
        } else {
            lemma_copied_tree(env, s, c, depth, n)
        };
        let more = items.push((name, t));
        if walked is Ok {
            assert(w.out + (comma(emitted) + prefix) + t =~= w.out + (comma(emitted) + prefix + t));
            lemma_member_item(base, items, emitted, w, name, t, walked->Ok_0.3);
            assert(member_trees(more) =~= member_trees(items).push((name, tree_of(t))));
            assert(member_trees(more) =~= member_trees(items) + seq![(name, tree_of(t))]);
        }
        more
    }
}

/// What a pass with one operation makes of an array.
#[verifier::rlimit(60)]
#[verifier::spinoff_prover]
proof fn lemma_walked_elements(
    env: Env,
    op: Op,
    s: Seq<u8>,
    i: int,
    place: Seq<Seq<char>>,
    depth: int,
    emitted: bool,
    w: Walk,
    base: Seq<u8>,
    items: Seq<Seq<u8>>,
    before: Seq<Tree>,
) -> (t: Seq<u8>)
    requires
        on_path(env, op, place, w),
        left(op, place).len() > 1,
        0 <= i <= s.len(),
        elements_end(s, i, depth, before.len() == 0) is Ok,
        elements_have_room(
            op.kind,
            left(op, place),
            before.len() as int,
            elements_at(s, i, before.len() == 0),
        ),
        inside(base, 0x5B, items, emitted, w),
        all_values(items),
        element_trees(items) == applied_elements(op, left(op, place), before),
    ensures
        ({
            let idx = before.len() as int;
            let walked = walk_elements(env, s, i, place, depth, idx, emitted, w);
            let rest = left(op, place);
            let elements = elements_at(s, i, idx == 0);
            &&& walked is Ok <==> elements_are_named(rest, idx, elements)
            &&& walked matches Ok((e, n)) ==> {
                &&& elements_end(s, i, depth, idx == 0) == Ok::<int, RewriteError>(e)
                &&& tree_of(t) == Tree::Array(applied_elements(op, rest, before + elements))
                &&& is_value(t)
                &&& n.resolved == w.resolved
                &&& n.out == base + t
            }
        }),
    decreases s.len() - i, 2int,
{
    let rest = left(op, place);
    let idx = before.len() as int;
    let token = decimal(idx as nat);
    let below = place.push(token);
    let elements = elements_at(s, i, idx == 0);
    lemma_next_item(s, i, idx == 0, 0x5D);
    lemma_elements_tree(s, i, depth, idx == 0);
    lemma_alone(op, below);
    lemma_alone(op, place);
    lemma_below(op, place, token);
    assert(added_before(env, place, token, emitted, w) == (emitted, w));
    match next_item(s, i, idx == 0, 0x5D) {
        Next::Item(q) => {
            let v = value_end(s, q, depth)->Ok_0;
            lemma_value_tree(s, q, depth);
            lemma_elements_tree(s, v, depth, false);
            let x = tree_at(s, q);
            let behind = elements_at(s, v, false);
            assert(elements == seq![x] + behind);
            lemma_first_element(op.kind, rest, idx, x, behind, depth);
            let more = lemma_walked_element(env, op, s, q, place, depth, emitted, w, base, items, before);
            match walk_element(env, s, q, below, depth, emitted, w) {
                Ok((_, now, n)) => {
                    assert(before.push(x) + behind =~= before + elements);
                    lemma_walked_elements(
                        env,
                        op,
                        s,
                        v,
                        place,
                        depth,
                        now,
                        n,
                        base,
                        more,
                        before.push(x),
                    )
                },
                Err(_) => Seq::empty(),
            }
        },
        _ => {
            assert(before + elements =~= before);
            assert(added_behind(env, place, emitted, w) == (emitted, w));
            lemma_array_tree(items);
            let t = array_text(items);
            assert(base + seq![0x5Bu8] + run(items, true) + seq![0x5Du8] =~= base + t);
            t
        },
    }
}

/// What a pass with one operation makes of an element.
#[verifier::rlimit(60)]
#[verifier::spinoff_prover]
proof fn lemma_walked_element(
    env: Env,
    op: Op,
    s: Seq<u8>,
    q: int,
    place: Seq<Seq<char>>,
    depth: int,
    emitted: bool,
    w: Walk,
    base: Seq<u8>,
    items: Seq<Seq<u8>>,
    before: Seq<Tree>,
) -> (more: Seq<Seq<u8>>)
    requires
        on_path(env, op, place, w),
        left(op, place).len() > 1,
        0 <= q <= s.len(),
        value_end(s, q, depth) is Ok,
        element_has_room(op.kind, left(op, place), before.len() as int, tree_at(s, q)),
        inside(base, 0x5B, items, emitted, w),
        all_values(items),
        element_trees(items) == applied_elements(op, left(op, place), before),
    ensures
        ({
            let below = place.push(decimal(before.len()));
            let walked = walk_element(env, s, q, below, depth, emitted, w);
            let rest = left(op, place);
            &&& walked is Ok <==> element_is_named(rest, before.len() as int, tree_at(s, q))
            &&& walked matches Ok((v, now, n)) ==> {
                &&& value_end(s, q, depth) == Ok::<int, RewriteError>(v)
                &&& inside(base, 0x5B, more, now, n)
                &&& all_values(more)
                &&& element_trees(more) == applied_elements(op, rest, before.push(tree_at(s, q)))
                &&& n.resolved == w.resolved
            }
        }),
    decreases s.len() - q, 1int,
{
    let rest = left(op, place);
    let token = decimal(before.len());
    let below = place.push(token);
    let x = tree_at(s, q);
    let walked = walk_element(env, s, q, below, depth, emitted, w);
    lemma_alone(op, below);
    lemma_below(op, place, token);
    lemma_value_tree(s, q, depth);
    let n = put(env, w, comma(emitted));
    let t = if token == rest[0] {
        lemma_walked_value(env, op, s, q, below, depth, n)
    } else {
        lemma_copied_tree(env, s, q, depth, n)
    };
    let more = items.push(t);
    if walked is Ok {
        assert(w.out + comma(emitted) + t =~= w.out + (comma(emitted) + t));
        lemma_item(base, 0x5B, items, emitted, w, t, walked->Ok_0.2);
        assert forall|k: int| 0 <= k < more.len() implies is_value(#[trigger] more[k]) by {
            if k < items.len() {
                assert(more[k] == items[k]);
            }
        }
        assert(before.push(x).drop_last() =~= before);
        assert(before.push(x).last() == x);
        assert(tree_of(t) == applied_element(op, rest, before.len() as int, x));
        assert(applied_elements(op, rest, before.push(x)) == applied_elements(op, rest, before).push(
            tree_of(t),
        ));
        assert(element_trees(more) =~= element_trees(items).push(tree_of(t)));
    }
    more
}

/// Members that a pointer only leads through stay, one by one.
proof fn lemma_members_through(op: Op, rest: Seq<Seq<char>>, members: Seq<(Seq<u8>, Tree)>)
    requires
        rest.len() > 1,
    ensures
        applied_members(op, rest, members).len() == members.len(),
        forall|k: int|
            0 <= k < members.len() ==> seq![#[trigger] applied_members(op, rest, members)[k]]
                == applied_member(op, rest, members[k]),
    decreases members.len(),
{
    if members.len() > 0 {
        let front = members.drop_last();
        lemma_members_through(op, rest, front);
        let all = applied_members(op, rest, members);
        assert forall|k: int| 0 <= k < members.len() implies seq![#[trigger] all[k]] == applied_member(
            op,
            rest,
            members[k],
        ) by {
            if k < front.len() {
                assert(all[k] == applied_members(op, rest, front)[k]);
                assert(front[k] == members[k]);
            } else {
                assert(seq![all[k]] =~= applied_member(op, rest, members.last()));
            }
        }
    }
}

proof fn lemma_elements_through(op: Op, rest: Seq<Seq<char>>, elements: Seq<Tree>)
    ensures
        applied_elements(op, rest, elements).len() == elements.len(),
        forall|k: int|
            0 <= k < elements.len() ==> #[trigger] applied_elements(op, rest, elements)[k]
                == applied_element(op, rest, k, elements[k]),
    decreases elements.len(),
{
    if elements.len() > 0 {
        let front = elements.drop_last();
        lemma_elements_through(op, rest, front);
        let all = applied_elements(op, rest, elements);
        assert forall|k: int| 0 <= k < elements.len() implies #[trigger] all[k] == applied_element(
            op,
            rest,
            k,
            elements[k],
        ) by {
            if k < front.len() {
                assert(all[k] == applied_elements(op, rest, front)[k]);
                assert(front[k] == elements[k]);
            }
        }
    }
}

/// Members without the key at the end of a pointer stay as they are.
proof fn lemma_members_stay(op: Op, rest: Seq<Seq<char>>, members: Seq<(Seq<u8>, Tree)>)
    requires
        rest.len() == 1,
        members_have_room(OpKind::Add, rest, members),
    ensures
        applied_members(op, rest, members) == members,
    decreases members.len(),
{
    if members.len() > 0 {
        let front = members.drop_last();
        assert forall|k: int| 0 <= k < front.len() implies member_has_room(
            OpKind::Add,
            rest,
            #[trigger] front[k],
        ) by {
            assert(front[k] == members[k]);
        }
        lemma_members_stay(op, rest, front);
        let m = members[members.len() - 1];
        assert(member_has_room(OpKind::Add, rest, m));
        assert(key_text(m.0) != Some(rest[0]));
        assert(applied_member(op, rest, m) == seq![m]);
        assert(members =~= front + seq![members.last()]);
    } else {
        assert(members =~= Seq::empty());
    }
}

/// Whether what `add` makes of `tree` is such that `remove` gives back `tree`.
spec fn is_undone(add: Op, remove: Op, rest: Seq<Seq<char>>, tree: Tree, depth: int) -> bool {
    let made = applied(add, rest, tree);
    &&& applied(remove, rest, made) == tree
    &&& has_room(OpKind::Remove, rest, made)
    &&& is_named(rest, made)
    &&& fits(made, depth)
}

proof fn lemma_undone(add: Op, remove: Op, rest: Seq<Seq<char>>, tree: Tree, depth: int)
    requires
        is_plain(add),
        add.kind == OpKind::Add,
        remove.kind == OpKind::Remove,
        0 < rest.len(),
        rest.last() == add.tokens.last(),
        has_room(OpKind::Add, rest, tree),
        is_named(rest, tree),
        fits(tree, depth),
    ensures
        is_undone(add, remove, rest, tree, depth),
    decreases rest.len(), 1int,
{
    match tree {
        Tree::Scalar(_) => {},
        Tree::Object(members) => {
            assert(members_have_room(OpKind::Add, rest, members));
            assert(members_are_named(rest, members));
            assert(members_fit(members, depth + 1));
            if rest.len() == 1 {
                lemma_member_undone(add, remove, rest, members, depth);
            } else {
                lemma_object_undone(add, remove, rest, members, depth);
            }
        },
        Tree::Array(elements) => {
            lemma_from_start(OpKind::Add, rest, tree);
            lemma_array_undone(add, remove, rest, tree, depth);
        },
    }
}

/// The object that gets the member.
proof fn lemma_member_undone(
    add: Op,
    remove: Op,
    rest: Seq<Seq<char>>,
    members: Seq<(Seq<u8>, Tree)>,
    depth: int,
)
    requires
        is_plain(add),
        add.kind == OpKind::Add,
        remove.kind == OpKind::Remove,
        rest.len() == 1,
        rest.last() == add.tokens.last(),
        members_have_room(OpKind::Add, rest, members),
        members_are_named(rest, members),
        members_fit(members, depth + 1),
        depth + 1 <= MAX_JSON_DEPTH,
    ensures
        is_undone(add, remove, rest, Tree::Object(members), depth),
{
    let tree = Tree::Object(members);
    let made = applied(add, rest, tree);
    let m = (add.encoded->0, tree_of(add.payload->0));
    let all = members.push(m);
    lemma_members_stay(add, rest, members);
    lemma_members_stay(remove, rest, members);
    assert(members + new_members(add, rest) =~= all);
    assert(made == Tree::Object(all));
    assert(all.drop_last() =~= members);
    assert(key_text(m.0) == Some(rest[0]));
    assert(applied_member(remove, rest, m) == Seq::<(Seq<u8>, Tree)>::empty());
    assert(applied_members(remove, rest, all) =~= members);
    assert(members + new_members(remove, rest) =~= members);
    lemma_scalar_is_value(add.payload->0);
    assert forall|k: int| 0 <= k < all.len() implies member_has_room(
        OpKind::Remove,
        rest,
        #[trigger] all[k],
    ) && member_is_named(rest, all[k]) && fits(all[k].1, depth + 1) by {
        if k < members.len() {
            assert(all[k] == members[k]);
        }
    }
}

/// An object that the pointer leads through.
proof fn lemma_object_undone(
    add: Op,
    remove: Op,
    rest: Seq<Seq<char>>,
    members: Seq<(Seq<u8>, Tree)>,
    depth: int,
)
    requires
        is_plain(add),
        add.kind == OpKind::Add,
        remove.kind == OpKind::Remove,
        rest.len() > 1,
        rest.last() == add.tokens.last(),
        members_have_room(OpKind::Add, rest, members),
        members_are_named(rest, members),
        members_fit(members, depth + 1),
        depth + 1 <= MAX_JSON_DEPTH,
    ensures
        is_undone(add, remove, rest, Tree::Object(members), depth),
    decreases rest.len(), 0int,
{
    let tree = Tree::Object(members);
    let all = applied_members(add, rest, members);
    let back = applied_members(remove, rest, all);
    lemma_members_through(add, rest, members);
    lemma_members_through(remove, rest, all);
    assert(all + new_members(add, rest) =~= all);
    assert(back + new_members(remove, rest) =~= back);
    assert(applied(add, rest, tree) == Tree::Object(all));
    assert forall|k: int| 0 <= k < all.len() implies member_has_room(
        OpKind::Remove,
        rest,
        #[trigger] all[k],
    ) && member_is_named(rest, all[k]) && fits(all[k].1, depth + 1) && back[k] == members[k] by {
        let m = members[k];
        assert(member_has_room(OpKind::Add, rest, m));
        assert(member_is_named(rest, m));
        assert(fits(m.1, depth + 1));
        assert(seq![all[k]] == applied_member(add, rest, m));
        assert(seq![back[k]] == applied_member(remove, rest, all[k]));
        assert(seq![all[k]][0] == all[k]);
        assert(seq![back[k]][0] == back[k]);
        if key_text(m.0) == Some(rest[0]) {
            assert(rest.skip(1).last() == rest.last());
            lemma_undone(add, remove, rest.skip(1), m.1, depth + 1);
        }
    }
    assert(back =~= members);
}

/// An array that the pointer leads through.
proof fn lemma_array_undone(add: Op, remove: Op, rest: Seq<Seq<char>>, tree: Tree, depth: int)
    requires
        is_plain(add),
        add.kind == OpKind::Add,
        remove.kind == OpKind::Remove,
        rest.len() > 1,
        rest.last() == add.tokens.last(),
        tree is Array,
        elements_have_room(OpKind::Add, rest, 0, tree->Array_0),
        elements_are_named(rest, 0, tree->Array_0),
        fits(tree, depth),
    ensures
        is_undone(add, remove, rest, tree, depth),
    decreases rest.len(), 0int,
{
    let elements = tree->Array_0;
    let all = applied_elements(add, rest, elements);
    let back = applied_elements(remove, rest, all);
    lemma_elements_through(add, rest, elements);
    lemma_elements_through(remove, rest, all);
    assert(applied(add, rest, tree) == Tree::Array(all));
    assert forall|k: int| 0 <= k < all.len() implies element_has_room(
        OpKind::Remove,
        rest,
        k,
        #[trigger] all[k],
    ) && element_is_named(rest, k, all[k]) && fits(all[k], depth + 1) && back[k] == elements[k] by {
        let x = elements[k];
        assert(element_has_room(OpKind::Add, rest, 0 + k, x));
        assert(element_is_named(rest, 0 + k, x));
        assert(fits(x, depth + 1));
        assert(all[k] == applied_element(add, rest, k, x));
        assert(back[k] == applied_element(remove, rest, k, all[k]));
        if decimal(k as nat) == rest[0] {
            assert(rest.skip(1).last() == rest.last());
            lemma_undone(add, remove, rest.skip(1), x, depth + 1);
        }
    }
    assert(back =~= elements);
}

/// A pass with one operation over a document.
proof fn lemma_walked_document(env: Env, op: Op, s: Seq<u8>)
    requires
        env.emit,
        env.ops == seq![op],
        is_plain(op),
        tree_document(s) matches Some(tree) ==> has_room(op.kind, op.tokens, tree),
    ensures
        walk_document(env, s) is Ok <==> (tree_document(s) matches Some(tree) && fits(tree, 0)
            && is_named(op.tokens, tree)),
        walk_document(env, s) matches Ok(w) ==> {
            &&& is_value(w.out)
            &&& tree_document(s) matches Some(tree) && tree_of(w.out) == applied(op, op.tokens, tree)
        },
{
    let w = start(env);
    let none = Seq::<Seq<char>>::empty();
    let i = ws_end(s, bom_len(s));
    lemma_ws_end(s, bom_len(s));
    lemma_ws_stays(s, bom_len(s));
    lemma_alone(op, none);
    assert(w.resolved =~= seq![op.payload]);
    assert(left(op, none) =~= op.tokens);
    assert(op.tokens.subrange(0, 0) =~= none);
    assert(tree_value(s, i) == tree_value(s, bom_len(s)));
    law_only_json_is_walked(env, s, i, none, 0, w);
    lemma_value_tree(s, i, 0);
    if i < s.len() {
        if let Ok(e) = value_end(s, i, 0) {
            if ws_end(s, e) == s.len() {
                let t = lemma_walked_value(env, op, s, i, none, 0, w);
                assert(w.out + t =~= t);
            }
        }
    } else {
        assert(byte_at(s, i) is None);
    }
}

/// A document that is one value is read as that value.
pub proof fn lemma_tree_document(t: Seq<u8>)
    requires
        is_value(t),
    ensures
        tree_document(t) == Some(tree_of(t)),
{
    lemma_tree_of(t);
    assert(scalar_end(t, 0) is Some ==> t[0] != 0xEF);
    if t.len() > 0 && t[0] == 0xEF {
        assert(ws_end(t, 0) == 0);
    }
    assert(bom_len(t) == 0);
    assert(ws_end(t, t.len() as int) == t.len());
}

/// A remove behind an add gives back the document: the same members in the same
/// order, with the same values. The add is of a string, number or literal; every
/// object that its pointer leads to lacks the key that it adds, and it leads to
/// no array that it would add to.
pub proof fn law_remove_undoes_add(adding: Env, removing: Env, add: Op, remove: Op, s: Seq<u8>)
    requires
        adding.emit,
        removing.emit,
        adding.ops == seq![add],
        removing.ops == seq![remove],
        is_plain(add),
        is_plain(remove),
        add.kind == OpKind::Add,
        remove.kind == OpKind::Remove,
        add.tokens == remove.tokens,
        tree_document(s) matches Some(tree) ==> has_room(OpKind::Add, add.tokens, tree),
    ensures
        walk_document(adding, s) matches Ok(added) ==> {
            &&& tree_document(s) is Some
            &&& walk_document(removing, added.out) matches Ok(back) && tree_document(back.out)
                == tree_document(s)
        },
{
    lemma_walked_document(adding, add, s);
    if let Ok(added) = walk_document(adding, s) {
        let tree = tree_document(s)->0;
        lemma_undone(add, remove, add.tokens, tree, 0);
        lemma_tree_document(added.out);
        lemma_walked_document(removing, remove, added.out);
        lemma_tree_document(walk_document(removing, added.out)->Ok_0.out);
    }
}

proof fn lemma_resolved_is_plain(op: ResolvedOp)
    requires
        op.tokens@.len() > 0,
        op.kind == OpKind::Remove || op.kind == OpKind::Add && op.tokens@.last()@ != dash() && (
        op.payload matches Some(b) && scalar_end(b@, 0) == Some(b@.len() as int)) && quotes_key(
            op.model(),
        ),
    ensures
        is_plain(op.model()),
        op.model().tokens == texts(op.tokens@),
{
    let last = op.tokens@.last()@;
    assert(op.model().tokens.last() == last);
}

/// A rewrite that removes what a rewrite has just added gives back the document:
/// the same members in the same order, with the same values. What is added is a
/// string, number or literal at a pointer whose last token is not `-`, under the
/// conditions of the law above on where it leads.
pub proof fn law_rewrite_undoes_add(add: ResolvedOp, remove: ResolvedOp, s: Seq<u8>)
    requires
        add.kind == OpKind::Add,
        add.payload matches Some(b) && scalar_end(b@, 0) == Some(b@.len() as int),
        add.tokens@.len() > 0,
        add.tokens@.last()@ != dash(),
        quotes_key(add.model()),
        remove.kind == OpKind::Remove,
        texts(remove.tokens@) == texts(add.tokens@),
        tree_document(s) matches Some(tree) ==> has_room(OpKind::Add, texts(add.tokens@), tree),
    ensures
        fresh_pass(seq![add.model()], RewriteMode::Rewrite, s) matches Ok(added) ==> {
            &&& tree_document(s) is Some
            &&& fresh_pass(seq![remove.model()], RewriteMode::Rewrite, added.out) matches Ok(back)
                && tree_document(back.out) == tree_document(s)
        },
{
    lemma_resolved_is_plain(add);
    assert(texts(remove.tokens@).len() == remove.tokens@.len());
    lemma_resolved_is_plain(remove);
    law_remove_undoes_add(
        pass_env(seq![add.model()], RewriteMode::Rewrite, Map::empty(), Map::empty()),
        pass_env(seq![remove.model()], RewriteMode::Rewrite, Map::empty(), Map::empty()),
        add.model(),
        remove.model(),
        s,
    );
}

} // verus!
