//! What one operation makes of the elements of an array.

use vstd::prelude::*;

use crate::json_body::error::RewriteError;
use crate::json_body::grammar::{is_value, lemma_span_is_string, lemma_ws_stays, run};
use crate::json_body::ops::{append_op, dash, extract_op, mutate_op, touches, Op, OpKind};
use crate::json_body::output::{all_members, all_values, array_text, inside, lemma_item, lemma_member_item, member_texts, object_text};
use crate::json_body::scan::{bom_len, byte_at, colon_end, elements_end, lemma_next_item, lemma_string_end, lemma_ws_end, members_end, next_item, string_end, value_end, ws_end, Next};
use crate::json_body::tree::{element_trees, lemma_array_tree, lemma_elements_tree, lemma_members_tree, lemma_object_tree, lemma_value_tree, member_trees, tree_document, tree_elements, tree_members, tree_of, tree_value, Tree};
use crate::json_body::undo::{law_only_json_is_walked, lemma_copied_tree, lemma_tree_document};
use crate::json_body::walk::{added_before, added_behind, added_members, comma, inserted, key_text, put, root_replace_op, start, walk_document, walk_element, walk_elements, walk_member, walk_members, walk_value, Env, Walk};
use crate::number::{decimal, is_dec_digit, lemma_decimal_round_trip};

verus! {

/// How the only operation of a pass is found.
pub proof fn lemma_single(op: Op, place: Seq<Seq<char>>)
    requires
        op.kind != OpKind::Extract,
    ensures
        mutate_op(seq![op], place) == (if op.mutates(place) {
            Some(0int)
        } else {
            None
        }),
        append_op(seq![op], place) == (if op.appends_to(place) {
            Some(0int)
        } else {
            None
        }),
        extract_op(seq![op], place) is None,
        touches(seq![op], place) <==> op.reaches(place),
        op.tokens.len() > 0 ==> root_replace_op(seq![op], 0) is None,
{
    let ops = seq![op];
    assert(ops.last() == op);
    assert(ops.drop_last() =~= Seq::<Op>::empty());
    reveal_with_fuel(mutate_op, 2);
    reveal_with_fuel(extract_op, 2);
    reveal_with_fuel(append_op, 2);
    reveal_with_fuel(root_replace_op, 2);
    if op.reaches(place) {
        assert(ops[0].reaches(place));
    }
    if touches(ops, place) {
        let j = choose|j: int| 0 <= j < ops.len() && #[trigger] ops[j].reaches(place);
        assert(ops[j] == op);
    }
}

/// Whether a pass makes one operation, which has a value if it brings one.
pub open spec fn makes_one(env: Env, op: Op, w: Walk) -> bool {
    &&& env.emit
    &&& env.ops == seq![op]
    &&& op.kind != OpKind::Extract
    &&& op.tokens.len() > 0
    &&& op.kind != OpKind::Remove ==> (op.payload matches Some(v) && is_value(v))
    &&& w.resolved == seq![op.payload]
}

/// The members of the value at an operation's own pointer are copied.
#[verifier::rlimit(60)]
#[verifier::spinoff_prover]
proof fn lemma_members_copied(
    env: Env,
    op: Op,
    s: Seq<u8>,
    i: int,
    depth: int,
    first: bool,
    emitted: bool,
    w: Walk,
    base: Seq<u8>,
    items: Seq<(Seq<u8>, Seq<u8>)>,
) -> (t: Seq<u8>)
    requires
        makes_one(env, op, w),
        0 <= i <= s.len(),
        members_end(s, i, depth, first) is Ok,
        inside(base, 0x7B, member_texts(items), emitted, w),
        all_members(items),
    ensures
        walk_members(env, s, i, op.tokens, depth, first, emitted, Seq::empty(), w) matches Ok((e, n)) ==> {
            &&& tree_of(t) == Tree::Object(member_trees(items) + (tree_members(s, i, first)->0).1)
            &&& is_value(t)
            &&& n.resolved == w.resolved
            &&& n.out == base + t
        },
    decreases s.len() - i,
{
    let place = op.tokens;
    let walked = walk_members(env, s, i, place, depth, first, emitted, Seq::empty(), w);
    let members = (tree_members(s, i, first)->0).1;
    lemma_next_item(s, i, first, 0x7D);
    lemma_members_tree(s, i, depth, first);
    match next_item(s, i, first, 0x7D) {
        Next::Item(q) => {
            lemma_string_end(s, q);
            let e = string_end(s, q)->0;
            lemma_ws_end(s, e);
            let c = colon_end(s, e)->0;
            let name = s.subrange(q, e);
            lemma_value_tree(s, c, depth);
            let v = value_end(s, c, depth)->Ok_0;
            lemma_members_tree(s, v, depth, false);
            if key_text(name) is None {
                Seq::empty()
            } else {
                let key = key_text(name)->0;
                let below = place.push(key);
                lemma_single(op, below);
                let prefix = name + seq![0x3Au8];
                let n = put(env, w, comma(emitted) + prefix);
                let t = lemma_copied_tree(env, s, c, depth, n);
                let more = items.push((name, t));
                match walk_member(env, s, q, e, c, key, place, depth, emitted, Seq::empty(), w) {
                    Ok((_, now, kept, m)) => {
                        lemma_span_is_string(s, q);
                        assert(w.out + (comma(emitted) + prefix) + t =~= w.out + (comma(emitted) + prefix + t));
                        lemma_member_item(base, items, emitted, w, name, t, m);
                        let behind = (tree_members(s, v, false)->0).1;
                        assert(members == seq![(name, tree_of(t))] + behind);
                        assert(member_trees(more) + behind =~= member_trees(items) + members);
                        lemma_members_copied(env, op, s, v, depth, false, now, m, base, more)
                    },
                    Err(_) => Seq::empty(),
                }
            }
        },
        _ => {
            lemma_no_additions(env, op, emitted, w);
            lemma_object_tree(items);
            let t = object_text(items);
            assert(base + seq![0x7Bu8] + run(member_texts(items), true) + seq![0x7Du8] =~= base + t);
            assert(member_trees(items) + members =~= member_trees(items));
            t
        },
    }
}

proof fn lemma_no_additions(env: Env, op: Op, emitted: bool, w: Walk)
    requires
        env.ops == seq![op],
        op.tokens.len() > 0,
    ensures
        added_members(env, op.tokens, Seq::empty(), 0, emitted, w) == w,
{
    assert(env.ops[0] == op);
    assert(op.tokens.drop_last() != op.tokens) by {
        assert(op.tokens.drop_last().len() != op.tokens.len());
    }
    reveal_with_fuel(added_members, 2);
}

/// The elements of the value at an operation's own pointer are copied.
#[verifier::rlimit(60)]
#[verifier::spinoff_prover]
proof fn lemma_elements_copied(
    env: Env,
    op: Op,
    s: Seq<u8>,
    i: int,
    depth: int,
    idx: int,
    emitted: bool,
    w: Walk,
    base: Seq<u8>,
    items: Seq<Seq<u8>>,
) -> (t: Seq<u8>)
    requires
        makes_one(env, op, w),
        !op.appends(),
        0 <= idx,
        0 <= i <= s.len(),
        elements_end(s, i, depth, idx == 0) is Ok,
        inside(base, 0x5B, items, emitted, w),
        all_values(items),
    ensures
        walk_elements(env, s, i, op.tokens, depth, idx, emitted, w) matches Ok((e, n)) ==> {
            &&& tree_of(t) == Tree::Array(element_trees(items) + (tree_elements(s, i, idx == 0)->0).1)
            &&& is_value(t)
            &&& n.resolved == w.resolved
            &&& n.out == base + t
        },
    decreases s.len() - i,
{
    let place = op.tokens;
    let token = decimal(idx as nat);
    let below = place.push(token);
    let elements = (tree_elements(s, i, idx == 0)->0).1;
    lemma_next_item(s, i, idx == 0, 0x5D);
    lemma_elements_tree(s, i, depth, idx == 0);
    lemma_single(op, below);
    lemma_single(op, place);
    match next_item(s, i, idx == 0, 0x5D) {
        Next::Item(q) => {
            lemma_value_tree(s, q, depth);
            let v = value_end(s, q, depth)->Ok_0;
            lemma_elements_tree(s, v, depth, false);
            let n = put(env, w, comma(emitted));
            let t = lemma_copied_tree(env, s, q, depth, n);
            let more = items.push(t);
            match walk_element(env, s, q, below, depth, emitted, w) {
                Ok((_, now, m)) => {
                    assert(w.out + comma(emitted) + t =~= w.out + (comma(emitted) + t));
                    lemma_item(base, 0x5B, items, emitted, w, t, m);
                    let behind = (tree_elements(s, v, false)->0).1;
                    assert(elements == seq![tree_of(t)] + behind);
                    assert(element_trees(more) + behind =~= element_trees(items) + elements);
                    lemma_elements_copied(env, op, s, v, depth, idx + 1, now, m, base, more)
                },
                Err(_) => Seq::empty(),
            }
        },
        _ => {
            lemma_array_tree(items);
            let t = array_text(items);
            assert(base + seq![0x5Bu8] + run(items, true) + seq![0x5Du8] =~= base + t);
            assert(element_trees(items) + elements =~= element_trees(items));
            t
        },
    }
}

/// The value at an operation's own pointer is written as it is.
#[verifier::rlimit(60)]
#[verifier::spinoff_prover]
proof fn lemma_value_rewritten(env: Env, op: Op, s: Seq<u8>, i: int, depth: int, w: Walk) -> (t: Seq<u8>)
    requires
        makes_one(env, op, w),
        !op.appends(),
        0 <= i <= s.len(),
        value_end(s, i, depth) is Ok,
    ensures
        walk_value(env, s, i, op.tokens, depth, w) matches Ok((e, n)) ==> {
            &&& value_end(s, i, depth) == Ok::<int, RewriteError>(e)
            &&& tree_value(s, i) == Some((e, tree_of(t)))
            &&& is_value(t)
            &&& n.resolved == w.resolved
            &&& n.out == w.out + t
        },
{
    let place = op.tokens;
    let k = ws_end(s, i);
    lemma_ws_end(s, i);
    lemma_ws_stays(s, i);
    lemma_single(op, place);
    lemma_value_tree(s, i, depth);
    law_only_json_is_walked(env, s, i, place, depth, w);
    if touches(env.ops, place) && byte_at(s, k) == Some(0x7Bu8) {
        let none = Seq::<(Seq<u8>, Seq<u8>)>::empty();
        let opened = put(env, w, seq![0x7Bu8]);
        assert(member_texts(none) =~= Seq::<Seq<u8>>::empty());
        assert(opened.out =~= w.out + seq![0x7Bu8] + run(member_texts(none), true));
        let t = lemma_members_copied(env, op, s, k + 1, depth + 1, true, false, opened, w.out, none);
        assert(member_trees(none) + (tree_members(s, k + 1, true)->0).1 =~= (tree_members(s, k + 1, true)->0).1);
        t
    } else if touches(env.ops, place) && byte_at(s, k) == Some(0x5Bu8) {
        let none = Seq::<Seq<u8>>::empty();
        let opened = put(env, w, seq![0x5Bu8]);
        assert(opened.out =~= w.out + seq![0x5Bu8] + run(none, true));
        let t = lemma_elements_copied(env, op, s, k + 1, depth + 1, 0, false, opened, w.out, none);
        assert(element_trees(none) + (tree_elements(s, k + 1, true)->0).1 =~= (tree_elements(
            s,
            k + 1,
            true,
        )->0).1);
        t
    } else {
        let t = lemma_copied_tree(env, s, k, depth, w);
        assert(tree_value(s, k) == tree_value(s, i));
        t
    }
}

/// What an operation at the token `token` makes of the first elements of an array.
spec fn changed(op: Op, token: Seq<char>, elements: Seq<Tree>) -> Seq<Tree>
    decreases elements.len(),
{
    if elements.len() == 0 {
        Seq::empty()
    } else {
        let x = elements.last();
        let k = elements.len() - 1;
        let v = tree_of(op.payload->0);
        changed(op, token, elements.drop_last()) + (if token != decimal(k as nat) {
            seq![x]
        } else if op.kind == OpKind::Add {
            seq![v, x]
        } else if op.kind == OpKind::Replace {
            seq![v]
        } else {
            Seq::empty()
        })
    }
}

/// What an operation at the token `token` makes of all elements of an array.
spec fn finished(op: Op, token: Seq<char>, elements: Seq<Tree>) -> Seq<Tree> {
    let v = tree_of(op.payload->0);
    changed(op, token, elements) + (if op.kind == OpKind::Add && (token == dash() || token == decimal(
        elements.len(),
    )) {
        seq![v]
    } else {
        Seq::empty()
    })
}

proof fn lemma_not_dash(n: nat)
    ensures
        decimal(n) != dash(),
{
    lemma_decimal_round_trip(n);
    assert(is_dec_digit(decimal(n)[0]));
    assert(dash()[0] == '-');
}

/// The value of an operation is written behind what is there.
proof fn lemma_value_put(env: Env, op: Op, base: Seq<u8>, items: Seq<Seq<u8>>, emitted: bool, w: Walk)
    requires
        makes_one(env, op, w),
        op.kind != OpKind::Remove,
        inside(base, 0x5B, items, emitted, w),
        all_values(items),
    ensures
        ({
            let (now, n) = inserted(env, w, emitted, Seq::empty(), 0);
            let v = op.payload->0;
            &&& inside(base, 0x5B, items.push(v), now, n)
            &&& all_values(items.push(v))
            &&& element_trees(items.push(v)) == element_trees(items).push(tree_of(v))
            &&& n.resolved == w.resolved
        }),
{
    let v = op.payload->0;
    let (now, n) = inserted(env, w, emitted, Seq::empty(), 0);
    assert(env.ops[0] == op);
    assert(w.resolved[0] == op.payload);
    assert(w.resolved.update(0, Some(v)) =~= w.resolved);
    assert(comma(emitted) + Seq::<u8>::empty() + v =~= comma(emitted) + v);
    lemma_item(base, 0x5B, items, emitted, w, v, n);
    lemma_values_push(items, v);
    assert(element_trees(items.push(v)) =~= element_trees(items).push(tree_of(v)));
}

proof fn lemma_values_push(items: Seq<Seq<u8>>, v: Seq<u8>)
    requires
        all_values(items),
        is_value(v),
    ensures
        all_values(items.push(v)),
{
    let more = items.push(v);
    assert forall|k: int| 0 <= k < more.len() implies is_value(#[trigger] more[k]) by {
        if k < items.len() {
            assert(more[k] == items[k]);
        }
    }
}

/// What a pass with one operation at an element makes of an array.
#[verifier::rlimit(60)]
#[verifier::spinoff_prover]
proof fn lemma_elements_changed(
    env: Env,
    op: Op,
    place: Seq<Seq<char>>,
    token: Seq<char>,
    s: Seq<u8>,
    i: int,
    depth: int,
    emitted: bool,
    w: Walk,
    base: Seq<u8>,
    items: Seq<Seq<u8>>,
    before: Seq<Tree>,
) -> (t: Seq<u8>)
    requires
        makes_one(env, op, w),
        op.tokens == place.push(token),
        0 <= i <= s.len(),
        elements_end(s, i, depth, before.len() == 0) is Ok,
        inside(base, 0x5B, items, emitted, w),
        all_values(items),
        element_trees(items) == changed(op, token, before),
    ensures
        walk_elements(env, s, i, place, depth, before.len() as int, emitted, w) matches Ok((e, n)) ==> {
            &&& tree_of(t) == Tree::Array(
                finished(op, token, before + (tree_elements(s, i, before.len() == 0)->0).1),
            )
            &&& is_value(t)
            &&& n.out == base + t
        },
    decreases s.len() - i,
{
    let idx = before.len() as int;
    let at = decimal(idx as nat);
    let below = place.push(at);
    let elements = (tree_elements(s, i, idx == 0)->0).1;
    lemma_next_item(s, i, idx == 0, 0x5D);
    lemma_elements_tree(s, i, depth, idx == 0);
    lemma_single(op, below);
    lemma_single(op, place);
    lemma_not_dash(idx as nat);
    lemma_last_token(place, token, at);
    assert(env.ops[0] == op);
    let adds = op.kind == OpKind::Add && token == at;
    if adds {
        lemma_value_put(env, op, base, items, emitted, w);
    }
    let (e1, w1) = added_before(env, place, at, emitted, w);
    let list = if adds {
        items.push(op.payload->0)
    } else {
        items
    };
    assert(inside(base, 0x5B, list, e1, w1));
    match next_item(s, i, idx == 0, 0x5D) {
        Next::Item(q) => {
            lemma_value_tree(s, q, depth);
            let v = value_end(s, q, depth)->Ok_0;
            lemma_elements_tree(s, v, depth, false);
            let x = (tree_value(s, q)->0).1;
            let behind = (tree_elements(s, v, false)->0).1;
            assert(elements == seq![x] + behind);
            let more = lemma_element_changed(env, op, place, token, s, q, depth, e1, w1, base, list, idx);
            match walk_element(env, s, q, below, depth, e1, w1) {
                Ok((_, now, n)) => {
                    let longer = before.push(x);
                    assert(longer.drop_last() =~= before);
                    assert(element_trees(more) =~= changed(op, token, longer));
                    assert(longer + behind =~= before + elements);
                    lemma_elements_changed(
                        env,
                        op,
                        place,
                        token,
                        s,
                        v,
                        depth,
                        now,
                        n,
                        base,
                        more,
                        longer,
                    )
                },
                Err(_) => Seq::empty(),
            }
        },
        _ => {
            assert(before + elements =~= before);
            let appends = op.kind == OpKind::Add && token == dash();
            if appends {
                lemma_value_put(env, op, base, list, e1, w1);
            }
            let all = if appends {
                list.push(op.payload->0)
            } else {
                list
            };
            let (e2, w2) = added_behind(env, place, e1, w1);
            assert(inside(base, 0x5B, all, e2, w2));
            lemma_array_tree(all);
            let t = array_text(all);
            assert(base + seq![0x5Bu8] + run(all, true) + seq![0x5Du8] =~= base + t);
            assert(element_trees(all) =~= finished(op, token, before));
            t
        },
    }
}

pub proof fn lemma_last_token(place: Seq<Seq<char>>, token: Seq<char>, at: Seq<char>)
    ensures
        place.push(token) == place.push(at) <==> token == at,
        place.push(token).last() == token,
        place.push(token).drop_last() == place,
        place.push(token).take(place.len() as int + 1) == place.push(token),
        place.push(token).take(place.len() as int) == place,
{
    let n = place.len() as int;
    assert(place.push(token)[n] == token && place.push(at)[n] == at);
    assert(place.push(token).drop_last() =~= place);
    assert(place.push(token).take(n + 1) =~= place.push(token));
    assert(place.push(token).take(n) =~= place);
}

/// What a pass with one operation at an element makes of one element.
#[verifier::rlimit(60)]
#[verifier::spinoff_prover]
proof fn lemma_element_changed(
    env: Env,
    op: Op,
    place: Seq<Seq<char>>,
    token: Seq<char>,
    s: Seq<u8>,
    q: int,
    depth: int,
    emitted: bool,
    w: Walk,
    base: Seq<u8>,
    items: Seq<Seq<u8>>,
    idx: int,
) -> (more: Seq<Seq<u8>>)
    requires
        makes_one(env, op, w),
        op.tokens == place.push(token),
        0 <= idx,
        0 <= q <= s.len(),
        value_end(s, q, depth) is Ok,
        inside(base, 0x5B, items, emitted, w),
        all_values(items),
    ensures
        walk_element(env, s, q, place.push(decimal(idx as nat)), depth, emitted, w) matches Ok((v, now, n)) ==> {
            &&& value_end(s, q, depth) == Ok::<int, RewriteError>(v)
            &&& inside(base, 0x5B, more, now, n)
            &&& all_values(more)
            &&& n.resolved == w.resolved
            &&& element_trees(more) == element_trees(items) + (if token != decimal(idx as nat) || op.kind
                == OpKind::Add {
                seq![(tree_value(s, q)->0).1]
            } else if op.kind == OpKind::Replace {
                seq![tree_of(op.payload->0)]
            } else {
                Seq::empty()
            })
        },
{
    let at = decimal(idx as nat);
    let below = place.push(at);
    let walked = walk_element(env, s, q, below, depth, emitted, w);
    lemma_single(op, below);
    lemma_not_dash(idx as nat);
    lemma_last_token(place, token, at);
    lemma_value_tree(s, q, depth);
    assert(env.ops[0] == op);
    if token == at && op.kind != OpKind::Add {
        if op.kind == OpKind::Replace {
            let v = op.payload->0;
            assert(w.resolved[0] == op.payload);
            assert(w.resolved.update(0, Some(v)) =~= w.resolved);
            assert(comma(emitted) + Seq::<u8>::empty() + v =~= comma(emitted) + v);
            let more = items.push(v);
            if walked is Ok {
                lemma_item(base, 0x5B, items, emitted, w, v, walked->Ok_0.2);
            }
            lemma_values_push(items, v);
            assert(element_trees(more) =~= element_trees(items) + seq![tree_of(v)]);
            more
        } else {
            assert(element_trees(items) + Seq::<Tree>::empty() =~= element_trees(items));
            items
        }
    } else {
        let n = put(env, w, comma(emitted));
        let t = if token == at {
            lemma_value_rewritten(env, op, s, q, depth, n)
        } else {
            lemma_copied_tree(env, s, q, depth, n)
        };
        let more = items.push(t);
        if walked is Ok {
            assert(w.out + comma(emitted) + t =~= w.out + (comma(emitted) + t));
            lemma_item(base, 0x5B, items, emitted, w, t, walked->Ok_0.2);
            lemma_values_push(items, t);
            assert(element_trees(more) =~= element_trees(items) + seq![tree_of(t)]);
        }
        more
    }
}

proof fn lemma_unchanged(op: Op, token: Seq<char>, elements: Seq<Tree>)
    requires
        forall|k: int| 0 <= k < elements.len() ==> token != #[trigger] decimal(k as nat),
    ensures
        changed(op, token, elements) == elements,
    decreases elements.len(),
{
    if elements.len() > 0 {
        let front = elements.drop_last();
        lemma_unchanged(op, token, front);
        assert(token != decimal((elements.len() - 1) as nat));
        assert(front + seq![elements.last()] =~= elements);
    }
}

proof fn lemma_changed(op: Op, i: int, elements: Seq<Tree>)
    requires
        0 <= i < elements.len(),
    ensures
        ({
            let v = tree_of(op.payload->0);
            changed(op, decimal(i as nat), elements) == (if op.kind == OpKind::Add {
                elements.insert(i, v)
            } else if op.kind == OpKind::Replace {
                elements.update(i, v)
            } else {
                elements.remove(i)
            })
        }),
    decreases elements.len(),
{
    let v = tree_of(op.payload->0);
    let token = decimal(i as nat);
    let front = elements.drop_last();
    let x = elements.last();
    let k = elements.len() - 1;
    lemma_decimal_round_trip(i as nat);
    lemma_decimal_round_trip(k as nat);
    if i < k {
        lemma_changed(op, i, front);
        assert(front.insert(i, v) + seq![x] =~= elements.insert(i, v));
        assert(front.update(i, v) + seq![x] =~= elements.update(i, v));
        assert(front.remove(i) + seq![x] =~= elements.remove(i));
    } else {
        assert forall|j: int| 0 <= j < front.len() implies token != #[trigger] decimal(j as nat) by {
            lemma_decimal_round_trip(j as nat);
        }
        lemma_unchanged(op, token, front);
        assert(front + seq![v, x] =~= elements.insert(i, v));
        assert(front + seq![v] =~= elements.update(i, v));
        assert(front + Seq::<Tree>::empty() =~= elements.remove(i));
    }
}

/// What a pass with one operation at an element of the array at `place` makes of
/// it, wherever it stands: a value with the index is put before the element, or
/// behind the last one for the index after it; one with a dash is put behind the
/// last one; a replacement takes the place of the element, and a removal takes it
/// out. All other elements stay, in their order.
#[verifier::rlimit(60)]
#[verifier::spinoff_prover]
pub proof fn law_array_operation(
    env: Env,
    op: Op,
    place: Seq<Seq<char>>,
    s: Seq<u8>,
    i: int,
    depth: int,
    w: Walk,
    elements: Seq<Tree>,
    k: int,
)
    requires
        env.emit,
        env.ops == seq![op],
        op.kind != OpKind::Extract,
        op.kind != OpKind::Remove ==> (op.payload matches Some(v) && is_value(v)),
        w.resolved == seq![op.payload],
        0 <= i <= s.len(),
        tree_value(s, i) matches Some((_, tree)) && tree == Tree::Array(elements),
    ensures
        walk_value(env, s, i, place, depth, w) matches Ok((e, n)) ==> {
            let v = tree_of(op.payload->0);
            let t = n.out.skip(w.out.len() as int);
            &&& op.tokens == place.push(seq!['-']) && op.kind == OpKind::Add ==> n.out == w.out + t && is_value(t)
                && tree_of(t) == Tree::Array(elements.push(v))
            &&& 0 <= k <= elements.len() && op.tokens == place.push(decimal(k as nat)) && op.kind
                == OpKind::Add ==> n.out == w.out + t && is_value(t) && tree_of(t) == Tree::Array(
                elements.insert(k, v),
            )
            &&& 0 <= k < elements.len() && op.tokens == place.push(decimal(k as nat)) && op.kind
                == OpKind::Replace ==> n.out == w.out + t && is_value(t) && tree_of(t) == Tree::Array(
                elements.update(k, v),
            )
            &&& 0 <= k < elements.len() && op.tokens == place.push(decimal(k as nat)) && op.kind
                == OpKind::Remove ==> n.out == w.out + t && is_value(t) && tree_of(t) == Tree::Array(
                elements.remove(k),
            )
            &&& k > elements.len() && op.tokens == place.push(decimal(k as nat)) ==> n.out == w.out + t
                && is_value(t) && tree_of(t) == Tree::Array(elements)
        },
{
    let walked = walk_value(env, s, i, place, depth, w);
    law_only_json_is_walked(env, s, i, place, depth, w);
    lemma_value_tree(s, i, depth);
    if op.tokens == place.push(dash()) && op.kind == OpKind::Add {
        let t = lemma_array_walked(env, op, place, dash(), s, i, depth, w, elements);
        assert forall|j: int| 0 <= j < elements.len() implies dash() != #[trigger] decimal(j as nat) by {
            lemma_not_dash(j as nat);
        }
        lemma_unchanged(op, dash(), elements);
        assert(finished(op, dash(), elements) =~= elements.push(tree_of(op.payload->0)));
        if let Ok((e, n)) = walked {
            assert(n.out.skip(w.out.len() as int) =~= t);
        }
    }
    if 0 <= k && op.tokens == place.push(decimal(k as nat)) {
        let token = decimal(k as nat);
        let t = lemma_array_walked(env, op, place, token, s, i, depth, w, elements);
        lemma_not_dash(k as nat);
        lemma_decimal_round_trip(k as nat);
        lemma_decimal_round_trip(elements.len());
        if k < elements.len() {
            lemma_changed(op, k, elements);
            assert(finished(op, token, elements) =~= changed(op, token, elements));
        } else {
            assert forall|j: int| 0 <= j < elements.len() implies token != #[trigger] decimal(j as nat) by {
                lemma_decimal_round_trip(j as nat);
            }
            lemma_unchanged(op, token, elements);
            assert(k == elements.len() ==> elements.insert(k, tree_of(op.payload->0)) =~= elements.push(
                tree_of(op.payload->0),
            ));
            assert(elements + Seq::<Tree>::empty() =~= elements);
            assert(elements + seq![tree_of(op.payload->0)] =~= elements.push(tree_of(op.payload->0)));
        }
        if let Ok((e, n)) = walked {
            assert(n.out.skip(w.out.len() as int) =~= t);
        }
    }
}

proof fn lemma_array_walked(
    env: Env,
    op: Op,
    place: Seq<Seq<char>>,
    token: Seq<char>,
    s: Seq<u8>,
    i: int,
    depth: int,
    w: Walk,
    elements: Seq<Tree>,
) -> (t: Seq<u8>)
    requires
        makes_one(env, op, w),
        op.tokens == place.push(token),
        0 <= i <= s.len(),
        tree_value(s, i) matches Some((_, tree)) && tree == Tree::Array(elements),
    ensures
        walk_value(env, s, i, place, depth, w) matches Ok((e, n)) ==> {
            &&& tree_of(t) == Tree::Array(finished(op, token, elements))
            &&& is_value(t)
            &&& n.out == w.out + t
        },
{
    let k = ws_end(s, i);
    lemma_ws_end(s, i);
    lemma_single(op, place);
    lemma_last_token(place, token, token);
    law_only_json_is_walked(env, s, i, place, depth, w);
    lemma_value_tree(s, i, depth);
    assert(op.reaches(place));
    assert(place != op.tokens) by {
        assert(place.len() != op.tokens.len());
    }
    if walk_value(env, s, i, place, depth, w) is Ok {
        let none = Seq::<Seq<u8>>::empty();
        let opened = put(env, w, seq![0x5Bu8]);
        let before = Seq::<Tree>::empty();
        assert(opened.out =~= w.out + seq![0x5Bu8] + run(none, true));
        assert(element_trees(none) =~= changed(op, token, before));
        let t = lemma_elements_changed(
            env,
            op,
            place,
            token,
            s,
            k + 1,
            depth + 1,
            false,
            opened,
            w.out,
            none,
            before,
        );
        assert(before + elements =~= elements);
        t
    } else {
        Seq::empty()
    }
}

/// What a pass with one operation at an element makes of a document that is an
/// array.
pub proof fn law_array_document(env: Env, op: Op, s: Seq<u8>, elements: Seq<Tree>, k: int)
    requires
        env.emit,
        env.ops == seq![op],
        op.kind != OpKind::Extract,
        op.kind != OpKind::Remove ==> (op.payload matches Some(v) && is_value(v)),
        op.tokens.len() == 1,
        tree_document(s) == Some(Tree::Array(elements)),
    ensures
        walk_document(env, s) matches Ok(w) ==> {
            let v = tree_of(op.payload->0);
            &&& op.tokens[0] == seq!['-'] && op.kind == OpKind::Add ==> tree_document(w.out) == Some(
                Tree::Array(elements.push(v)),
            )
            &&& 0 <= k <= elements.len() && op.tokens[0] == decimal(k as nat) && op.kind == OpKind::Add
                ==> tree_document(w.out) == Some(Tree::Array(elements.insert(k, v)))
            &&& 0 <= k < elements.len() && op.tokens[0] == decimal(k as nat) && op.kind == OpKind::Replace
                ==> tree_document(w.out) == Some(Tree::Array(elements.update(k, v)))
            &&& 0 <= k < elements.len() && op.tokens[0] == decimal(k as nat) && op.kind == OpKind::Remove
                ==> tree_document(w.out) == Some(Tree::Array(elements.remove(k)))
        },
{
    let w = start(env);
    let none = Seq::<Seq<char>>::empty();
    let i = ws_end(s, bom_len(s));
    lemma_ws_end(s, bom_len(s));
    lemma_ws_stays(s, bom_len(s));
    lemma_single(op, none);
    assert(w.resolved =~= seq![op.payload]);
    assert(tree_value(s, i) == tree_value(s, bom_len(s)));
    assert(op.tokens =~= none.push(op.tokens[0]));
    if walk_document(env, s) is Ok {
        law_array_operation(env, op, none, s, i, 0, w, elements, k);
        let n = walk_document(env, s)->Ok_0;
        let t = n.out.skip(w.out.len() as int);
        assert(w.out + t =~= t);
        if is_value(t) {
            lemma_tree_document(t);
        }
    }
}

} // verus!
