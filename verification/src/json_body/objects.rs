//! What one operation makes of the members of an object.

use vstd::prelude::*;

use crate::json_body::arrays::{lemma_last_token, lemma_single, makes_one};
use crate::json_body::error::RewriteError;
use crate::json_body::grammar::{is_string, is_value, lemma_span_is_string, lemma_ws_stays, run};
use crate::json_body::ops::{Op, OpKind};
use crate::json_body::output::{all_members, inside, lemma_member_item, member_texts, object_text};
use crate::json_body::scan::{bom_len, colon_end, lemma_next_item, lemma_string_end, lemma_ws_end, members_end, next_item, string_end, value_end, ws_end, Next};
use crate::json_body::tree::{lemma_members_tree, lemma_object_tree, lemma_value_tree, member_trees, tree_document, tree_members, tree_of, tree_value, Tree};
use crate::json_body::undo::{law_only_json_is_walked, lemma_copied_tree, lemma_tree_document};
use crate::json_body::walk::{added_members, comma, inserted, key_text, put, start, walk_document, walk_member, walk_members, walk_value, Env, Walk};

verus! {

/// Whether a member has a name.
pub open spec fn is_named(m: (Seq<u8>, Tree), name: Seq<char>) -> bool {
    key_text(m.0) == Some(name)
}

/// Whether one of the members has a name.
pub open spec fn names(members: Seq<(Seq<u8>, Tree)>, name: Seq<char>) -> bool {
    exists|k: int| 0 <= k < members.len() && is_named(#[trigger] members[k], name)
}

/// The members without those of a name.
pub open spec fn without(members: Seq<(Seq<u8>, Tree)>, name: Seq<char>) -> Seq<(Seq<u8>, Tree)>
    decreases members.len(),
{
    if members.len() == 0 {
        Seq::empty()
    } else if is_named(members.last(), name) {
        without(members.drop_last(), name)
    } else {
        without(members.drop_last(), name).push(members.last())
    }
}

/// The members with the value `v` for those of a name.
pub open spec fn with_value(members: Seq<(Seq<u8>, Tree)>, name: Seq<char>, v: Tree) -> Seq<
    (Seq<u8>, Tree),
> {
    members.map_values(
        |m: (Seq<u8>, Tree)|
            if is_named(m, name) {
                (m.0, v)
            } else {
                m
            },
    )
}

/// What an operation at the name `name` makes of the members of an object.
spec fn changed(op: Op, name: Seq<char>, members: Seq<(Seq<u8>, Tree)>) -> Seq<(Seq<u8>, Tree)> {
    if op.kind == OpKind::Remove {
        without(members, name)
    } else {
        with_value(members, name, tree_of(op.payload->0))
    }
}

spec fn finished(op: Op, name: Seq<char>, members: Seq<(Seq<u8>, Tree)>) -> Seq<(Seq<u8>, Tree)> {
    if op.kind == OpKind::Add && !names(members, name) {
        changed(op, name, members).push((op.encoded->0, tree_of(op.payload->0)))
    } else {
        changed(op, name, members)
    }
}

proof fn lemma_changed_push(op: Op, name: Seq<char>, members: Seq<(Seq<u8>, Tree)>, m: (Seq<u8>, Tree))
    ensures
        changed(op, name, members.push(m)) == changed(op, name, members) + (if !is_named(m, name) {
            seq![m]
        } else if op.kind == OpKind::Remove {
            Seq::empty()
        } else {
            seq![(m.0, tree_of(op.payload->0))]
        }),
        names(members.push(m), name) <==> names(members, name) || is_named(m, name),
{
    let all = members.push(m);
    assert(all.drop_last() =~= members);
    assert(changed(op, name, all) =~= changed(op, name, members) + (if !is_named(m, name) {
        seq![m]
    } else if op.kind == OpKind::Remove {
        Seq::empty()
    } else {
        seq![(m.0, tree_of(op.payload->0))]
    }));
    if names(members, name) {
        let k = choose|k: int| 0 <= k < members.len() && is_named(#[trigger] members[k], name);
        assert(is_named(all[k], name));
    }
    if is_named(m, name) {
        assert(is_named(all[members.len() as int], name));
    }
    if names(all, name) && !is_named(m, name) {
        let k = choose|k: int| 0 <= k < all.len() && is_named(#[trigger] all[k], name);
        assert(is_named(members[k], name));
    }
}

/// What a pass with one operation at a member makes of a member.
#[verifier::rlimit(60)]
#[verifier::spinoff_prover]
proof fn lemma_member_changed(
    env: Env,
    op: Op,
    place: Seq<Seq<char>>,
    name: Seq<char>,
    s: Seq<u8>,
    q: int,
    e: int,
    c: int,
    key: Seq<char>,
    depth: int,
    emitted: bool,
    satisfied: Seq<Seq<char>>,
    w: Walk,
    base: Seq<u8>,
    items: Seq<(Seq<u8>, Seq<u8>)>,
) -> (more: Seq<(Seq<u8>, Seq<u8>)>)
    requires
        makes_one(env, op, w),
        !op.appends(),
        op.tokens == place.push(name),
        0 <= c <= s.len(),
        string_end(s, q) == Some(e),
        key_text(s.subrange(q, e)) == Some(key),
        value_end(s, c, depth) is Ok,
        inside(base, 0x7B, member_texts(items), emitted, w),
        all_members(items),
    ensures
        walk_member(env, s, q, e, c, key, place, depth, emitted, satisfied, w) matches Ok((v, now, kept, n)) ==> {
            &&& value_end(s, c, depth) == Ok::<int, RewriteError>(v)
            &&& inside(base, 0x7B, member_texts(more), now, n)
            &&& all_members(more)
            &&& n.resolved == w.resolved
            &&& kept == (if key == name && op.kind == OpKind::Add {
                satisfied.push(name)
            } else {
                satisfied
            })
            &&& member_trees(more) == member_trees(items) + (if key != name {
                seq![(s.subrange(q, e), (tree_value(s, c)->0).1)]
            } else if op.kind == OpKind::Remove {
                Seq::empty()
            } else {
                seq![(s.subrange(q, e), tree_of(op.payload->0))]
            })
        },
{
    let below = place.push(key);
    let raw = s.subrange(q, e);
    let prefix = raw + seq![0x3Au8];
    let walked = walk_member(env, s, q, e, c, key, place, depth, emitted, satisfied, w);
    lemma_single(op, below);
    lemma_last_token(place, name, key);
    lemma_span_is_string(s, q);
    lemma_value_tree(s, c, depth);
    assert(env.ops[0] == op);
    if key == name {
        if op.kind == OpKind::Remove {
            assert(member_trees(items) + Seq::<(Seq<u8>, Tree)>::empty() =~= member_trees(items));
            items
        } else {
            let v = op.payload->0;
            assert(w.resolved[0] == op.payload);
            assert(w.resolved.update(0, Some(v)) =~= w.resolved);
            let more = items.push((raw, v));
            if walked is Ok {
                lemma_member_item(base, items, emitted, w, raw, v, walked->Ok_0.3);
            }
            assert(member_trees(more) =~= member_trees(items) + seq![(raw, tree_of(v))]);
            more
        }
    } else {
        let n = put(env, w, comma(emitted) + prefix);
        let t = lemma_copied_tree(env, s, c, depth, n);
        let more = items.push((raw, t));
        if walked is Ok {
            assert(w.out + (comma(emitted) + prefix) + t =~= w.out + (comma(emitted) + prefix + t));
            lemma_member_item(base, items, emitted, w, raw, t, walked->Ok_0.3);
            assert(member_trees(more) =~= member_trees(items) + seq![(raw, tree_of(t))]);
        }
        more
    }
}

/// What a pass with one operation at a member makes of an object.
#[verifier::rlimit(60)]
#[verifier::spinoff_prover]
proof fn lemma_members_changed(
    env: Env,
    op: Op,
    place: Seq<Seq<char>>,
    name: Seq<char>,
    s: Seq<u8>,
    i: int,
    depth: int,
    first: bool,
    emitted: bool,
    satisfied: Seq<Seq<char>>,
    w: Walk,
    base: Seq<u8>,
    items: Seq<(Seq<u8>, Seq<u8>)>,
    before: Seq<(Seq<u8>, Tree)>,
) -> (t: Seq<u8>)
    requires
        makes_one(env, op, w),
        !op.appends(),
        op.tokens == place.push(name),
        op.kind == OpKind::Add ==> (op.encoded matches Some(b) && is_string(b)),
        0 <= i <= s.len(),
        members_end(s, i, depth, first) is Ok,
        inside(base, 0x7B, member_texts(items), emitted, w),
        all_members(items),
        member_trees(items) == changed(op, name, before),
        op.kind == OpKind::Add ==> (satisfied.contains(name) <==> names(before, name)),
    ensures
        walk_members(env, s, i, place, depth, first, emitted, satisfied, w) matches Ok((e, n)) ==> {
            &&& tree_of(t) == Tree::Object(finished(op, name, before + (tree_members(s, i, first)->0).1))
            &&& is_value(t)
            &&& n.out == base + t
        },
    decreases s.len() - i,
{
    let members = (tree_members(s, i, first)->0).1;
    lemma_next_item(s, i, first, 0x7D);
    lemma_members_tree(s, i, depth, first);
    match next_item(s, i, first, 0x7D) {
        Next::Item(q) => {
            lemma_string_end(s, q);
            let e = string_end(s, q)->0;
            lemma_ws_end(s, e);
            let c = colon_end(s, e)->0;
            let raw = s.subrange(q, e);
            lemma_value_tree(s, c, depth);
            let v = value_end(s, c, depth)->Ok_0;
            lemma_members_tree(s, v, depth, false);
            let m = (raw, (tree_value(s, c)->0).1);
            let behind = (tree_members(s, v, false)->0).1;
            assert(members == seq![m] + behind);
            if key_text(raw) is None {
                Seq::empty()
            } else {
                let key = key_text(raw)->0;
                let more = lemma_member_changed(
                    env,
                    op,
                    place,
                    name,
                    s,
                    q,
                    e,
                    c,
                    key,
                    depth,
                    emitted,
                    satisfied,
                    w,
                    base,
                    items,
                );
                match walk_member(env, s, q, e, c, key, place, depth, emitted, satisfied, w) {
                    Ok((_, now, kept, n)) => {
                        let longer = before.push(m);
                        lemma_changed_push(op, name, before, m);
                        lemma_kept(satisfied, name, kept);
                        assert(longer + behind =~= before + members);
                        lemma_members_changed(
                            env,
                            op,
                            place,
                            name,
                            s,
                            v,
                            depth,
                            false,
                            now,
                            kept,
                            n,
                            base,
                            more,
                            longer,
                        )
                    },
                    Err(_) => Seq::empty(),
                }
            }
        },
        _ => {
            assert(before + members =~= before);
            lemma_object_closed(env, op, place, name, emitted, satisfied, w, base, items, before)
        },
    }
}

proof fn lemma_kept(satisfied: Seq<Seq<char>>, name: Seq<char>, kept: Seq<Seq<char>>)
    ensures
        kept == satisfied.push(name) ==> kept.contains(name),
{
    if kept == satisfied.push(name) {
        assert(kept[satisfied.len() as int] == name);
    }
}

/// The end of an object.
#[verifier::rlimit(60)]
#[verifier::spinoff_prover]
proof fn lemma_object_closed(
    env: Env,
    op: Op,
    place: Seq<Seq<char>>,
    name: Seq<char>,
    emitted: bool,
    satisfied: Seq<Seq<char>>,
    w: Walk,
    base: Seq<u8>,
    items: Seq<(Seq<u8>, Seq<u8>)>,
    before: Seq<(Seq<u8>, Tree)>,
) -> (t: Seq<u8>)
    requires
        makes_one(env, op, w),
        !op.appends(),
        op.tokens == place.push(name),
        op.kind == OpKind::Add ==> (op.encoded matches Some(b) && is_string(b)),
        inside(base, 0x7B, member_texts(items), emitted, w),
        all_members(items),
        member_trees(items) == changed(op, name, before),
        op.kind == OpKind::Add ==> (satisfied.contains(name) <==> names(before, name)),
    ensures
        ({
            let n = put(env, added_members(env, place, satisfied, 0, emitted, w), seq![0x7Du8]);
            &&& tree_of(t) == Tree::Object(finished(op, name, before))
            &&& is_value(t)
            &&& n.out == base + t
        }),
{
    lemma_last_token(place, name, name);
    assert(env.ops[0] == op);
    reveal_with_fuel(added_members, 2);
    let adds = op.kind == OpKind::Add && !names(before, name);
    let all = if adds {
        let b = op.encoded->0;
        let v = op.payload->0;
        let (now, n) = inserted(env, w, emitted, b + seq![0x3Au8], 0);
        assert(w.resolved[0] == op.payload);
        assert(w.resolved.update(0, Some(v)) =~= w.resolved);
        lemma_member_item(base, items, emitted, w, b, v, n);
        items.push((op.encoded->0, op.payload->0))
    } else {
        items
    };
    let n = added_members(env, place, satisfied, 0, emitted, w);
    assert(n.out == base + seq![0x7Bu8] + run(member_texts(all), true));
    lemma_object_tree(all);
    let t = object_text(all);
    assert(n.out + seq![0x7Du8] =~= base + t);
    assert(member_trees(all) =~= finished(op, name, before));
    t
}

/// What a pass with one operation at a member of the object at `place` makes of
/// it, wherever it stands: an add or a replacement puts its value in the place of
/// the value that the name has, an add of a new name puts a member behind the
/// others, a replacement of a name that is not there changes nothing, and a
/// removal takes the member out. All other members stay, in their order.
pub proof fn law_object_operation(
    env: Env,
    op: Op,
    place: Seq<Seq<char>>,
    name: Seq<char>,
    s: Seq<u8>,
    i: int,
    depth: int,
    w: Walk,
    members: Seq<(Seq<u8>, Tree)>,
)
    requires
        makes_one(env, op, w),
        op.tokens == place.push(name),
        op.kind == OpKind::Add ==> name != seq!['-'] && (op.encoded matches Some(b) && is_string(b)),
        0 <= i <= s.len(),
        tree_value(s, i) matches Some((_, tree)) && tree == Tree::Object(members),
    ensures
        walk_value(env, s, i, place, depth, w) matches Ok((e, n)) ==> {
            let v = tree_of(op.payload->0);
            let t = n.out.skip(w.out.len() as int);
            &&& n.out == w.out + t
            &&& is_value(t)
            &&& op.kind == OpKind::Remove ==> tree_of(t) == Tree::Object(without(members, name))
            &&& op.kind == OpKind::Replace || names(members, name) && op.kind == OpKind::Add ==> tree_of(t)
                == Tree::Object(with_value(members, name, v))
            &&& op.kind == OpKind::Add && !names(members, name) ==> tree_of(t) == Tree::Object(
                members.push((op.encoded->0, v)),
            )
        },
{
    let k = ws_end(s, i);
    let walked = walk_value(env, s, i, place, depth, w);
    lemma_ws_end(s, i);
    lemma_single(op, place);
    lemma_last_token(place, name, name);
    law_only_json_is_walked(env, s, i, place, depth, w);
    lemma_value_tree(s, i, depth);
    assert(op.reaches(place));
    assert(place != op.tokens) by {
        assert(place.len() != op.tokens.len());
    }
    if let Ok((e, n)) = walked {
        let none = Seq::<(Seq<u8>, Seq<u8>)>::empty();
        let opened = put(env, w, seq![0x7Bu8]);
        let before = Seq::<(Seq<u8>, Tree)>::empty();
        assert(member_texts(none) =~= Seq::<Seq<u8>>::empty());
        assert(opened.out =~= w.out + seq![0x7Bu8] + run(member_texts(none), true));
        assert(member_trees(none) =~= changed(op, name, before));
        let t = lemma_members_changed(
            env,
            op,
            place,
            name,
            s,
            k + 1,
            depth + 1,
            true,
            false,
            Seq::empty(),
            opened,
            w.out,
            none,
            before,
        );
        assert(before + members =~= members);
        assert(n.out.skip(w.out.len() as int) =~= t);
        if !names(members, name) {
            assert(with_value(members, name, tree_of(op.payload->0)) =~= members) by {
                assert forall|j: int| 0 <= j < members.len() implies !is_named(#[trigger] members[j], name) by {}
            }
        }
    }
}

/// What a pass with one operation at a member makes of a document that is an
/// object.
pub proof fn law_object_document(env: Env, op: Op, s: Seq<u8>, members: Seq<(Seq<u8>, Tree)>)
    requires
        env.emit,
        env.ops == seq![op],
        op.kind != OpKind::Extract,
        op.kind != OpKind::Remove ==> (op.payload matches Some(v) && is_value(v)),
        op.tokens.len() == 1,
        op.kind == OpKind::Add ==> op.tokens[0] != seq!['-'] && (op.encoded matches Some(b) && is_string(b)),
        tree_document(s) == Some(Tree::Object(members)),
    ensures
        walk_document(env, s) matches Ok(w) ==> {
            let v = tree_of(op.payload->0);
            let name = op.tokens[0];
            &&& op.kind == OpKind::Remove ==> tree_document(w.out) == Some(Tree::Object(without(members, name)))
            &&& op.kind == OpKind::Replace || names(members, name) && op.kind == OpKind::Add ==> tree_document(
                w.out,
            ) == Some(Tree::Object(with_value(members, name, v)))
            &&& op.kind == OpKind::Add && !names(members, name) ==> tree_document(w.out) == Some(
                Tree::Object(members.push((op.encoded->0, v))),
            )
        },
{
    let w = start(env);
    let none = Seq::<Seq<char>>::empty();
    let name = op.tokens[0];
    let i = ws_end(s, bom_len(s));
    lemma_ws_end(s, bom_len(s));
    lemma_ws_stays(s, bom_len(s));
    lemma_single(op, none);
    assert(w.resolved =~= seq![op.payload]);
    assert(tree_value(s, i) == tree_value(s, bom_len(s)));
    assert(op.tokens =~= none.push(name));
    if walk_document(env, s) is Ok {
        law_object_operation(env, op, none, name, s, i, 0, w, members);
        let n = walk_document(env, s)->Ok_0;
        let t = n.out.skip(w.out.len() as int);
        assert(w.out + t =~= t);
        lemma_tree_document(t);
    }
}

} // verus!
