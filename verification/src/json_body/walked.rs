//! Which documents a pass gets through.

use vstd::prelude::*;

use crate::json_body::grammar::lemma_ws_stays;
use crate::json_body::ops::{mutate_op, touches};
use crate::json_body::scan::{bom_len, byte_at, colon_end, elements_end, lemma_next_item, lemma_string_end, lemma_value_end, lemma_ws_end, members_end, next_item, string_end, value_end, ws_end, Next};
use crate::json_body::tree::{fits, lemma_elements_tree, lemma_members_tree, lemma_value_tree, tree_document, tree_elements, tree_members, tree_value, Tree};
use crate::json_body::undo::law_only_json_is_walked;
use crate::json_body::walk::{added_before, comma, key_text, put, start, walk_document, walk_element, walk_elements, walk_member, walk_members, walk_value, Env, Walk};
use crate::number::decimal;

verus! {

/// Whether every key in a value can be read.
pub open spec fn is_readable(tree: Tree) -> bool
    decreases tree,
{
    match tree {
        Tree::Scalar(_) => true,
        Tree::Object(members) => forall|k: int|
            0 <= k < members.len() ==> key_text((#[trigger] members[k]).0) is Some && is_readable(members[k].1),
        Tree::Array(elements) => forall|k: int| 0 <= k < elements.len() ==> is_readable(#[trigger] elements[k]),
    }
}

spec fn members_readable(members: Seq<(Seq<u8>, Tree)>) -> bool {
    forall|k: int|
        0 <= k < members.len() ==> key_text((#[trigger] members[k]).0) is Some && is_readable(members[k].1)
}

spec fn elements_readable(elements: Seq<Tree>) -> bool {
    forall|k: int| 0 <= k < elements.len() ==> is_readable(#[trigger] elements[k])
}

proof fn lemma_element_readable(elements: Seq<Tree>, x: int)
    requires
        is_readable(Tree::Array(elements)),
        0 <= x < elements.len(),
    ensures
        is_readable(elements[x]),
{
    let tree = Tree::Array(elements);
    assert(tree->Array_0[x] == elements[x]);
    assert(is_readable(tree->Array_0[x]));
}

proof fn lemma_value_walks(
    env: Env,
    s: Seq<u8>,
    i: int,
    place: Seq<Seq<char>>,
    depth: int,
    w: Walk,
)
    requires
        value_end(s, i, depth) is Ok,
        is_readable((tree_value(s, i)->0).1),
    ensures
        walk_value(env, s, i, place, depth, w) is Ok,
    decreases s.len() - i, 0int,
{
    let k = ws_end(s, i);
    lemma_ws_end(s, i);
    lemma_ws_stays(s, i);
    lemma_value_tree(s, i, depth);
    if touches(env.ops, place) && byte_at(s, k) == Some(0x7Bu8) {
        lemma_members_walk(
            env,
            s,
            k + 1,
            place,
            depth + 1,
            true,
            false,
            Seq::empty(),
            put(env, w, seq![0x7Bu8]),
        );
    } else if touches(env.ops, place) && byte_at(s, k) == Some(0x5Bu8) {
        let elements = (tree_elements(s, k + 1, true)->0).1;
        lemma_elements_tree(s, k + 1, depth + 1, true);
        assert((tree_value(s, i)->0).1 == Tree::Array(elements));
        assert forall|x: int| 0 <= x < elements.len() implies is_readable(#[trigger] elements[x]) by {
            lemma_element_readable(elements, x);
        }
        lemma_elements_walk(env, s, k + 1, place, depth + 1, 0, false, put(env, w, seq![0x5Bu8]));
    } else {
        assert(value_end(s, k, depth) == value_end(s, i, depth));
    }
}

proof fn lemma_members_walk(
    env: Env,
    s: Seq<u8>,
    i: int,
    place: Seq<Seq<char>>,
    depth: int,
    first: bool,
    emitted: bool,
    satisfied: Seq<Seq<char>>,
    w: Walk,
)
    requires
        members_end(s, i, depth, first) is Ok,
        members_readable((tree_members(s, i, first)->0).1),
    ensures
        walk_members(env, s, i, place, depth, first, emitted, satisfied, w) is Ok,
    decreases s.len() - i, 2int,
{
    lemma_next_item(s, i, first, 0x7D);
    lemma_members_tree(s, i, depth, first);
    if let Next::Item(q) = next_item(s, i, first, 0x7D) {
        lemma_string_end(s, q);
        let e = string_end(s, q)->0;
        lemma_ws_end(s, e);
        let c = colon_end(s, e)->0;
        let members = (tree_members(s, i, first)->0).1;
        lemma_value_tree(s, c, depth);
        lemma_value_end(s, c, depth);
        let v = value_end(s, c, depth)->Ok_0;
        lemma_members_tree(s, v, depth, false);
        assert(members[0] == (s.subrange(q, e), (tree_value(s, c)->0).1));
        let key = key_text(s.subrange(q, e))->0;
        let below = place.push(key);
        let n = put(env, w, comma(emitted) + (s.subrange(q, e) + seq![0x3Au8]));
        if mutate_op(env.ops, below) is None && touches(env.ops, below) {
            lemma_value_walks(env, s, c, below, depth, n);
            law_only_json_is_walked(env, s, c, below, depth, n);
        }
        let walked = walk_member(env, s, q, e, c, key, place, depth, emitted, satisfied, w);
        assert(walked is Ok && walked->Ok_0.0 == v);
        let rest = (tree_members(s, v, false)->0).1;
        assert forall|k: int| 0 <= k < rest.len() implies key_text((#[trigger] rest[k]).0) is Some && is_readable(
            rest[k].1,
        ) by {
            assert(rest[k] == members[k + 1]);
        }
        lemma_members_walk(
            env,
            s,
            v,
            place,
            depth,
            false,
            walked->Ok_0.1,
            walked->Ok_0.2,
            walked->Ok_0.3,
        );
    }
}

proof fn lemma_elements_walk(
    env: Env,
    s: Seq<u8>,
    i: int,
    place: Seq<Seq<char>>,
    depth: int,
    idx: int,
    emitted: bool,
    w: Walk,
)
    requires
        0 <= idx,
        elements_end(s, i, depth, idx == 0) is Ok,
        elements_readable((tree_elements(s, i, idx == 0)->0).1),
    ensures
        walk_elements(env, s, i, place, depth, idx, emitted, w) is Ok,
    decreases s.len() - i, 2int,
{
    let token = decimal(idx as nat);
    lemma_next_item(s, i, idx == 0, 0x5D);
    lemma_elements_tree(s, i, depth, idx == 0);
    if let Next::Item(q) = next_item(s, i, idx == 0, 0x5D) {
        let elements = (tree_elements(s, i, idx == 0)->0).1;
        let below = place.push(token);
        let (e1, w1) = added_before(env, place, token, emitted, w);
        lemma_value_tree(s, q, depth);
        lemma_value_end(s, q, depth);
        let v = value_end(s, q, depth)->Ok_0;
        lemma_elements_tree(s, v, depth, false);
        assert(elements[0] == (tree_value(s, q)->0).1);
        let n = put(env, w1, comma(e1));
        lemma_value_walks(env, s, q, below, depth, n);
        law_only_json_is_walked(env, s, q, below, depth, n);
        let walked = walk_element(env, s, q, below, depth, e1, w1);
        assert(walked is Ok && walked->Ok_0.0 == v);
        let rest = (tree_elements(s, v, false)->0).1;
        assert forall|k: int| 0 <= k < rest.len() implies is_readable(#[trigger] rest[k]) by {
            assert(rest[k] == elements[k + 1]);
        }
        lemma_elements_walk(env, s, v, place, depth, idx + 1, walked->Ok_0.1, walked->Ok_0.2);
    }
}

/// A pass gets through every JSON document that nests no deeper than is allowed
/// and whose keys can be read, whatever its operations are.
pub proof fn law_document_is_walked(env: Env, s: Seq<u8>)
    requires
        tree_document(s) matches Some(tree) && fits(tree, 0) && is_readable(tree),
    ensures
        walk_document(env, s) is Ok,
{
    let i = ws_end(s, bom_len(s));
    lemma_ws_end(s, bom_len(s));
    lemma_ws_stays(s, bom_len(s));
    assert(tree_value(s, i) == tree_value(s, bom_len(s)));
    lemma_value_tree(s, i, 0);
    lemma_value_end(s, i, 0);
    lemma_value_walks(env, s, i, Seq::empty(), 0, start(env));
    law_only_json_is_walked(env, s, i, Seq::empty(), 0, start(env));
}

/// What a pass that writes a document gets through is JSON.
pub proof fn law_walked_document_is_json(env: Env, s: Seq<u8>)
    requires
        env.emit,
        walk_document(env, s) is Ok,
    ensures
        tree_document(s) matches Some(tree) && fits(tree, 0),
{
    let i = ws_end(s, bom_len(s));
    lemma_ws_end(s, bom_len(s));
    lemma_ws_stays(s, bom_len(s));
    assert(tree_value(s, i) == tree_value(s, bom_len(s)));
    lemma_value_tree(s, i, 0);
    law_only_json_is_walked(env, s, i, Seq::empty(), 0, start(env));
}

} // verus!
