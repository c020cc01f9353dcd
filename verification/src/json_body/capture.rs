//! What an extract leaves behind: the value that stands at its pointer.

use vstd::prelude::*;
use vstd::utf8::{encode_scalar, encode_utf8, encode_utf8_decode_utf8, encode_utf8_valid_utf8};

use crate::json_body::grammar::lemma_ws_stays;
use crate::json_body::ops::{extract_op, mutate_op, touches, Dest, Op, OpKind};
use crate::json_body::quoted::law_json_string_is_string;
use crate::json_body::scan::{bom_len, byte_at, colon_end, lemma_next_item, lemma_string_end, lemma_ws_end, next_item, string_end, value_end, ws_end, Next};
use crate::json_body::tree::{lemma_value_tree, tree_document, tree_elements, tree_members, tree_value, Tree};
use crate::json_body::undo::law_only_json_is_walked;
use crate::json_body::walk::{added_before, added_behind, added_members, capture, comma, inserted, key_text, metadata_text, put, root_replace_op, start, walk_document, walk_element, walk_elements, walk_member, walk_members, walk_value, Env, Walk};
use crate::json_text::{json_string, json_string_decoded};
use crate::number::{decimal, lemma_decimal_round_trip};

verus! {

/// Whether the member at `i` is the last one of that name.
pub open spec fn is_last(members: Seq<(Seq<u8>, Tree)>, i: int, name: Seq<char>) -> bool {
    &&& 0 <= i < members.len()
    &&& key_text(members[i].0) == Some(name)
    &&& forall|k: int| i < k < members.len() ==> key_text((#[trigger] members[k]).0) != Some(name)
}

/// Whether the string, number or literal `text` stands where the tokens `rest`
/// lead: by the names of members, of which the last one counts, and by the
/// positions of elements.
pub open spec fn stands_at(tree: Tree, rest: Seq<Seq<char>>, text: Seq<u8>) -> bool
    decreases rest.len(),
{
    if rest.len() == 0 {
        tree == Tree::Scalar(text)
    } else {
        match tree {
            Tree::Scalar(_) => false,
            Tree::Object(members) => exists|i: int| #[trigger]
                is_last(members, i, rest[0]) && stands_at(members[i].1, rest.drop_first(), text),
            Tree::Array(elements) => exists|i: int|
                0 <= i < elements.len() && rest[0] == decimal(i as nat) && stands_at(
                    #[trigger] elements[i],
                    rest.drop_first(),
                    text,
                ),
        }
    }
}

/// Whether operation `j` is the extract for `dest`: the only one for it and the
/// only one at its pointer, with nothing changed above it.
pub open spec fn extracts_alone(ops: Seq<Op>, j: int, dest: Dest) -> bool {
    &&& 0 <= j < ops.len()
    &&& ops[j].kind == OpKind::Extract
    &&& ops[j].dest == Some(dest)
    &&& forall|i: int|
        0 <= i < ops.len() && i != j ==> (#[trigger] ops[i]).dest != Some(dest) && (ops[i].kind
            == OpKind::Extract ==> ops[i].tokens != ops[j].tokens)
    &&& forall|i: int|
        0 <= i < ops.len() && (#[trigger] ops[i]).kind != OpKind::Extract ==> !(ops[i].tokens.len()
            < ops[j].tokens.len() && ops[j].tokens.take(ops[i].tokens.len() as int) == ops[i].tokens)
    &&& ops[j].tokens.len() == 0 ==> root_replace_op(ops, 0) is None
}

/// Whether a walk holds the value `text` for `dest`.
spec fn holds(w: Walk, dest: Dest, text: Seq<u8>) -> bool {
    match dest {
        Dest::Metadata(key) => metadata_text(text) matches Some(t) ==> w.meta.contains_key(key)
            && w.meta[key] == t,
        Dest::Structured(ns, key) => w.captured.contains_key((ns, key)) && w.captured[(ns, key)] == text,
    }
}

/// Whether two walks hold the same for `dest`.
spec fn same(a: Walk, b: Walk, dest: Dest) -> bool {
    match dest {
        Dest::Metadata(key) => (a.meta.contains_key(key) <==> b.meta.contains_key(key)) && a.meta[key]
            == b.meta[key],
        Dest::Structured(ns, key) => (a.captured.contains_key((ns, key)) <==> b.captured.contains_key(
            (ns, key),
        )) && a.captured[(ns, key)] == b.captured[(ns, key)],
    }
}

/// Whether `place` is on the way to `tokens`.
pub open spec fn leads_to(place: Seq<Seq<char>>, tokens: Seq<Seq<char>>) -> bool {
    place.len() <= tokens.len() && tokens.take(place.len() as int) == place
}

proof fn lemma_extract_found(ops: Seq<Op>, place: Seq<Seq<char>>)
    ensures
        extract_op(ops, place) matches Some(i) ==> 0 <= i < ops.len() && ops[i].extracts(place),
        extract_op(ops, place) is None ==> forall|i: int|
            0 <= i < ops.len() ==> !(#[trigger] ops[i]).extracts(place),
    decreases ops.len(),
{
    if ops.len() > 0 && !ops.last().extracts(place) {
        let front = ops.drop_last();
        lemma_extract_found(front, place);
        if extract_op(ops, place) is None {
            assert forall|i: int| 0 <= i < ops.len() implies !(#[trigger] ops[i]).extracts(place) by {
                if i < front.len() {
                    assert(front[i] == ops[i]);
                }
            }
        }
    }
}

proof fn lemma_mutate_found(ops: Seq<Op>, place: Seq<Seq<char>>)
    ensures
        mutate_op(ops, place) matches Some(i) ==> 0 <= i < ops.len() && ops[i].mutates(place),
    decreases ops.len(),
{
    if ops.len() > 0 && !ops.last().mutates(place) {
        lemma_mutate_found(ops.drop_last(), place);
    }
}

/// A capture elsewhere changes nothing; one at the pointer brings the value.
proof fn lemma_capture_at(
    env: Env,
    j: int,
    dest: Dest,
    w: Walk,
    place: Seq<Seq<char>>,
    json: Seq<u8>,
)
    requires
        extracts_alone(env.ops, j, dest),
    ensures
        place != env.ops[j].tokens ==> same(w, capture(env, w, place, json), dest),
        place == env.ops[j].tokens ==> holds(capture(env, w, place, json), dest, json),
{
    lemma_extract_found(env.ops, place);
    if place == env.ops[j].tokens {
        assert(env.ops[j].extracts(place));
        let i = extract_op(env.ops, place)->0;
        assert(env.ops[i].extracts(place));
        assert(i == j);
    }
}

proof fn lemma_added_members_keep(
    env: Env,
    place: Seq<Seq<char>>,
    satisfied: Seq<Seq<char>>,
    j: int,
    emitted: bool,
    w: Walk,
)
    ensures
        added_members(env, place, satisfied, j, emitted, w).meta == w.meta,
        added_members(env, place, satisfied, j, emitted, w).captured == w.captured,
    decreases env.ops.len() - j,
{
    if 0 <= j < env.ops.len() {
        let (e, n) = inserted(env, w, emitted, env.ops[j].encoded->0 + seq![0x3Au8], j);
        lemma_added_members_keep(env, place, satisfied, j + 1, e, n);
        lemma_added_members_keep(env, place, satisfied, j + 1, emitted, w);
    }
}

/// Beside the way to the pointer nothing is captured for it.
proof fn lemma_value_beside(
    env: Env,
    j: int,
    dest: Dest,
    s: Seq<u8>,
    i: int,
    place: Seq<Seq<char>>,
    depth: int,
    w: Walk,
)
    requires
        extracts_alone(env.ops, j, dest),
        !leads_to(place, env.ops[j].tokens),
    ensures
        walk_value(env, s, i, place, depth, w) matches Ok((e, n)) ==> same(w, n, dest),
    decreases s.len() - i, 0int,
{
    let k = ws_end(s, i);
    lemma_ws_end(s, i);
    assert(env.ops[j].tokens.take(env.ops[j].tokens.len() as int) =~= env.ops[j].tokens);
    if touches(env.ops, place) && byte_at(s, k) == Some(0x7Bu8) {
        lemma_members_beside(
            env,
            j,
            dest,
            s,
            k + 1,
            place,
            depth + 1,
            true,
            false,
            Seq::empty(),
            put(env, w, seq![0x7Bu8]),
        );
    } else if touches(env.ops, place) && byte_at(s, k) == Some(0x5Bu8) {
        lemma_elements_beside(env, j, dest, s, k + 1, place, depth + 1, 0, false, put(env, w, seq![0x5Bu8]));
    }
    if let Ok((e, n)) = walk_value(env, s, i, place, depth, w) {
        let json = s.subrange(k, e);
        assert forall|m: Walk| n == #[trigger] capture(env, m, place, json) implies same(m, n, dest) by {
            lemma_capture_at(env, j, dest, m, place, json);
        }
    }
}

/// Whether none of the members from `i` on is on the way to the pointer.
pub open spec fn members_aside(s: Seq<u8>, i: int, first: bool, place: Seq<Seq<char>>, tokens: Seq<Seq<char>>) -> bool {
    ||| !leads_to(place, tokens)
    ||| place.len() == tokens.len()
    ||| (tree_members(s, i, first) matches Some((_, members)) && forall|k: int|
        0 <= k < members.len() ==> key_text((#[trigger] members[k]).0) != Some(
            tokens[place.len() as int],
        ))
}

/// Whether none of the elements from `idx` on is on the way to the pointer.
pub open spec fn elements_aside(idx: int, place: Seq<Seq<char>>, tokens: Seq<Seq<char>>) -> bool {
    ||| !leads_to(place, tokens)
    ||| place.len() == tokens.len()
    ||| forall|k: int| idx <= k ==> tokens[place.len() as int] != #[trigger] decimal(k as nat)
}

pub proof fn lemma_aside(place: Seq<Seq<char>>, tokens: Seq<Seq<char>>, token: Seq<char>)
    ensures
        leads_to(place.push(token), tokens) <==> leads_to(place, tokens) && place.len() < tokens.len()
            && tokens[place.len() as int] == token,
{
    let below = place.push(token);
    let n = place.len() as int;
    if leads_to(below, tokens) {
        assert(tokens.take(n + 1)[n] == token);
        assert(tokens.take(n) =~= tokens.take(n + 1).take(n));
        assert(below.take(n) =~= place);
    }
    if leads_to(place, tokens) && place.len() < tokens.len() && tokens[n] == token {
        assert(tokens.take(n + 1) =~= tokens.take(n).push(token));
    }
}

proof fn lemma_members_beside(
    env: Env,
    j: int,
    dest: Dest,
    s: Seq<u8>,
    i: int,
    place: Seq<Seq<char>>,
    depth: int,
    first: bool,
    emitted: bool,
    satisfied: Seq<Seq<char>>,
    w: Walk,
)
    requires
        extracts_alone(env.ops, j, dest),
        members_aside(s, i, first, place, env.ops[j].tokens),
    ensures
        walk_members(env, s, i, place, depth, first, emitted, satisfied, w) matches Ok((e, n)) ==> same(
            w,
            n,
            dest,
        ),
    decreases s.len() - i, 2int,
{
    let tokens = env.ops[j].tokens;
    lemma_next_item(s, i, first, 0x7D);
    lemma_added_members_keep(env, place, satisfied, 0, emitted, w);
    if let Next::Item(q) = next_item(s, i, first, 0x7D) {
        lemma_string_end(s, q);
        if let Some(e) = string_end(s, q) {
            lemma_ws_end(s, e);
            if let (Some(key), Some(c)) = (key_text(s.subrange(q, e)), colon_end(s, e)) {
                lemma_aside(place, tokens, key);
                if tree_members(s, i, first) is Some {
                    let members = (tree_members(s, i, first)->0).1;
                    assert(members[0] == (s.subrange(q, e), (tree_value(s, c)->0).1));
                }
                lemma_member_beside(env, j, dest, s, q, e, c, key, place, depth, emitted, satisfied, w);
                if let Ok((v, now, kept, n)) = walk_member(
                    env,
                    s,
                    q,
                    e,
                    c,
                    key,
                    place,
                    depth,
                    emitted,
                    satisfied,
                    w,
                ) {
                    lemma_value_tree(s, c, depth);
                    if c < v <= s.len() {
                        if tree_members(s, i, first) is Some {
                            let members = (tree_members(s, i, first)->0).1;
                            let rest = (tree_members(s, v, false)->0).1;
                            assert forall|k: int| 0 <= k < rest.len() implies #[trigger] rest[k]
                                == members[k + 1] by {}
                        }
                        lemma_members_beside(env, j, dest, s, v, place, depth, false, now, kept, n);
                    }
                }
            }
        }
    }
}

proof fn lemma_member_beside(
    env: Env,
    j: int,
    dest: Dest,
    s: Seq<u8>,
    q: int,
    e: int,
    c: int,
    key: Seq<char>,
    place: Seq<Seq<char>>,
    depth: int,
    emitted: bool,
    satisfied: Seq<Seq<char>>,
    w: Walk,
)
    requires
        extracts_alone(env.ops, j, dest),
        !leads_to(place.push(key), env.ops[j].tokens),
    ensures
        walk_member(env, s, q, e, c, key, place, depth, emitted, satisfied, w) matches Ok((v, _, _, n))
            ==> same(w, n, dest) && value_end(s, c, depth) is Ok && value_end(s, c, depth)->Ok_0 == v,
    decreases s.len() - c, 1int,
{
    let below = place.push(key);
    let tokens = env.ops[j].tokens;
    assert(tokens.take(tokens.len() as int) =~= tokens);
    let n = put(env, w, comma(emitted) + (s.subrange(q, e) + seq![0x3Au8]));
    if mutate_op(env.ops, below) is Some {
        if let Ok(v) = value_end(s, c, depth) {
            lemma_capture_at(env, j, dest, w, below, s.subrange(ws_end(s, c), v));
        }
    } else if touches(env.ops, below) {
        lemma_value_beside(env, j, dest, s, c, below, depth, n);
        law_only_json_is_walked(env, s, c, below, depth, n);
    }
}

proof fn lemma_element_beside(
    env: Env,
    j: int,
    dest: Dest,
    s: Seq<u8>,
    q: int,
    below: Seq<Seq<char>>,
    depth: int,
    emitted: bool,
    w: Walk,
)
    requires
        extracts_alone(env.ops, j, dest),
        !leads_to(below, env.ops[j].tokens),
    ensures
        walk_element(env, s, q, below, depth, emitted, w) matches Ok((v, _, n)) ==> same(w, n, dest)
            && value_end(s, q, depth) is Ok && value_end(s, q, depth)->Ok_0 == v,
    decreases s.len() - q, 1int,
{
    let tokens = env.ops[j].tokens;
    assert(tokens.take(tokens.len() as int) =~= tokens);
    let n = put(env, w, comma(emitted));
    if let Ok(v) = value_end(s, q, depth) {
        lemma_capture_at(env, j, dest, w, below, s.subrange(ws_end(s, q), v));
    }
    if touches(env.ops, below) {
        lemma_value_beside(env, j, dest, s, q, below, depth, n);
        law_only_json_is_walked(env, s, q, below, depth, n);
    }
}

proof fn lemma_elements_beside(
    env: Env,
    j: int,
    dest: Dest,
    s: Seq<u8>,
    i: int,
    place: Seq<Seq<char>>,
    depth: int,
    idx: int,
    emitted: bool,
    w: Walk,
)
    requires
        0 <= idx,
        extracts_alone(env.ops, j, dest),
        elements_aside(idx, place, env.ops[j].tokens),
    ensures
        walk_elements(env, s, i, place, depth, idx, emitted, w) matches Ok((e, n)) ==> same(w, n, dest),
    decreases s.len() - i, 2int,
{
    let tokens = env.ops[j].tokens;
    let token = decimal(idx as nat);
    lemma_next_item(s, i, idx == 0, 0x5D);
    let (e1, w1) = added_before(env, place, token, emitted, w);
    let (e2, w2) = added_behind(env, place, e1, w1);
    if let Next::Item(q) = next_item(s, i, idx == 0, 0x5D) {
        lemma_aside(place, tokens, token);
        lemma_element_beside(env, j, dest, s, q, place.push(token), depth, e1, w1);
        if let Ok((v, now, n)) = walk_element(env, s, q, place.push(token), depth, e1, w1) {
            if q < v <= s.len() {
                lemma_elements_beside(env, j, dest, s, v, place, depth, idx + 1, now, n);
            }
        }
    }
}

/// On the way to the pointer the value there is captured.
proof fn lemma_value_captured(
    env: Env,
    j: int,
    dest: Dest,
    text: Seq<u8>,
    s: Seq<u8>,
    i: int,
    place: Seq<Seq<char>>,
    depth: int,
    w: Walk,
)
    requires
        extracts_alone(env.ops, j, dest),
        leads_to(place, env.ops[j].tokens),
        tree_value(s, i) matches Some((_, tree)) && stands_at(
            tree,
            env.ops[j].tokens.skip(place.len() as int),
            text,
        ),
    ensures
        walk_value(env, s, i, place, depth, w) matches Ok((e, n)) ==> holds(n, dest, text),
    decreases s.len() - i, 0int,
{
    let tokens = env.ops[j].tokens;
    let rest = tokens.skip(place.len() as int);
    let tree = (tree_value(s, i)->0).1;
    let k = ws_end(s, i);
    lemma_ws_end(s, i);
    lemma_value_tree(s, i, depth);
    law_only_json_is_walked(env, s, i, place, depth, w);
    assert(env.ops[j].reaches(place));
    assert(touches(env.ops, place));
    if rest.len() == 0 {
        assert(tokens.take(tokens.len() as int) =~= tokens);
        if let Ok((e, n)) = walk_value(env, s, i, place, depth, w) {
            lemma_capture_at(env, j, dest, put(env, w, s.subrange(ws_end(s, k), e)), place, s.subrange(k, e));
        }
    } else {
        assert(place != tokens);
        assert(rest.drop_first() =~= tokens.skip(place.len() as int + 1));
        match tree {
            Tree::Scalar(_) => {},
            Tree::Object(members) => {
                let m = choose|m: int| #[trigger]
                    is_last(members, m, rest[0]) && stands_at(members[m].1, rest.drop_first(), text);
                lemma_members_captured(
                    env,
                    j,
                    dest,
                    text,
                    s,
                    k + 1,
                    place,
                    depth + 1,
                    true,
                    false,
                    Seq::empty(),
                    put(env, w, seq![0x7Bu8]),
                    m,
                );
            },
            Tree::Array(elements) => {
                let m = choose|m: int|
                    0 <= m < elements.len() && rest[0] == decimal(m as nat) && stands_at(
                        #[trigger] elements[m],
                        rest.drop_first(),
                        text,
                    );
                lemma_elements_captured(
                    env,
                    j,
                    dest,
                    text,
                    s,
                    k + 1,
                    place,
                    depth + 1,
                    0,
                    false,
                    put(env, w, seq![0x5Bu8]),
                    m,
                );
            },
        }
        if let Ok((e, n)) = walk_value(env, s, i, place, depth, w) {
            let json = s.subrange(k, e);
            assert forall|m: Walk| n == #[trigger] capture(env, m, place, json) implies same(m, n, dest) by {
                lemma_capture_at(env, j, dest, m, place, json);
            }
        }
    }
}

/// A member ends where its value does.
proof fn lemma_member_end(
    env: Env,
    s: Seq<u8>,
    q: int,
    e: int,
    c: int,
    key: Seq<char>,
    place: Seq<Seq<char>>,
    depth: int,
    emitted: bool,
    satisfied: Seq<Seq<char>>,
    w: Walk,
)
    ensures
        walk_member(env, s, q, e, c, key, place, depth, emitted, satisfied, w) matches Ok((v, _, _, _))
            ==> value_end(s, c, depth) is Ok && value_end(s, c, depth)->Ok_0 == v,
{
    let below = place.push(key);
    let n = put(env, w, comma(emitted) + (s.subrange(q, e) + seq![0x3Au8]));
    law_only_json_is_walked(env, s, c, below, depth, n);
}

proof fn lemma_members_captured(
    env: Env,
    j: int,
    dest: Dest,
    text: Seq<u8>,
    s: Seq<u8>,
    i: int,
    place: Seq<Seq<char>>,
    depth: int,
    first: bool,
    emitted: bool,
    satisfied: Seq<Seq<char>>,
    w: Walk,
    m: int,
)
    requires
        extracts_alone(env.ops, j, dest),
        leads_to(place, env.ops[j].tokens),
        place.len() < env.ops[j].tokens.len(),
        tree_members(s, i, first) matches Some((_, members)) && is_last(
            members,
            m,
            env.ops[j].tokens[place.len() as int],
        ) && stands_at(members[m].1, env.ops[j].tokens.skip(place.len() as int + 1), text),
    ensures
        walk_members(env, s, i, place, depth, first, emitted, satisfied, w) matches Ok((e, n)) ==> holds(
            n,
            dest,
            text,
        ),
    decreases s.len() - i, 2int,
{
    let tokens = env.ops[j].tokens;
    let name = tokens[place.len() as int];
    let members = (tree_members(s, i, first)->0).1;
    lemma_next_item(s, i, first, 0x7D);
    if let Next::Item(q) = next_item(s, i, first, 0x7D) {
        lemma_string_end(s, q);
        if let Some(e) = string_end(s, q) {
            lemma_ws_end(s, e);
            if let (Some(key), Some(c)) = (key_text(s.subrange(q, e)), colon_end(s, e)) {
                lemma_aside(place, tokens, key);
                assert(members[0] == (s.subrange(q, e), (tree_value(s, c)->0).1));
                if m == 0 {
                    lemma_member_captured(
                        env,
                        j,
                        dest,
                        text,
                        s,
                        q,
                        e,
                        c,
                        key,
                        place,
                        depth,
                        emitted,
                        satisfied,
                        w,
                    );
                } else {
                    lemma_member_end(env, s, q, e, c, key, place, depth, emitted, satisfied, w);
                }
                if let Ok((v, now, kept, n)) = walk_member(
                    env,
                    s,
                    q,
                    e,
                    c,
                    key,
                    place,
                    depth,
                    emitted,
                    satisfied,
                    w,
                ) {
                    lemma_value_tree(s, c, depth);
                    if c < v <= s.len() {
                        let rest = (tree_members(s, v, false)->0).1;
                        assert forall|k: int| 0 <= k < rest.len() implies #[trigger] rest[k]
                            == members[k + 1] by {}
                        if m == 0 {
                            assert(members_aside(s, v, false, place, tokens));
                            lemma_members_beside(env, j, dest, s, v, place, depth, false, now, kept, n);
                        } else {
                            assert(is_last(rest, m - 1, name));
                            lemma_members_captured(
                                env,
                                j,
                                dest,
                                text,
                                s,
                                v,
                                place,
                                depth,
                                false,
                                now,
                                kept,
                                n,
                                m - 1,
                            );
                        }
                    }
                }
            }
        }
    }
}

proof fn lemma_member_captured(
    env: Env,
    j: int,
    dest: Dest,
    text: Seq<u8>,
    s: Seq<u8>,
    q: int,
    e: int,
    c: int,
    key: Seq<char>,
    place: Seq<Seq<char>>,
    depth: int,
    emitted: bool,
    satisfied: Seq<Seq<char>>,
    w: Walk,
)
    requires
        extracts_alone(env.ops, j, dest),
        leads_to(place.push(key), env.ops[j].tokens),
        tree_value(s, c) matches Some((_, tree)) && stands_at(
            tree,
            env.ops[j].tokens.skip(place.len() as int + 1),
            text,
        ),
    ensures
        walk_member(env, s, q, e, c, key, place, depth, emitted, satisfied, w) matches Ok((v, _, _, n))
            ==> holds(n, dest, text) && value_end(s, c, depth) is Ok && value_end(s, c, depth)->Ok_0 == v,
    decreases s.len() - c, 1int,
{
    let below = place.push(key);
    let tokens = env.ops[j].tokens;
    let n = put(env, w, comma(emitted) + (s.subrange(q, e) + seq![0x3Au8]));
    lemma_mutate_found(env.ops, below);
    lemma_value_tree(s, c, depth);
    lemma_ws_end(s, c);
    if mutate_op(env.ops, below) is Some {
        let i = mutate_op(env.ops, below)->0;
        assert(env.ops[i].tokens == below);
        assert(below.len() == tokens.len());
        assert(tokens.take(tokens.len() as int) =~= tokens);
        assert(tokens.skip(place.len() as int + 1).len() == 0);
        if let Ok(v) = value_end(s, c, depth) {
            lemma_capture_at(env, j, dest, w, below, s.subrange(ws_end(s, c), v));
        }
    } else {
        assert(env.ops[j].reaches(below));
        lemma_value_captured(env, j, dest, text, s, c, below, depth, n);
        law_only_json_is_walked(env, s, c, below, depth, n);
    }
}

proof fn lemma_element_captured(
    env: Env,
    j: int,
    dest: Dest,
    text: Seq<u8>,
    s: Seq<u8>,
    q: int,
    below: Seq<Seq<char>>,
    depth: int,
    emitted: bool,
    w: Walk,
)
    requires
        extracts_alone(env.ops, j, dest),
        leads_to(below, env.ops[j].tokens),
        tree_value(s, q) matches Some((_, tree)) && stands_at(
            tree,
            env.ops[j].tokens.skip(below.len() as int),
            text,
        ),
    ensures
        walk_element(env, s, q, below, depth, emitted, w) matches Ok((v, _, n)) ==> holds(n, dest, text)
            && value_end(s, q, depth) is Ok && value_end(s, q, depth)->Ok_0 == v,
    decreases s.len() - q, 1int,
{
    let tokens = env.ops[j].tokens;
    let n = put(env, w, comma(emitted));
    lemma_mutate_found(env.ops, below);
    lemma_value_tree(s, q, depth);
    lemma_ws_end(s, q);
    if mutate_op(env.ops, below) matches Some(i) && env.ops[i].kind != OpKind::Add {
        let i = mutate_op(env.ops, below)->0;
        assert(env.ops[i].tokens == below);
        assert(below.len() == tokens.len());
        assert(tokens.take(tokens.len() as int) =~= tokens);
        assert(tokens.skip(below.len() as int).len() == 0);
        if let Ok(v) = value_end(s, q, depth) {
            lemma_capture_at(env, j, dest, w, below, s.subrange(ws_end(s, q), v));
        }
    } else {
        assert(env.ops[j].reaches(below));
        lemma_value_captured(env, j, dest, text, s, q, below, depth, n);
        law_only_json_is_walked(env, s, q, below, depth, n);
    }
}

proof fn lemma_elements_captured(
    env: Env,
    j: int,
    dest: Dest,
    text: Seq<u8>,
    s: Seq<u8>,
    i: int,
    place: Seq<Seq<char>>,
    depth: int,
    idx: int,
    emitted: bool,
    w: Walk,
    m: int,
)
    requires
        0 <= idx,
        extracts_alone(env.ops, j, dest),
        leads_to(place, env.ops[j].tokens),
        place.len() < env.ops[j].tokens.len(),
        tree_elements(s, i, idx == 0) matches Some((_, elements)) && 0 <= m < elements.len()
            && env.ops[j].tokens[place.len() as int] == decimal((idx + m) as nat) && stands_at(
            elements[m],
            env.ops[j].tokens.skip(place.len() as int + 1),
            text,
        ),
    ensures
        walk_elements(env, s, i, place, depth, idx, emitted, w) matches Ok((e, n)) ==> holds(n, dest, text),
    decreases s.len() - i, 2int,
{
    let tokens = env.ops[j].tokens;
    let token = decimal(idx as nat);
    let below = place.push(token);
    let elements = (tree_elements(s, i, idx == 0)->0).1;
    lemma_next_item(s, i, idx == 0, 0x5D);
    let (e1, w1) = added_before(env, place, token, emitted, w);
    let (e2, w2) = added_behind(env, place, e1, w1);
    if let Next::Item(q) = next_item(s, i, idx == 0, 0x5D) {
        lemma_aside(place, tokens, token);
        lemma_decimals(idx as nat, (idx + m) as nat);
        assert(elements[0] == (tree_value(s, q)->0).1);
        if m == 0 {
            lemma_element_captured(env, j, dest, text, s, q, below, depth, e1, w1);
        } else {
            lemma_element_beside(env, j, dest, s, q, below, depth, e1, w1);
        }
        if let Ok((v, now, n)) = walk_element(env, s, q, below, depth, e1, w1) {
            lemma_value_tree(s, q, depth);
            if q < v <= s.len() {
                let rest = (tree_elements(s, v, false)->0).1;
                assert forall|k: int| 0 <= k < rest.len() implies #[trigger] rest[k] == elements[k + 1] by {}
                if m == 0 {
                    assert forall|k: int| idx + 1 <= k implies tokens[place.len() as int]
                        != #[trigger] decimal(k as nat) by {
                        lemma_decimals(idx as nat, k as nat);
                    }
                    lemma_elements_beside(env, j, dest, s, v, place, depth, idx + 1, now, n);
                } else {
                    assert(rest[m - 1] == elements[m]);
                    lemma_elements_captured(env, j, dest, text, s, v, place, depth, idx + 1, now, n, m - 1);
                }
            }
        }
    }
}

pub proof fn lemma_decimals(a: nat, b: nat)
    ensures
        decimal(a) == decimal(b) <==> a == b,
{
    lemma_decimal_round_trip(a);
    lemma_decimal_round_trip(b);
}

proof fn lemma_document_captured(env: Env, j: int, dest: Dest, text: Seq<u8>, s: Seq<u8>)
    requires
        extracts_alone(env.ops, j, dest),
        tree_document(s) matches Some(tree) && stands_at(tree, env.ops[j].tokens, text),
    ensures
        walk_document(env, s) matches Ok(w) ==> holds(w, dest, text),
{
    let i = ws_end(s, bom_len(s));
    let tokens = env.ops[j].tokens;
    lemma_ws_end(s, bom_len(s));
    lemma_ws_stays(s, bom_len(s));
    lemma_root(env.ops, 0);
    if tokens.len() > 0 {
        if let Some(r) = root_replace_op(env.ops, 0) {
            assert(env.ops[r].kind == OpKind::Replace);
            assert(tokens.take(0) =~= env.ops[r].tokens);
        }
    }
    assert(tree_value(s, i) == tree_value(s, bom_len(s)));
    assert(tokens.skip(0) =~= tokens);
    assert(tokens.take(0) =~= Seq::<Seq<char>>::empty());
    lemma_value_captured(env, j, dest, text, s, i, Seq::empty(), 0, start(env));
}

proof fn lemma_root(ops: Seq<Op>, j: int)
    requires
        0 <= j,
    ensures
        root_replace_op(ops, j) matches Some(r) ==> 0 <= r < ops.len() && ops[r].kind == OpKind::Replace
            && ops[r].tokens.len() == 0,
    decreases ops.len() - j,
{
    if j < ops.len() {
        lemma_root(ops, j + 1);
    }
}

/// The text of a captured string is the text that the string denotes: the JSON
/// string of a text gives the text back, if `serde_json` reads it as it wrote it.
pub proof fn law_captured_text(t: Seq<char>)
    requires
        json_string_decoded(json_string(t)) == Some(t),
    ensures
        metadata_text(json_string(t)) == Some(t),
{
    law_json_string_is_string(t);
}

/// A captured value that is no string is kept as it is written.
pub proof fn law_captured_source(t: Seq<char>)
    requires
        t.len() > 0,
        t[0] != '"',
    ensures
        metadata_text(encode_utf8(t)) == Some(t),
{
    encode_utf8_valid_utf8(t);
    encode_utf8_decode_utf8(t);
    lemma_first_byte(t[0]);
    assert(encode_utf8(t) == encode_scalar(t[0] as u32) + encode_utf8(t.drop_first()));
}

proof fn lemma_first_byte(c: char)
    requires
        c != '"',
    ensures
        encode_scalar(c as u32).len() > 0,
        encode_scalar(c as u32)[0] != 0x22,
{
    let v: u32 = c as u32;
    assert(v <= 0x7F ==> (v & 0x7F) as u8 == v) by (bit_vector);
    assert(0xC0u8 | ((v >> 6) & 0x1F) as u8 >= 0x80) by (bit_vector);
    assert(0xE0u8 | ((v >> 12) & 0x0F) as u8 >= 0x80) by (bit_vector);
    assert(0xF0u8 | ((v >> 18) & 0x7) as u8 >= 0x80) by (bit_vector);
}

/// Extracting from a document with the JSON string of a text at the pointer
/// leaves exactly that text under the metadata key.
pub proof fn law_extracted_text(env: Env, j: int, key: Seq<char>, t: Seq<char>, s: Seq<u8>)
    requires
        extracts_alone(env.ops, j, Dest::Metadata(key)),
        tree_document(s) matches Some(tree) && stands_at(tree, env.ops[j].tokens, json_string(t)),
        json_string_decoded(json_string(t)) == Some(t),
    ensures
        walk_document(env, s) matches Ok(w) ==> w.meta.contains_key(key) && w.meta[key] == t,
{
    law_captured_text(t);
    lemma_document_captured(env, j, Dest::Metadata(key), json_string(t), s);
}

/// Extracting from a document with a number or a literal at the pointer leaves
/// it as it is written under the metadata key.
pub proof fn law_extracted_source(env: Env, j: int, key: Seq<char>, t: Seq<char>, s: Seq<u8>)
    requires
        extracts_alone(env.ops, j, Dest::Metadata(key)),
        t.len() > 0,
        t[0] != '"',
        tree_document(s) matches Some(tree) && stands_at(tree, env.ops[j].tokens, encode_utf8(t)),
    ensures
        walk_document(env, s) matches Ok(w) ==> w.meta.contains_key(key) && w.meta[key] == t,
{
    law_captured_source(t);
    lemma_document_captured(env, j, Dest::Metadata(key), encode_utf8(t), s);
}

/// Structured metadata gets the string, number or literal at the pointer as it
/// is written.
pub proof fn law_extracted_json(
    env: Env,
    j: int,
    ns: Seq<char>,
    key: Seq<char>,
    text: Seq<u8>,
    s: Seq<u8>,
)
    requires
        extracts_alone(env.ops, j, Dest::Structured(ns, key)),
        tree_document(s) matches Some(tree) && stands_at(tree, env.ops[j].tokens, text),
    ensures
        walk_document(env, s) matches Ok(w) ==> w.captured.contains_key((ns, key)) && w.captured[(ns, key)]
            == text,
{
    lemma_document_captured(env, j, Dest::Structured(ns, key), text, s);
}

} // verus!
