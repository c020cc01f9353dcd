//! The value that a JSON text stands for, apart from its whitespace.

use vstd::prelude::*;

use crate::json_body::error::{RewriteError, MAX_JSON_DEPTH};
use crate::json_body::grammar::{is_member, is_string, is_value, lemma_array_is_value, lemma_elements_close, lemma_elements_depth, lemma_key_step, lemma_members_close, lemma_members_depth, lemma_narrower_next, lemma_narrower_scalar, lemma_narrower_string, lemma_narrower_ws, lemma_object_is_value, lemma_run_starts, lemma_value_and_tail, lemma_value_depth, lemma_value_opens, lemma_wider_elements, lemma_wider_value, lemma_ws_stays, delimited, member, run, stands_in};
use crate::json_body::output::{all_members, all_values, array_text, member_texts, object_text};
use crate::json_body::scan::{bom_len, byte_at, colon_end, elements_end, lemma_next_item, lemma_scalar_end, lemma_string_end, lemma_value_end, lemma_ws_end, members_end, next_item, scalar_end, string_end, value_end, ws_end, Next};
use crate::json_body::walk::comma;

verus! {

/// A JSON value: strings, numbers and literals as they are written, the members
/// of objects by their key strings and in their order, and the elements of arrays.
pub enum Tree {
    Scalar(Seq<u8>),
    Object(Seq<(Seq<u8>, Tree)>),
    Array(Seq<Tree>),
}

/// The value at `i`, and the position behind it.
pub open spec fn tree_value(s: Seq<u8>, i: int) -> Option<(int, Tree)>
    decreases s.len() - i, 0int,
{
    let k = ws_end(s, i);
    proof {
        lemma_ws_end(s, i);
    }
    if byte_at(s, k) == Some(0x7Bu8) {
        match tree_members(s, k + 1, true) {
            Some((e, members)) => Some((e, Tree::Object(members))),
            None => None,
        }
    } else if byte_at(s, k) == Some(0x5Bu8) {
        match tree_elements(s, k + 1, true) {
            Some((e, elements)) => Some((e, Tree::Array(elements))),
            None => None,
        }
    } else {
        match scalar_end(s, k) {
            Some(e) => Some((e, Tree::Scalar(s.subrange(k, e)))),
            None => None,
        }
    }
}

/// The members of an object from `i` on, and the position behind the object.
pub open spec fn tree_members(s: Seq<u8>, i: int, first: bool) -> Option<(int, Seq<(Seq<u8>, Tree)>)>
    decreases s.len() - i, 2int,
{
    proof {
        lemma_next_item(s, i, first, 0x7D);
    }
    match next_item(s, i, first, 0x7D) {
        Next::Bad => None,
        Next::Close(e) => Some((e, Seq::empty())),
        Next::Item(q) => {
            proof {
                lemma_string_end(s, q);
            }
            match string_end(s, q) {
                None => None,
                Some(e) => {
                    proof {
                        lemma_ws_end(s, e);
                    }
                    match colon_end(s, e) {
                        None => None,
                        Some(c) => match tree_value(s, c) {
                            None => None,
                            Some((v, tree)) => if c < v <= s.len() {
                                match tree_members(s, v, false) {
                                    None => None,
                                    Some((end, rest)) => Some(
                                        (end, seq![(s.subrange(q, e), tree)] + rest),
                                    ),
                                }
                            } else {
                                None
                            },
                        },
                    }
                },
            }
        },
    }
}

/// The elements of an array from `i` on, and the position behind the array.
pub open spec fn tree_elements(s: Seq<u8>, i: int, first: bool) -> Option<(int, Seq<Tree>)>
    decreases s.len() - i, 2int,
{
    proof {
        lemma_next_item(s, i, first, 0x5D);
    }
    match next_item(s, i, first, 0x5D) {
        Next::Bad => None,
        Next::Close(e) => Some((e, Seq::empty())),
        Next::Item(q) => match tree_value(s, q) {
            None => None,
            Some((v, tree)) => if q < v <= s.len() {
                match tree_elements(s, v, false) {
                    None => None,
                    Some((end, rest)) => Some((end, seq![tree] + rest)),
                }
            } else {
                None
            },
        },
    }
}

/// The value of a document, which may have a byte order mark before it and
/// whitespace around it.
pub open spec fn tree_document(s: Seq<u8>) -> Option<Tree> {
    match tree_value(s, bom_len(s)) {
        Some((e, tree)) => if ws_end(s, e) == s.len() {
            Some(tree)
        } else {
            None
        },
        None => None,
    }
}

/// Whether a value may stand inside `depth` containers.
pub open spec fn fits(tree: Tree, depth: int) -> bool
    decreases tree,
{
    match tree {
        Tree::Scalar(_) => true,
        Tree::Object(members) => depth + 1 <= MAX_JSON_DEPTH && forall|k: int|
            0 <= k < members.len() ==> fits((#[trigger] members[k]).1, depth + 1),
        Tree::Array(elements) => depth + 1 <= MAX_JSON_DEPTH && forall|k: int|
            0 <= k < elements.len() ==> fits(#[trigger] elements[k], depth + 1),
    }
}

pub open spec fn members_fit(members: Seq<(Seq<u8>, Tree)>, depth: int) -> bool {
    forall|k: int| 0 <= k < members.len() ==> fits((#[trigger] members[k]).1, depth)
}

pub open spec fn elements_fit(elements: Seq<Tree>, depth: int) -> bool {
    forall|k: int| 0 <= k < elements.len() ==> fits(#[trigger] elements[k], depth)
}

proof fn lemma_members_fit(m: (Seq<u8>, Tree), rest: Seq<(Seq<u8>, Tree)>, depth: int)
    ensures
        members_fit(seq![m] + rest, depth) <==> fits(m.1, depth) && members_fit(rest, depth),
{
    let all = seq![m] + rest;
    if members_fit(all, depth) {
        assert(all[0] == m);
        assert forall|k: int| 0 <= k < rest.len() implies fits((#[trigger] rest[k]).1, depth) by {
            assert(all[k + 1] == rest[k]);
        }
    }
    if fits(m.1, depth) && members_fit(rest, depth) {
        assert forall|k: int| 0 <= k < all.len() implies fits((#[trigger] all[k]).1, depth) by {
            if k > 0 {
                assert(all[k] == rest[k - 1]);
            }
        }
    }
}

proof fn lemma_elements_fit(x: Tree, rest: Seq<Tree>, depth: int)
    ensures
        elements_fit(seq![x] + rest, depth) <==> fits(x, depth) && elements_fit(rest, depth),
{
    let all = seq![x] + rest;
    if elements_fit(all, depth) {
        assert(all[0] == x);
        assert forall|k: int| 0 <= k < rest.len() implies fits(#[trigger] rest[k], depth) by {
            assert(all[k + 1] == rest[k]);
        }
    }
    if fits(x, depth) && elements_fit(rest, depth) {
        assert forall|k: int| 0 <= k < all.len() implies fits(#[trigger] all[k], depth) by {
            if k > 0 {
                assert(all[k] == rest[k - 1]);
            }
        }
    }
}

/// A text is scanned as a value just where it stands for one that fits.
pub proof fn lemma_value_tree(s: Seq<u8>, i: int, depth: int)
    ensures
        value_end(s, i, depth) matches Ok(e) ==> tree_value(s, i) matches Some((v, tree)) && v == e
            && fits(tree, depth),
        tree_value(s, i) matches Some((v, tree)) ==> fits(tree, depth) ==> value_end(s, i, depth)
            == Ok::<int, RewriteError>(v),
    decreases s.len() - i, 0int,
{
    let k = ws_end(s, i);
    lemma_ws_end(s, i);
    if byte_at(s, k) == Some(0x7Bu8) {
        lemma_members_tree(s, k + 1, depth + 1, true);
    } else if byte_at(s, k) == Some(0x5Bu8) {
        lemma_elements_tree(s, k + 1, depth + 1, true);
    }
}

pub proof fn lemma_members_tree(s: Seq<u8>, i: int, depth: int, first: bool)
    ensures
        members_end(s, i, depth, first) matches Ok(e) ==> tree_members(s, i, first) matches Some(
            (v, members),
        ) && v == e && members_fit(members, depth),
        tree_members(s, i, first) matches Some((v, members)) ==> members_fit(members, depth)
            ==> members_end(s, i, depth, first) == Ok::<int, RewriteError>(v),
    decreases s.len() - i, 2int,
{
    lemma_next_item(s, i, first, 0x7D);
    if let Next::Item(q) = next_item(s, i, first, 0x7D) {
        lemma_string_end(s, q);
        if let Some(e) = string_end(s, q) {
            lemma_ws_end(s, e);
            if let Some(c) = colon_end(s, e) {
                lemma_value_tree(s, c, depth);
                if let Some((v, tree)) = tree_value(s, c) {
                    if c < v <= s.len() {
                        lemma_members_tree(s, v, depth, false);
                        if let Some((_, rest)) = tree_members(s, v, false) {
                            lemma_members_fit((s.subrange(q, e), tree), rest, depth);
                        }
                    }
                }
            }
        }
    }
}

pub proof fn lemma_elements_tree(s: Seq<u8>, i: int, depth: int, first: bool)
    ensures
        elements_end(s, i, depth, first) matches Ok(e) ==> tree_elements(s, i, first) matches Some(
            (v, elements),
        ) && v == e && elements_fit(elements, depth),
        tree_elements(s, i, first) matches Some((v, elements)) ==> elements_fit(elements, depth)
            ==> elements_end(s, i, depth, first) == Ok::<int, RewriteError>(v),
    decreases s.len() - i, 2int,
{
    lemma_next_item(s, i, first, 0x5D);
    if let Next::Item(q) = next_item(s, i, first, 0x5D) {
        lemma_value_tree(s, q, depth);
        if let Some((v, tree)) = tree_value(s, q) {
            if q < v <= s.len() {
                lemma_elements_tree(s, v, depth, false);
                if let Some((_, rest)) = tree_elements(s, v, false) {
                    lemma_elements_fit(tree, rest, depth);
                }
            }
        }
    }
}

proof fn lemma_tree_end(s: Seq<u8>, i: int)
    requires
        0 <= i <= s.len(),
    ensures
        tree_value(s, i) matches Some((e, _)) ==> i < e <= s.len(),
    decreases s.len() - i, 0int,
{
    let k = ws_end(s, i);
    lemma_ws_end(s, i);
    if byte_at(s, k) == Some(0x7Bu8) {
        lemma_tree_members_end(s, k + 1, true);
    } else if byte_at(s, k) == Some(0x5Bu8) {
        lemma_tree_elements_end(s, k + 1, true);
    } else {
        lemma_scalar_end(s, k);
    }
}

proof fn lemma_tree_members_end(s: Seq<u8>, i: int, first: bool)
    requires
        0 <= i <= s.len(),
    ensures
        tree_members(s, i, first) matches Some((e, _)) ==> i < e <= s.len(),
    decreases s.len() - i, 2int,
{
    lemma_next_item(s, i, first, 0x7D);
    if let Next::Item(q) = next_item(s, i, first, 0x7D) {
        lemma_string_end(s, q);
        if let Some(e) = string_end(s, q) {
            lemma_ws_end(s, e);
            if let Some(c) = colon_end(s, e) {
                if let Some((v, _)) = tree_value(s, c) {
                    if c < v <= s.len() {
                        lemma_tree_members_end(s, v, false);
                    }
                }
            }
        }
    }
}

proof fn lemma_tree_elements_end(s: Seq<u8>, i: int, first: bool)
    requires
        0 <= i <= s.len(),
    ensures
        tree_elements(s, i, first) matches Some((e, _)) ==> i < e <= s.len(),
    decreases s.len() - i, 2int,
{
    lemma_next_item(s, i, first, 0x5D);
    if let Next::Item(q) = next_item(s, i, first, 0x5D) {
        if let Some((v, _)) = tree_value(s, q) {
            if q < v <= s.len() {
                lemma_tree_elements_end(s, v, false);
            }
        }
    }
}

/// A value that a part of a text holds is the same in that part.
pub proof fn lemma_narrower_tree(part: Seq<u8>, whole: Seq<u8>, o: int, i: int)
    requires
        stands_in(part, whole, o),
        0 <= i <= part.len(),
        tree_value(whole, i + o) matches Some((e, _)) && e <= part.len() + o,
    ensures
        ({
            let (e, tree) = tree_value(whole, i + o)->0;
            tree_value(part, i) == Some((e - o, tree))
        }),
    decreases part.len() - i, 0int,
{
    let k2 = ws_end(whole, i + o);
    let k = k2 - o;
    let (e, tree) = tree_value(whole, i + o)->0;
    lemma_ws_end(whole, i + o);
    if byte_at(whole, k2) == Some(0x7Bu8) {
        lemma_tree_members_end(whole, k2 + 1, true);
        lemma_narrower_ws(part, whole, o, i);
        assert(whole[k + o] == part[k]);
        lemma_narrower_tree_members(part, whole, o, k + 1, true);
    } else if byte_at(whole, k2) == Some(0x5Bu8) {
        lemma_tree_elements_end(whole, k2 + 1, true);
        lemma_narrower_ws(part, whole, o, i);
        assert(whole[k + o] == part[k]);
        lemma_narrower_tree_elements(part, whole, o, k + 1, true);
    } else {
        lemma_scalar_end(whole, k2);
        lemma_narrower_ws(part, whole, o, i);
        assert(whole[k + o] == part[k]);
        lemma_narrower_scalar(part, whole, o, k);
        lemma_same_span(part, whole, o, k, e - o);
    }
}

proof fn lemma_same_span(part: Seq<u8>, whole: Seq<u8>, o: int, i: int, e: int)
    requires
        stands_in(part, whole, o),
        0 <= i <= e <= part.len(),
    ensures
        part.subrange(i, e) == whole.subrange(i + o, e + o),
{
    let a = part.subrange(i, e);
    let b = whole.subrange(i + o, e + o);
    assert forall|k: int| 0 <= k < a.len() implies a[k] == b[k] by {
        assert(whole[i + k + o] == part[i + k]);
    }
    assert(a =~= b);
}

proof fn lemma_narrower_tree_members(part: Seq<u8>, whole: Seq<u8>, o: int, i: int, first: bool)
    requires
        stands_in(part, whole, o),
        0 <= i <= part.len(),
        tree_members(whole, i + o, first) matches Some((e, _)) && e <= part.len() + o,
    ensures
        ({
            let (e, members) = tree_members(whole, i + o, first)->0;
            tree_members(part, i, first) == Some((e - o, members))
        }),
    decreases part.len() - i, 2int,
{
    lemma_next_item(whole, i + o, first, 0x7D);
    if let Next::Item(q2) = next_item(whole, i + o, first, 0x7D) {
        lemma_string_end(whole, q2);
        let e2 = string_end(whole, q2)->0;
        lemma_ws_end(whole, e2);
        let c2 = colon_end(whole, e2)->0;
        let (v2, _) = tree_value(whole, c2)->0;
        lemma_tree_members_end(whole, v2, false);
        lemma_narrower_next(part, whole, o, i, first, 0x7D);
        lemma_narrower_string(part, whole, o, q2 - o);
        lemma_narrower_ws(part, whole, o, e2 - o);
        let k = ws_end(whole, e2) - o;
        assert(whole[k + o] == part[k]);
        assert(colon_end(part, e2 - o) == Some(c2 - o));
        lemma_same_span(part, whole, o, q2 - o, e2 - o);
        lemma_narrower_tree(part, whole, o, c2 - o);
        lemma_narrower_tree_members(part, whole, o, v2 - o, false);
    } else {
        lemma_narrower_next(part, whole, o, i, first, 0x7D);
    }
}

proof fn lemma_narrower_tree_elements(part: Seq<u8>, whole: Seq<u8>, o: int, i: int, first: bool)
    requires
        stands_in(part, whole, o),
        0 <= i <= part.len(),
        tree_elements(whole, i + o, first) matches Some((e, _)) && e <= part.len() + o,
    ensures
        ({
            let (e, elements) = tree_elements(whole, i + o, first)->0;
            tree_elements(part, i, first) == Some((e - o, elements))
        }),
    decreases part.len() - i, 2int,
{
    lemma_next_item(whole, i + o, first, 0x5D);
    if let Next::Item(q2) = next_item(whole, i + o, first, 0x5D) {
        let (v2, _) = tree_value(whole, q2)->0;
        lemma_tree_elements_end(whole, v2, false);
        lemma_narrower_next(part, whole, o, i, first, 0x5D);
        lemma_narrower_tree(part, whole, o, q2 - o);
        lemma_narrower_tree_elements(part, whole, o, v2 - o, false);
    } else {
        lemma_narrower_next(part, whole, o, i, first, 0x5D);
    }
}

/// The value that a text of its own stands for.
pub open spec fn tree_of(t: Seq<u8>) -> Tree {
    (tree_value(t, 0)->0).1
}

pub open spec fn member_trees(items: Seq<(Seq<u8>, Seq<u8>)>) -> Seq<(Seq<u8>, Tree)> {
    items.map_values(|item: (Seq<u8>, Seq<u8>)| (item.0, tree_of(item.1)))
}

pub open spec fn element_trees(items: Seq<Seq<u8>>) -> Seq<Tree> {
    items.map_values(|item: Seq<u8>| tree_of(item))
}

/// A text that is one value stands for one.
pub proof fn lemma_tree_of(t: Seq<u8>)
    requires
        is_value(t),
    ensures
        tree_value(t, 0) == Some((t.len() as int, tree_of(t))),
{
    let depth = choose|depth: int| #[trigger]
        value_end(t, 0, depth) == Ok::<int, RewriteError>(t.len() as int);
    lemma_value_tree(t, 0, depth);
}

/// A value behind any text, and what is read behind it.
#[verifier::rlimit(60)]
#[verifier::spinoff_prover]
proof fn lemma_member_trees(text: Seq<u8>, value: Seq<u8>, tail: Seq<u8>, c: int, depth: int)
    requires
        0 <= c,
        stands_in(value, text, c),
        stands_in(tail, text, c + value.len()),
        text.len() == c + value.len() + tail.len(),
        is_value(value),
        value_end(text, c, depth) == Ok::<int, RewriteError>(c + value.len()),
        members_end(text, c + value.len(), depth, false) == Ok::<int, RewriteError>(
            text.len() as int,
        ),
        tree_members(tail, 0, false) is Some,
    ensures
        tree_value(text, c) == Some((c + value.len(), tree_of(value))),
        tree_members(text, c + value.len(), false) == Some(
            (text.len() as int, (tree_members(tail, 0, false)->0).1),
        ),
{
    lemma_value_tree(text, c, depth);
    lemma_narrower_tree(value, text, c, 0);
    lemma_members_tree(text, c + value.len(), depth, false);
    lemma_narrower_tree_members(tail, text, c + value.len(), 0, false);
}

/// Members that are written behind one another are read as they are.
proof fn lemma_run_members(items: Seq<(Seq<u8>, Seq<u8>)>, first: bool)
    requires
        all_members(items),
    ensures
        ({
            let text = run(member_texts(items), first) + seq![0x7Du8];
            tree_members(text, 0, first) == Some((text.len() as int, member_trees(items)))
        }),
    decreases items.len(),
{
    let text = run(member_texts(items), first) + seq![0x7Du8];
    if items.len() == 0 {
        assert(text[0] == 0x7D);
        assert(ws_end(text, 0) == 0);
        assert(member_trees(items) =~= Seq::empty());
    } else {
        let (key, value) = items[0];
        let rest = items.skip(1);
        assert forall|k: int| 0 <= k < rest.len() implies is_string((#[trigger] rest[k]).0) && is_value(
            rest[k].1,
        ) by {
            assert(rest[k] == items[k + 1]);
        }
        lemma_run_members(rest, false);
        assert(member_texts(items).skip(1) =~= member_texts(rest));
        assert(member_texts(items)[0] == member(key, value));
        let tail = run(member_texts(rest), false) + seq![0x7Du8];
        lemma_run_starts(member_texts(rest), 0x7D);
        assert(text =~= comma(!first) + member(key, value) + tail);
        lemma_one_member(key, value, tail, rest, first);
        assert(seq![(key, tree_of(value))] + member_trees(rest) =~= member_trees(items));
    }
}

/// A member is read, and so are the members behind it.
#[verifier::rlimit(60)]
#[verifier::spinoff_prover]
proof fn lemma_one_member(
    key: Seq<u8>,
    value: Seq<u8>,
    tail: Seq<u8>,
    rest: Seq<(Seq<u8>, Seq<u8>)>,
    first: bool,
)
    requires
        is_string(key),
        is_value(value),
        all_members(rest),
        tail == run(member_texts(rest), false) + seq![0x7Du8],
        tree_members(tail, 0, false) == Some((tail.len() as int, member_trees(rest))),
    ensures
        ({
            let text = comma(!first) + member(key, value) + tail;
            tree_members(text, 0, first) == Some(
                (text.len() as int, seq![(key, tree_of(value))] + member_trees(rest)),
            )
        }),
{
    let text = comma(!first) + member(key, value) + tail;
    let front = comma(!first) + key + seq![0x3Au8];
    let q = comma(!first).len() as int;
    let e = q + key.len();
    assert(text =~= front + value + tail);
    assert(text =~= front + (value + tail));
    assert(text.subrange(q, e) =~= key);
    lemma_behind(front, value, tail, rest);
    lemma_key_step(key, value + tail, first);
    lemma_string_end(key, 0);
    lemma_tree_of(value);
    lemma_tree_end(value, 0);
    lemma_members_of(text, first, q, e, e + 1, e + 1 + value.len());
}

/// A value and the members behind it are read behind any text.
#[verifier::rlimit(60)]
#[verifier::spinoff_prover]
proof fn lemma_behind(front: Seq<u8>, value: Seq<u8>, tail: Seq<u8>, rest: Seq<(Seq<u8>, Seq<u8>)>)
    requires
        is_value(value),
        all_members(rest),
        tail == run(member_texts(rest), false) + seq![0x7Du8],
        tree_members(tail, 0, false) is Some,
    ensures
        ({
            let text = front + value + tail;
            let c = front.len() as int;
            &&& tree_value(text, c) == Some((c + value.len(), tree_of(value)))
            &&& tree_members(text, c + value.len(), false) == Some(
                (text.len() as int, (tree_members(tail, 0, false)->0).1),
            )
        }),
{
    let text = front + value + tail;
    let c = front.len() as int;
    lemma_run_starts(member_texts(rest), 0x7D);
    let depth = lemma_common_depth(rest, value);
    lemma_value_and_tail(front, value, tail, depth);
    assert(stands_in(value, text, c));
    assert(stands_in(tail, text, c + value.len()));
    lemma_member_trees(text, value, tail, c, depth);
}

/// The members of an object, by its first one.
proof fn lemma_members_of(text: Seq<u8>, first: bool, q: int, e: int, c: int, v: int)
    requires
        next_item(text, 0, first, 0x7D) == Next::Item(q),
        string_end(text, q) == Some(e),
        colon_end(text, e) == Some(c),
        tree_value(text, c) matches Some((end, _)) && end == v,
        c < v <= text.len(),
        tree_members(text, v, false) is Some,
    ensures
        ({
            let (end, rest) = tree_members(text, v, false)->0;
            let (_, tree) = tree_value(text, c)->0;
            tree_members(text, 0, first) == Some((end, seq![(text.subrange(q, e), tree)] + rest))
        }),
{
}

/// How deeply a value and the members behind it may stand.
proof fn lemma_common_depth(rest: Seq<(Seq<u8>, Seq<u8>)>, value: Seq<u8>) -> (depth: int)
    requires
        all_members(rest),
        is_value(value),
    ensures
        value_end(value, 0, depth) == Ok::<int, RewriteError>(value.len() as int),
        ({
            let tail = run(member_texts(rest), false) + seq![0x7Du8];
            members_end(tail, 0, depth, false) == Ok::<int, RewriteError>(tail.len() as int)
        }),
{
    let texts = member_texts(rest);
    let tail = run(texts, false) + seq![0x7Du8];
    assert forall|k: int| 0 <= k < texts.len() implies is_member(#[trigger] texts[k]) by {
        assert(texts[k] == member(rest[k].0, rest[k].1));
    }
    lemma_members_close(texts, false);
    let found = choose|depth: int| #[trigger]
        members_end(tail, 0, depth, false) == Ok::<int, RewriteError>(tail.len() as int);
    let own = choose|depth: int| #[trigger]
        value_end(value, 0, depth) == Ok::<int, RewriteError>(value.len() as int);
    let depth = if found <= own {
        found
    } else {
        own
    };
    lemma_value_depth(value, 0, own, depth);
    lemma_members_depth(tail, 0, found, depth, false);
    depth
}

/// Elements that are written behind one another are read as they are.
proof fn lemma_run_elements(items: Seq<Seq<u8>>, first: bool)
    requires
        all_values(items),
    ensures
        ({
            let text = run(items, first) + seq![0x5Du8];
            tree_elements(text, 0, first) == Some((text.len() as int, element_trees(items)))
        }),
    decreases items.len(),
{
    let text = run(items, first) + seq![0x5Du8];
    if items.len() == 0 {
        assert(text[0] == 0x5D);
        assert(ws_end(text, 0) == 0);
        assert(element_trees(items) =~= Seq::empty());
    } else {
        let value = items[0];
        let rest = items.skip(1);
        assert forall|k: int| 0 <= k < rest.len() implies is_value(#[trigger] rest[k]) by {
            assert(rest[k] == items[k + 1]);
        }
        lemma_run_elements(rest, false);
        let tail = run(rest, false) + seq![0x5Du8];
        lemma_run_starts(rest, 0x5D);
        assert(text =~= comma(!first) + value + tail);
        lemma_element_trees(value, tail, rest, first);
        assert(seq![tree_of(value)] + element_trees(rest) =~= element_trees(items));
    }
}

#[verifier::rlimit(60)]
#[verifier::spinoff_prover]
proof fn lemma_element_trees(value: Seq<u8>, tail: Seq<u8>, rest: Seq<Seq<u8>>, first: bool)
    requires
        is_value(value),
        all_values(rest),
        tail == run(rest, false) + seq![0x5Du8],
        tree_elements(tail, 0, false) == Some((tail.len() as int, element_trees(rest))),
    ensures
        ({
            let text = comma(!first) + value + tail;
            tree_elements(text, 0, first) == Some(
                (text.len() as int, seq![tree_of(value)] + element_trees(rest)),
            )
        }),
{
    let text = comma(!first) + value + tail;
    let c = comma(!first).len() as int;
    let v = c + value.len();
    lemma_elements_close(rest, false);
    lemma_run_starts(rest, 0x5D);
    let found = choose|depth: int| #[trigger]
        elements_end(tail, 0, depth, false) == Ok::<int, RewriteError>(tail.len() as int);
    let own = choose|depth: int| #[trigger]
        value_end(value, 0, depth) == Ok::<int, RewriteError>(value.len() as int);
    let depth = if found <= own {
        found
    } else {
        own
    };
    lemma_value_depth(value, 0, own, depth);
    lemma_elements_depth(tail, 0, found, depth, false);
    assert(text[v] == tail[0]);
    assert(delimited(value, text, c));
    lemma_wider_value(value, text, c, 0, depth);
    lemma_value_opens(text, c, depth);
    let q = ws_end(text, c);
    if !first {
        assert(text[0] == 0x2C);
        assert(ws_end(text, 0) == 0);
    }
    assert(next_item(text, 0, first, 0x5D) == Next::Item(q));
    lemma_value_tree(text, c, depth);
    lemma_value_tree(text, q, depth);
    lemma_narrower_tree(value, text, c, 0);
    lemma_ws_stays(text, c);
    assert(tree_value(text, q) == tree_value(text, c));
    assert(delimited(tail, text, v));
    lemma_wider_elements(tail, text, v, 0, depth, false);
    lemma_elements_tree(text, v, depth, false);
    lemma_narrower_tree_elements(tail, text, v, 0, false);
    lemma_value_end(text, q, depth);
}

/// The text of an object stands for its members.
pub proof fn lemma_object_tree(items: Seq<(Seq<u8>, Seq<u8>)>)
    requires
        all_members(items),
    ensures
        is_value(object_text(items)),
        tree_of(object_text(items)) == Tree::Object(member_trees(items)),
{
    let texts = member_texts(items);
    let text = object_text(items);
    assert forall|k: int| 0 <= k < texts.len() implies is_member(#[trigger] texts[k]) by {
        assert(texts[k] == member(items[k].0, items[k].1));
    }
    lemma_object_is_value(texts);
    lemma_tree_of(text);
    lemma_run_members(items, true);
    let inner = run(texts, true) + seq![0x7Du8];
    assert(text[0] == 0x7B);
    assert(ws_end(text, 0) == 0);
    assert(stands_in(inner, text, 1));
    lemma_narrower_tree_members(inner, text, 1, 0, true);
}

/// The text of an array stands for its elements.
pub proof fn lemma_array_tree(items: Seq<Seq<u8>>)
    requires
        all_values(items),
    ensures
        is_value(array_text(items)),
        tree_of(array_text(items)) == Tree::Array(element_trees(items)),
{
    let text = array_text(items);
    lemma_array_is_value(items);
    lemma_tree_of(text);
    lemma_run_elements(items, true);
    let inner = run(items, true) + seq![0x5Du8];
    assert(text[0] == 0x5B);
    assert(ws_end(text, 0) == 0);
    assert(stands_in(inner, text, 1));
    lemma_narrower_tree_elements(inner, text, 1, 0, true);
}

} // verus!
