//! What the extracts of a document are: the values that stand at their pointers.

use vstd::prelude::*;

use crate::json_body::capture::{elements_aside, leads_to, lemma_aside, lemma_decimals, members_aside};
use crate::json_body::error::RewriteError;
use crate::json_body::extract::{complete, grab, nothing_found, open_want, take_document, take_elements, take_member, take_members, take_value, with_key, Found, Wanted};
use crate::json_body::grammar::lemma_ws_stays;
use crate::json_body::ops::Dest;
use crate::json_body::scan::{bom_len, byte_at, colon_end, elements_end, lemma_next_item, lemma_string_end, lemma_ws_end, members_end, next_item, string_end, value_end, ws_end, Next};
use crate::json_body::tree::{lemma_value_tree, tree_document, tree_elements, tree_members, tree_value, Tree};
use crate::json_body::walk::key_text;
use crate::number::decimal;

verus! {

/// Whether the member at `i` is the first one of that name.
pub open spec fn is_first(members: Seq<(Seq<u8>, Tree)>, i: int, name: Seq<char>) -> bool {
    &&& 0 <= i < members.len()
    &&& key_text(members[i].0) == Some(name)
    &&& forall|k: int| 0 <= k < i ==> key_text((#[trigger] members[k]).0) != Some(name)
}

/// Whether the string, number or literal `text` stands where the tokens `rest`
/// lead: by the names of members, of which the first one counts, and by the
/// positions of elements.
pub open spec fn first_at(tree: Tree, rest: Seq<Seq<char>>, text: Seq<u8>) -> bool
    decreases rest.len(),
{
    if rest.len() == 0 {
        tree == Tree::Scalar(text)
    } else {
        match tree {
            Tree::Scalar(_) => false,
            Tree::Object(members) => exists|i: int| #[trigger]
                is_first(members, i, rest[0]) && first_at(members[i].1, rest.drop_first(), text),
            Tree::Array(elements) => exists|i: int|
                0 <= i < elements.len() && rest[0] == decimal(i as nat) && first_at(
                    #[trigger] elements[i],
                    rest.drop_first(),
                    text,
                ),
        }
    }
}

/// Whether no other extract has the place of extract `j`.
pub open spec fn is_wanted_once(ops: Seq<Wanted>, j: int) -> bool {
    0 <= j < ops.len() && forall|i: int|
        0 <= i < ops.len() && i != j ==> (#[trigger] ops[i]).place != ops[j].place
}

spec fn is_open(ops: Seq<Wanted>, j: int, f: Found) -> bool {
    f.satisfied.len() == ops.len() && !f.satisfied[j]
}

spec fn has(ops: Seq<Wanted>, j: int, text: Seq<u8>, f: Found) -> bool {
    f.captures.contains((ops[j].dest, text))
}

proof fn lemma_open_want(ops: Seq<Wanted>, satisfied: Seq<bool>, place: Seq<Seq<char>>, i: int)
    requires
        0 <= i,
    ensures
        open_want(ops, satisfied, place, i) matches Some(k) ==> i <= k < ops.len() && ops[k].place == place
            && !satisfied[k],
        open_want(ops, satisfied, place, i) is None ==> forall|k: int|
            i <= k < ops.len() ==> satisfied[k] || (#[trigger] ops[k]).place != place,
    decreases ops.len() - i,
{
    if i < ops.len() {
        lemma_open_want(ops, satisfied, place, i + 1);
    }
}

/// What a value at a place does for an extract: at another place it leaves it
/// open, and at its own it is captured. What was captured stays.
proof fn lemma_grab(ops: Seq<Wanted>, j: int, place: Seq<Seq<char>>, json: Seq<u8>, f: Found)
    requires
        is_wanted_once(ops, j),
        f.satisfied.len() == ops.len(),
    ensures
        ({
            let n = grab(ops, place, json, f);
            &&& n.satisfied.len() == ops.len()
            &&& f.captures.is_prefix_of(n.captures)
            &&& is_open(ops, j, f) && place != ops[j].place ==> is_open(ops, j, n)
            &&& is_open(ops, j, f) && place == ops[j].place ==> has(ops, j, json, n)
        }),
{
    let n = grab(ops, place, json, f);
    lemma_open_want(ops, f.satisfied, place, 0);
    assert(n.captures.subrange(0, f.captures.len() as int) =~= f.captures);
    if is_open(ops, j, f) && place == ops[j].place {
        assert(ops[j].place == place);
        let k = open_want(ops, f.satisfied, place, 0)->0;
        assert(k == j);
        assert(n.captures[f.captures.len() as int] == (ops[j].dest, json));
    }
}

proof fn lemma_still_has(a: Seq<(Dest, Seq<u8>)>, b: Seq<(Dest, Seq<u8>)>)
    requires
        a.is_prefix_of(b),
    ensures
        forall|x: (Dest, Seq<u8>)| a.contains(x) ==> #[trigger] b.contains(x),
{
    assert forall|x: (Dest, Seq<u8>)| a.contains(x) implies #[trigger] b.contains(x) by {
        let k = a.index_of(x);
        assert(b.subrange(0, a.len() as int)[k] == a[k]);
        assert(b[k] == x);
    }
}

/// Captures are only ever added.
proof fn lemma_value_adds(ops: Seq<Wanted>, j: int, s: Seq<u8>, i: int, place: Seq<Seq<char>>, depth: int, f: Found)
    requires
        is_wanted_once(ops, j),
        f.satisfied.len() == ops.len(),
    ensures
        take_value(ops, s, i, place, depth, f) matches Ok((_, n)) ==> n.satisfied.len() == ops.len()
            && f.captures.is_prefix_of(n.captures),
    decreases s.len() - i, 0int,
{
    let k = ws_end(s, i);
    lemma_ws_end(s, i);
    let walked = if byte_at(s, k) == Some(0x7Bu8) {
        lemma_members_add(ops, j, s, k + 1, place, depth + 1, true, Seq::empty(), f);
        take_members(ops, s, k + 1, place, depth + 1, true, Seq::empty(), f)
    } else if byte_at(s, k) == Some(0x5Bu8) {
        lemma_elements_add(ops, j, s, k + 1, place, depth + 1, 0, f);
        take_elements(ops, s, k + 1, place, depth + 1, 0, f)
    } else {
        Ok((Some(value_end(s, k, depth)->Ok_0), f))
    };
    if let Ok((Some(e), m)) = walked {
        if take_value(ops, s, i, place, depth, f) is Ok {
            lemma_grab(ops, j, place, s.subrange(k, e), m);
            let n = grab(ops, place, s.subrange(k, e), m);
            assert(n.captures.subrange(0, f.captures.len() as int) =~= f.captures) by {
                assert(m.captures.subrange(0, f.captures.len() as int) == f.captures);
                assert(n.captures.subrange(0, m.captures.len() as int) == m.captures);
                assert(n.captures.subrange(0, m.captures.len() as int).subrange(0, f.captures.len() as int)
                    =~= n.captures.subrange(0, f.captures.len() as int));
            }
        }
    }
    assert(f.captures.subrange(0, f.captures.len() as int) =~= f.captures);
}

proof fn lemma_prefix_chain(
    a: Seq<(Dest, Seq<u8>)>,
    b: Seq<(Dest, Seq<u8>)>,
    c: Seq<(Dest, Seq<u8>)>,
)
    requires
        a.is_prefix_of(b),
        b.is_prefix_of(c),
    ensures
        a.is_prefix_of(c),
{
    assert(c.subrange(0, b.len() as int).subrange(0, a.len() as int) =~= c.subrange(0, a.len() as int));
}

proof fn lemma_members_add(
    ops: Seq<Wanted>,
    j: int,
    s: Seq<u8>,
    i: int,
    place: Seq<Seq<char>>,
    depth: int,
    first: bool,
    seen: Seq<Seq<char>>,
    f: Found,
)
    requires
        is_wanted_once(ops, j),
        f.satisfied.len() == ops.len(),
    ensures
        take_members(ops, s, i, place, depth, first, seen, f) matches Ok((_, n)) ==> n.satisfied.len()
            == ops.len() && f.captures.is_prefix_of(n.captures),
    decreases s.len() - i, 2int,
{
    assert(f.captures.subrange(0, f.captures.len() as int) =~= f.captures);
    lemma_next_item(s, i, first, 0x7D);
    if let Next::Item(q) = next_item(s, i, first, 0x7D) {
        lemma_string_end(s, q);
        if let Some(e) = string_end(s, q) {
            lemma_ws_end(s, e);
            if let (Some(key), Some(c)) = (key_text(s.subrange(q, e)), colon_end(s, e)) {
                if !seen.contains(key) {
                    lemma_value_adds(ops, j, s, c, place.push(key), depth, f);
                }
                if let Ok((Some(v), n)) = take_member(ops, s, c, key, place, depth, seen, f) {
                    if c < v <= s.len() {
                        lemma_members_add(ops, j, s, v, place, depth, false, with_key(seen, key), n);
                        if let Ok((_, m)) = take_members(ops, s, v, place, depth, false, with_key(seen, key), n) {
                            lemma_prefix_chain(f.captures, n.captures, m.captures);
                        }
                    }
                }
            }
        }
    }
}

proof fn lemma_elements_add(
    ops: Seq<Wanted>,
    j: int,
    s: Seq<u8>,
    i: int,
    place: Seq<Seq<char>>,
    depth: int,
    idx: int,
    f: Found,
)
    requires
        is_wanted_once(ops, j),
        f.satisfied.len() == ops.len(),
    ensures
        take_elements(ops, s, i, place, depth, idx, f) matches Ok((_, n)) ==> n.satisfied.len() == ops.len()
            && f.captures.is_prefix_of(n.captures),
    decreases s.len() - i, 2int,
{
    assert(f.captures.subrange(0, f.captures.len() as int) =~= f.captures);
    lemma_next_item(s, i, idx == 0, 0x5D);
    if let Next::Item(q) = next_item(s, i, idx == 0, 0x5D) {
        let below = place.push(decimal(idx as nat));
        lemma_value_adds(ops, j, s, q, below, depth, f);
        if let Ok((Some(v), n)) = take_value(ops, s, q, below, depth, f) {
            if q < v <= s.len() {
                lemma_elements_add(ops, j, s, v, place, depth, idx + 1, n);
                if let Ok((_, m)) = take_elements(ops, s, v, place, depth, idx + 1, n) {
                    lemma_prefix_chain(f.captures, n.captures, m.captures);
                }
            }
        }
    }
}

/// Beside the way to the pointer an extract stays open.
proof fn lemma_value_beside(ops: Seq<Wanted>, j: int, s: Seq<u8>, i: int, place: Seq<Seq<char>>, depth: int, f: Found)
    requires
        is_wanted_once(ops, j),
        is_open(ops, j, f),
        !leads_to(place, ops[j].place),
    ensures
        take_value(ops, s, i, place, depth, f) matches Ok((r, n)) ==> is_open(ops, j, n) && (r matches Some(e)
            && value_end(s, i, depth) == Ok::<int, RewriteError>(e)),
    decreases s.len() - i, 0int,
{
    let k = ws_end(s, i);
    let tokens = ops[j].place;
    lemma_ws_end(s, i);
    lemma_ws_stays(s, i);
    assert(tokens.take(tokens.len() as int) =~= tokens);
    assert(place != tokens);
    let walked = if byte_at(s, k) == Some(0x7Bu8) {
        lemma_members_beside(ops, j, s, k + 1, place, depth + 1, true, Seq::empty(), f);
        take_members(ops, s, k + 1, place, depth + 1, true, Seq::empty(), f)
    } else if byte_at(s, k) == Some(0x5Bu8) {
        lemma_elements_beside(ops, j, s, k + 1, place, depth + 1, 0, f);
        take_elements(ops, s, k + 1, place, depth + 1, 0, f)
    } else {
        Ok((Some(value_end(s, k, depth)->Ok_0), f))
    };
    if let Ok((Some(e), m)) = walked {
        lemma_grab(ops, j, place, s.subrange(k, e), m);
        let n = grab(ops, place, s.subrange(k, e), m);
        assert(is_open(ops, j, n) ==> !complete(n));
    }
}

proof fn lemma_members_beside(
    ops: Seq<Wanted>,
    j: int,
    s: Seq<u8>,
    i: int,
    place: Seq<Seq<char>>,
    depth: int,
    first: bool,
    seen: Seq<Seq<char>>,
    f: Found,
)
    requires
        is_wanted_once(ops, j),
        is_open(ops, j, f),
        members_aside(s, i, first, place, ops[j].place),
    ensures
        take_members(ops, s, i, place, depth, first, seen, f) matches Ok((r, n)) ==> is_open(ops, j, n) && (
        r matches Some(e) && members_end(s, i, depth, first) == Ok::<int, RewriteError>(e)),
    decreases s.len() - i, 2int,
{
    let tokens = ops[j].place;
    lemma_next_item(s, i, first, 0x7D);
    if let Next::Item(q) = next_item(s, i, first, 0x7D) {
        lemma_string_end(s, q);
        if let Some(e) = string_end(s, q) {
            lemma_ws_end(s, e);
            if let (Some(key), Some(c)) = (key_text(s.subrange(q, e)), colon_end(s, e)) {
                lemma_aside(place, tokens, key);
                if tree_members(s, i, first) is Some {
                    let members = (tree_members(s, i, first)->0).1;
                    assert(members[0] == (s.subrange(q, e), (tree_value(s, c)->0).1));
                }
                assert(!leads_to(place.push(key), tokens));
                if !seen.contains(key) {
                    lemma_value_beside(ops, j, s, c, place.push(key), depth, f);
                }
                if let Ok((r, n)) = take_member(ops, s, c, key, place, depth, seen, f) {
                    assert(r is Some && value_end(s, c, depth) == Ok::<int, RewriteError>(r->0));
                    let v = r->0;
                    lemma_value_tree(s, c, depth);
                    if c < v <= s.len() {
                        if tree_members(s, i, first) is Some {
                            let members = (tree_members(s, i, first)->0).1;
                            let rest = (tree_members(s, v, false)->0).1;
                            assert forall|k: int| 0 <= k < rest.len() implies #[trigger] rest[k]
                                == members[k + 1] by {}
                        }
                        lemma_members_beside(ops, j, s, v, place, depth, false, with_key(seen, key), n);
                    }
                }
            }
        }
    }
}

proof fn lemma_elements_beside(
    ops: Seq<Wanted>,
    j: int,
    s: Seq<u8>,
    i: int,
    place: Seq<Seq<char>>,
    depth: int,
    idx: int,
    f: Found,
)
    requires
        0 <= idx,
        is_wanted_once(ops, j),
        is_open(ops, j, f),
        elements_aside(idx, place, ops[j].place),
    ensures
        take_elements(ops, s, i, place, depth, idx, f) matches Ok((r, n)) ==> is_open(ops, j, n) && (r matches Some(
            e,
        ) && elements_end(s, i, depth, idx == 0) == Ok::<int, RewriteError>(e)),
    decreases s.len() - i, 2int,
{
    let tokens = ops[j].place;
    let token = decimal(idx as nat);
    lemma_next_item(s, i, idx == 0, 0x5D);
    if let Next::Item(q) = next_item(s, i, idx == 0, 0x5D) {
        lemma_aside(place, tokens, token);
        assert(!leads_to(place.push(token), tokens));
        lemma_value_beside(ops, j, s, q, place.push(token), depth, f);
        if let Ok((Some(v), n)) = take_value(ops, s, q, place.push(token), depth, f) {
            if q < v <= s.len() {
                lemma_elements_beside(ops, j, s, v, place, depth, idx + 1, n);
            }
        }
    }
}

/// On the way to the pointer the value there is captured.
proof fn lemma_value_taken(
    ops: Seq<Wanted>,
    j: int,
    text: Seq<u8>,
    s: Seq<u8>,
    i: int,
    place: Seq<Seq<char>>,
    depth: int,
    f: Found,
)
    requires
        is_wanted_once(ops, j),
        is_open(ops, j, f),
        leads_to(place, ops[j].place),
        tree_value(s, i) matches Some((_, tree)) && first_at(tree, ops[j].place.skip(place.len() as int), text),
    ensures
        take_value(ops, s, i, place, depth, f) matches Ok((_, n)) ==> has(ops, j, text, n),
    decreases s.len() - i, 0int,
{
    let tokens = ops[j].place;
    let rest = tokens.skip(place.len() as int);
    let tree = (tree_value(s, i)->0).1;
    let k = ws_end(s, i);
    lemma_ws_end(s, i);
    lemma_ws_stays(s, i);
    lemma_value_tree(s, i, depth);
    if rest.len() == 0 {
        assert(tokens.take(tokens.len() as int) =~= tokens);
        assert(place == tokens);
        if let Ok(e) = value_end(s, k, depth) {
            assert(value_end(s, i, depth) == value_end(s, k, depth));
            lemma_grab(ops, j, place, s.subrange(k, e), f);
        }
    } else {
        assert(rest.drop_first() =~= tokens.skip(place.len() as int + 1));
        let walked = match tree {
            Tree::Object(members) => {
                let m = choose|m: int| #[trigger]
                    is_first(members, m, rest[0]) && first_at(members[m].1, rest.drop_first(), text);
                lemma_members_taken(ops, j, text, s, k + 1, place, depth + 1, true, Seq::empty(), f, m);
                lemma_members_add(ops, j, s, k + 1, place, depth + 1, true, Seq::empty(), f);
                take_members(ops, s, k + 1, place, depth + 1, true, Seq::empty(), f)
            },
            Tree::Array(elements) => {
                let m = choose|m: int|
                    0 <= m < elements.len() && rest[0] == decimal(m as nat) && first_at(
                        #[trigger] elements[m],
                        rest.drop_first(),
                        text,
                    );
                lemma_elements_taken(ops, j, text, s, k + 1, place, depth + 1, 0, f, m);
                lemma_elements_add(ops, j, s, k + 1, place, depth + 1, 0, f);
                take_elements(ops, s, k + 1, place, depth + 1, 0, f)
            },
            Tree::Scalar(_) => Ok((Some(0int), f)),
        };
        if let Ok((Some(e), m)) = walked {
            if tree !is Scalar {
                lemma_grab(ops, j, place, s.subrange(k, e), m);
                lemma_still_has(m.captures, grab(ops, place, s.subrange(k, e), m).captures);
            }
        }
    }
}

proof fn lemma_members_taken(
    ops: Seq<Wanted>,
    j: int,
    text: Seq<u8>,
    s: Seq<u8>,
    i: int,
    place: Seq<Seq<char>>,
    depth: int,
    first: bool,
    seen: Seq<Seq<char>>,
    f: Found,
    m: int,
)
    requires
        is_wanted_once(ops, j),
        is_open(ops, j, f),
        leads_to(place, ops[j].place),
        place.len() < ops[j].place.len(),
        !seen.contains(ops[j].place[place.len() as int]),
        tree_members(s, i, first) matches Some((_, members)) && is_first(
            members,
            m,
            ops[j].place[place.len() as int],
        ) && first_at(members[m].1, ops[j].place.skip(place.len() as int + 1), text),
    ensures
        take_members(ops, s, i, place, depth, first, seen, f) matches Ok((_, n)) ==> has(ops, j, text, n),
    decreases s.len() - i, 2int,
{
    let tokens = ops[j].place;
    let name = tokens[place.len() as int];
    let members = (tree_members(s, i, first)->0).1;
    lemma_next_item(s, i, first, 0x7D);
    if let Next::Item(q) = next_item(s, i, first, 0x7D) {
        lemma_string_end(s, q);
        if let Some(e) = string_end(s, q) {
            lemma_ws_end(s, e);
            if let (Some(key), Some(c)) = (key_text(s.subrange(q, e)), colon_end(s, e)) {
                lemma_aside(place, tokens, key);
                assert(members[0] == (s.subrange(q, e), (tree_value(s, c)->0).1));
                if m == 0 {
                    lemma_value_taken(ops, j, text, s, c, place.push(key), depth, f);
                    lemma_value_adds(ops, j, s, c, place.push(key), depth, f);
                    if let Ok((Some(v), n)) = take_member(ops, s, c, key, place, depth, seen, f) {
                        if c < v <= s.len() {
                            lemma_members_add(ops, j, s, v, place, depth, false, with_key(seen, key), n);
                            if let Ok((_, x)) = take_members(
                                ops,
                                s,
                                v,
                                place,
                                depth,
                                false,
                                with_key(seen, key),
                                n,
                            ) {
                                lemma_still_has(n.captures, x.captures);
                            }
                        }
                    }
                } else {
                    assert(key != name);
                    if !seen.contains(key) {
                        lemma_value_beside(ops, j, s, c, place.push(key), depth, f);
                    }
                    if let Ok((r, n)) = take_member(ops, s, c, key, place, depth, seen, f) {
                        let v = r->0;
                        lemma_value_tree(s, c, depth);
                        if c < v <= s.len() {
                            let rest = (tree_members(s, v, false)->0).1;
                            assert forall|k: int| 0 <= k < rest.len() implies #[trigger] rest[k]
                                == members[k + 1] by {}
                            assert(is_first(rest, m - 1, name));
                            assert(!with_key(seen, key).contains(name)) by {
                                if with_key(seen, key).contains(name) {
                                    let x = with_key(seen, key).index_of(name);
                                    assert(x < seen.len() && seen[x] == name);
                                }
                            }
                            lemma_members_taken(
                                ops,
                                j,
                                text,
                                s,
                                v,
                                place,
                                depth,
                                false,
                                with_key(seen, key),
                                n,
                                m - 1,
                            );
                        }
                    }
                }
            }
        }
    }
}

proof fn lemma_elements_taken(
    ops: Seq<Wanted>,
    j: int,
    text: Seq<u8>,
    s: Seq<u8>,
    i: int,
    place: Seq<Seq<char>>,
    depth: int,
    idx: int,
    f: Found,
    m: int,
)
    requires
        0 <= idx,
        is_wanted_once(ops, j),
        is_open(ops, j, f),
        leads_to(place, ops[j].place),
        place.len() < ops[j].place.len(),
        tree_elements(s, i, idx == 0) matches Some((_, elements)) && 0 <= m < elements.len()
            && ops[j].place[place.len() as int] == decimal((idx + m) as nat) && first_at(
            elements[m],
            ops[j].place.skip(place.len() as int + 1),
            text,
        ),
    ensures
        take_elements(ops, s, i, place, depth, idx, f) matches Ok((_, n)) ==> has(ops, j, text, n),
    decreases s.len() - i, 2int,
{
    let tokens = ops[j].place;
    let token = decimal(idx as nat);
    let below = place.push(token);
    let elements = (tree_elements(s, i, idx == 0)->0).1;
    lemma_next_item(s, i, idx == 0, 0x5D);
    if let Next::Item(q) = next_item(s, i, idx == 0, 0x5D) {
        lemma_aside(place, tokens, token);
        lemma_decimals(idx as nat, (idx + m) as nat);
        assert(elements[0] == (tree_value(s, q)->0).1);
        if m == 0 {
            lemma_value_taken(ops, j, text, s, q, below, depth, f);
            lemma_value_adds(ops, j, s, q, below, depth, f);
            if let Ok((Some(v), n)) = take_value(ops, s, q, below, depth, f) {
                if q < v <= s.len() {
                    lemma_elements_add(ops, j, s, v, place, depth, idx + 1, n);
                    if let Ok((_, x)) = take_elements(ops, s, v, place, depth, idx + 1, n) {
                        lemma_still_has(n.captures, x.captures);
                    }
                }
            }
        } else {
            lemma_value_beside(ops, j, s, q, below, depth, f);
            if let Ok((Some(v), n)) = take_value(ops, s, q, below, depth, f) {
                lemma_value_tree(s, q, depth);
                if q < v <= s.len() {
                    let rest = (tree_elements(s, v, false)->0).1;
                    assert(rest[m - 1] == elements[m]);
                    lemma_elements_taken(ops, j, text, s, v, place, depth, idx + 1, n, m - 1);
                }
            }
        }
    }
}

/// The string, number or literal at the pointer of an extract is captured for it
/// as it is written.
pub proof fn law_taken_value(ops: Seq<Wanted>, j: int, text: Seq<u8>, s: Seq<u8>)
    requires
        is_wanted_once(ops, j),
        tree_document(s) matches Some(tree) && first_at(tree, ops[j].place, text),
    ensures
        take_document(ops, s) matches Ok(captures) ==> captures.contains((ops[j].dest, text)),
{
    let i = ws_end(s, bom_len(s));
    let tokens = ops[j].place;
    lemma_ws_end(s, bom_len(s));
    lemma_ws_stays(s, bom_len(s));
    assert(tree_value(s, i) == tree_value(s, bom_len(s)));
    assert(tokens.skip(0) =~= tokens);
    assert(tokens.take(0) =~= Seq::<Seq<char>>::empty());
    lemma_value_taken(ops, j, text, s, i, Seq::empty(), 0, nothing_found(ops));
}

} // verus!
