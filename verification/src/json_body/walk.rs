//! What one pass of pointer operations over a JSON document means.
//!
//! A pass reads the document once from left to right. Values that no operation
//! reaches are copied as they stand; along the way to an operation, objects and
//! arrays are written anew around their members. Extracts are captured as the
//! pass reaches them, and a value that is taken from metadata is looked up when
//! it is first needed.

use vstd::prelude::*;
use vstd::utf8::{decode_utf8, valid_utf8};

use crate::json_body::error::{RewriteError, MAX_JSON_DEPTH};
use crate::json_body::ops::{append_op, extract_op, mutate_op, touches, Dest, Op, OpKind, Source};
use crate::json_body::scan::{bom_len, byte_at, colon_end, has_escape, lemma_next_item, lemma_string_end, lemma_ws_end, next_item, string_end, value_end, ws_end, Next};
use crate::json_text::{json_string, json_string_decoded};
use crate::number::decimal;

verus! {

/// What stays the same during a pass.
pub struct Env {
    /// The operations, in order.
    pub ops: Seq<Op>,
    /// Metadata that was set before the pass.
    pub base: Map<Seq<char>, Seq<char>>,
    /// Structured metadata that was set before the pass.
    pub preset: Map<(Seq<char>, Seq<char>), Seq<u8>>,
    /// Whether the pass writes a document.
    pub emit: bool,
}

/// What a pass has gathered so far.
#[verifier::ext_equal]
pub struct Walk {
    /// Metadata captured by the pass.
    pub meta: Map<Seq<char>, Seq<char>>,
    /// JSON text captured for structured metadata.
    pub captured: Map<(Seq<char>, Seq<char>), Seq<u8>>,
    /// Values already settled, by operation.
    pub resolved: Seq<Option<Seq<u8>>>,
    /// The document written so far.
    pub out: Seq<u8>,
}

pub open spec fn put(env: Env, w: Walk, bytes: Seq<u8>) -> Walk {
    if env.emit {
        Walk { out: w.out + bytes, ..w }
    } else {
        w
    }
}

/// The comma before the next member or element, if one has been written.
pub open spec fn comma(emitted: bool) -> Seq<u8> {
    if emitted {
        seq![0x2Cu8]
    } else {
        Seq::empty()
    }
}

/// The value that operation `j` injects, if it is available.
pub open spec fn resolve(env: Env, w: Walk, j: int) -> Option<Seq<u8>> {
    if w.resolved[j] is Some {
        w.resolved[j]
    } else if env.ops[j].payload is Some {
        env.ops[j].payload
    } else {
        match env.ops[j].source {
            None => None,
            Some(Source::Static(b)) => Some(b),
            Some(Source::Metadata(k)) => if w.meta.contains_key(k) {
                Some(json_string(w.meta[k]))
            } else if env.base.contains_key(k) {
                Some(json_string(env.base[k]))
            } else {
                None
            },
            Some(Source::Structured(ns, k)) => if env.preset.contains_key((ns, k)) {
                Some(env.preset[(ns, k)])
            } else {
                None
            },
        }
    }
}

/// The value of operation `j`, once available, is settled for the rest of the pass.
pub open spec fn settle(env: Env, w: Walk, j: int) -> Walk {
    match resolve(env, w, j) {
        Some(b) => Walk { resolved: w.resolved.update(j, Some(b)), ..w },
        None => w,
    }
}

/// `prefix` and the value of operation `j`, or the original text when there is none.
pub open spec fn replaced(
    env: Env,
    w: Walk,
    emitted: bool,
    prefix: Seq<u8>,
    j: int,
    original: Seq<u8>,
) -> Walk {
    if !env.emit {
        w
    } else {
        match resolve(env, w, j) {
            Some(b) => put(env, settle(env, w, j), comma(emitted) + prefix + b),
            None => put(env, w, comma(emitted) + prefix + original),
        }
    }
}

/// `prefix` and the value of operation `j`, if it is available; whether
/// anything has been written by then.
pub open spec fn inserted(env: Env, w: Walk, emitted: bool, prefix: Seq<u8>, j: int) -> (bool, Walk) {
    if !env.emit {
        (emitted, w)
    } else {
        match resolve(env, w, j) {
            Some(b) => (true, put(env, settle(env, w, j), comma(emitted) + prefix + b)),
            None => (emitted, w),
        }
    }
}

/// The text of a captured value: a JSON string is decoded, any other value is
/// kept as its source text.
pub open spec fn metadata_text(json: Seq<u8>) -> Option<Seq<char>> {
    if byte_at(json, 0) == Some(0x22u8) {
        json_string_decoded(json)
    } else if valid_utf8(json) {
        Some(decode_utf8(json))
    } else {
        None
    }
}

/// The capture of the value `json` at `place`, if an extract names that place.
pub open spec fn capture(env: Env, w: Walk, place: Seq<Seq<char>>, json: Seq<u8>) -> Walk {
    match extract_op(env.ops, place) {
        None => w,
        Some(j) => match env.ops[j].dest {
            None => w,
            Some(Dest::Metadata(key)) => match metadata_text(json) {
                Some(t) => Walk { meta: w.meta.insert(key, t), ..w },
                None => w,
            },
            Some(Dest::Structured(ns, key)) => Walk {
                captured: w.captured.insert((ns, key), json),
                ..w
            },
        },
    }
}

/// The decoded text of the key whose string is `raw`, quotes included.
pub open spec fn key_text(raw: Seq<u8>) -> Option<Seq<char>> {
    if has_escape(raw, 0, raw.len() as int) {
        json_string_decoded(raw)
    } else if valid_utf8(raw.subrange(1, raw.len() - 1)) {
        Some(decode_utf8(raw.subrange(1, raw.len() - 1)))
    } else {
        None
    }
}

/// Whether operation `op` adds a member to the object at `place`.
pub open spec fn adds_member(op: Op, place: Seq<Seq<char>>) -> bool {
    op.kind == OpKind::Add && !op.appends() && op.tokens.len() > 0 && op.tokens.drop_last() == place
}

/// The members that are added before the object at `place` closes, from
/// operation `j` on; those whose key is in `satisfied` are already there.
pub open spec fn added_members(
    env: Env,
    place: Seq<Seq<char>>,
    satisfied: Seq<Seq<char>>,
    j: int,
    emitted: bool,
    w: Walk,
) -> Walk
    decreases env.ops.len() - j,
{
    if !(0 <= j < env.ops.len()) {
        w
    } else if adds_member(env.ops[j], place) && !satisfied.contains(env.ops[j].tokens.last())
        && env.ops[j].encoded is Some {
        let (e, n) = inserted(env, w, emitted, env.ops[j].encoded->0 + seq![0x3Au8], j);
        added_members(env, place, satisfied, j + 1, e, n)
    } else {
        added_members(env, place, satisfied, j + 1, emitted, w)
    }
}

/// The insertion before the array element with the token `token`.
pub open spec fn added_before(
    env: Env,
    place: Seq<Seq<char>>,
    token: Seq<char>,
    emitted: bool,
    w: Walk,
) -> (bool, Walk) {
    match mutate_op(env.ops, place.push(token)) {
        Some(j) => if env.ops[j].kind == OpKind::Add {
            inserted(env, w, emitted, Seq::empty(), j)
        } else {
            (emitted, w)
        },
        None => (emitted, w),
    }
}

/// The insertion behind the last array element.
pub open spec fn added_behind(env: Env, place: Seq<Seq<char>>, emitted: bool, w: Walk) -> (bool, Walk) {
    match append_op(env.ops, place) {
        Some(j) => inserted(env, w, emitted, Seq::empty(), j),
        None => (emitted, w),
    }
}

/// The pass over the value at `i`, which is at `place` inside `depth` containers.
pub open spec fn walk_value(
    env: Env,
    s: Seq<u8>,
    i: int,
    place: Seq<Seq<char>>,
    depth: int,
    w: Walk,
) -> Result<(int, Walk), RewriteError>
    decreases s.len() - i, 0int,
{
    let k = ws_end(s, i);
    proof {
        lemma_ws_end(s, i);
    }
    let walked = if touches(env.ops, place) && byte_at(s, k) == Some(0x7Bu8) {
        if depth + 1 > MAX_JSON_DEPTH {
            Err(RewriteError::Depth)
        } else {
            walk_members(
                env,
                s,
                k + 1,
                place,
                depth + 1,
                true,
                false,
                Seq::empty(),
                put(env, w, seq![0x7Bu8]),
            )
        }
    } else if touches(env.ops, place) && byte_at(s, k) == Some(0x5Bu8) {
        if depth + 1 > MAX_JSON_DEPTH {
            Err(RewriteError::Depth)
        } else {
            walk_elements(env, s, k + 1, place, depth + 1, 0, false, put(env, w, seq![0x5Bu8]))
        }
    } else {
        copy_value(env, s, k, depth, w)
    };
    match walked {
        Err(err) => Err(err),
        Ok((e, n)) => Ok((e, capture(env, n, place, s.subrange(k, e)))),
    }
}

/// The value at `i` is copied as it stands, without the whitespace before it.
pub open spec fn copy_value(env: Env, s: Seq<u8>, i: int, depth: int, w: Walk) -> Result<
    (int, Walk),
    RewriteError,
> {
    match value_end(s, i, depth) {
        Err(err) => Err(err),
        Ok(e) => Ok((e, put(env, w, s.subrange(ws_end(s, i), e)))),
    }
}

/// The pass over the remaining members of the object at `place`.
pub open spec fn walk_members(
    env: Env,
    s: Seq<u8>,
    i: int,
    place: Seq<Seq<char>>,
    depth: int,
    first: bool,
    emitted: bool,
    satisfied: Seq<Seq<char>>,
    w: Walk,
) -> Result<(int, Walk), RewriteError>
    decreases s.len() - i, 2int,
{
    proof {
        lemma_next_item(s, i, first, 0x7D);
    }
    match next_item(s, i, first, 0x7D) {
        Next::Bad => Err(RewriteError::InvalidJson),
        Next::Close(e) => Ok(
            (e, put(env, added_members(env, place, satisfied, 0, emitted, w), seq![0x7Du8])),
        ),
        Next::Item(q) => {
            proof {
                lemma_string_end(s, q);
            }
            match string_end(s, q) {
                None => Err(RewriteError::InvalidJson),
                Some(e) => {
                    proof {
                        lemma_ws_end(s, e);
                    }
                    match (key_text(s.subrange(q, e)), colon_end(s, e)) {
                        (Some(key), Some(c)) => {
                            match walk_member(env, s, q, e, c, key, place, depth, emitted, satisfied, w) {
                                Err(err) => Err(err),
                                Ok((v, now, kept, n)) => if c < v <= s.len() {
                                    walk_members(env, s, v, place, depth, false, now, kept, n)
                                } else {
                                    Err(RewriteError::InvalidJson)
                                },
                            }
                        },
                        _ => Err(RewriteError::InvalidJson),
                    }
                },
            }
        },
    }
}

/// The pass over one member, whose key string is `s[q..e]` and whose value
/// stands behind `c`: the position behind it, whether anything has been
/// written by then, the keys of adds that are now there, and the walk.
pub open spec fn walk_member(
    env: Env,
    s: Seq<u8>,
    q: int,
    e: int,
    c: int,
    key: Seq<char>,
    place: Seq<Seq<char>>,
    depth: int,
    emitted: bool,
    satisfied: Seq<Seq<char>>,
    w: Walk,
) -> Result<(int, bool, Seq<Seq<char>>, Walk), RewriteError>
    decreases s.len() - c, 1int,
{
    let below = place.push(key);
    let prefix = s.subrange(q, e) + seq![0x3Au8];
    match mutate_op(env.ops, below) {
        Some(j) => match value_end(s, c, depth) {
            Err(err) => Err(err),
            Ok(v) => {
                let original = s.subrange(ws_end(s, c), v);
                let n = capture(env, w, below, original);
                if env.ops[j].kind == OpKind::Remove {
                    Ok((v, emitted, satisfied, n))
                } else {
                    let kept = if env.emit && env.ops[j].kind == OpKind::Add && resolve(env, n, j) is Some {
                        satisfied.push(key)
                    } else {
                        satisfied
                    };
                    Ok((v, true, kept, replaced(env, n, emitted, prefix, j, original)))
                }
            },
        },
        None => {
            let n = put(env, w, comma(emitted) + prefix);
            let walked = if touches(env.ops, below) {
                walk_value(env, s, c, below, depth, n)
            } else {
                copy_value(env, s, c, depth, n)
            };
            match walked {
                Err(err) => Err(err),
                Ok((v, m)) => Ok((v, true, satisfied, m)),
            }
        },
    }
}

/// The pass over the remaining elements of the array at `place`, from index `idx` on.
pub open spec fn walk_elements(
    env: Env,
    s: Seq<u8>,
    i: int,
    place: Seq<Seq<char>>,
    depth: int,
    idx: int,
    emitted: bool,
    w: Walk,
) -> Result<(int, Walk), RewriteError>
    decreases s.len() - i, 2int,
{
    let token = decimal(idx as nat);
    proof {
        lemma_next_item(s, i, idx == 0, 0x5D);
    }
    match next_item(s, i, idx == 0, 0x5D) {
        Next::Bad => Err(RewriteError::InvalidJson),
        Next::Close(e) => {
            let (e1, w1) = added_before(env, place, token, emitted, w);
            let (e2, w2) = added_behind(env, place, e1, w1);
            Ok((e, put(env, w2, seq![0x5Du8])))
        },
        Next::Item(q) => {
            let (e1, w1) = added_before(env, place, token, emitted, w);
            match walk_element(env, s, q, place.push(token), depth, e1, w1) {
                Err(err) => Err(err),
                Ok((v, now, n)) => if q < v <= s.len() {
                    walk_elements(env, s, v, place, depth, idx + 1, now, n)
                } else {
                    Err(RewriteError::InvalidJson)
                },
            }
        },
    }
}

/// The pass over one array element at `below`, which starts at `q`.
pub open spec fn walk_element(
    env: Env,
    s: Seq<u8>,
    q: int,
    below: Seq<Seq<char>>,
    depth: int,
    emitted: bool,
    w: Walk,
) -> Result<(int, bool, Walk), RewriteError>
    decreases s.len() - q, 1int,
{
    let op = mutate_op(env.ops, below);
    if op matches Some(j) && env.ops[j].kind != OpKind::Add {
        let j = op->0;
        match value_end(s, q, depth) {
            Err(err) => Err(err),
            Ok(v) => {
                let original = s.subrange(ws_end(s, q), v);
                let n = capture(env, w, below, original);
                if env.ops[j].kind == OpKind::Remove {
                    Ok((v, emitted, n))
                } else {
                    Ok((v, true, replaced(env, n, emitted, Seq::empty(), j, original)))
                }
            },
        }
    } else {
        let n = put(env, w, comma(emitted));
        let walked = if touches(env.ops, below) {
            walk_value(env, s, q, below, depth, n)
        } else {
            copy_value(env, s, q, depth, n)
        };
        match walked {
            Err(err) => Err(err),
            Ok((v, m)) => Ok((v, true, m)),
        }
    }
}

/// The first operation that replaces the whole document.
pub open spec fn root_replace_op(ops: Seq<Op>, j: int) -> Option<int>
    decreases ops.len() - j,
{
    if !(0 <= j < ops.len()) {
        None
    } else if ops[j].tokens.len() == 0 && ops[j].kind == OpKind::Replace {
        Some(j)
    } else {
        root_replace_op(ops, j + 1)
    }
}

/// The walk before a pass: nothing is captured, and static values are settled.
pub open spec fn start(env: Env) -> Walk {
    Walk {
        meta: Map::empty(),
        captured: Map::empty(),
        resolved: env.ops.map_values(|op: Op| op.payload),
        out: Seq::empty(),
    }
}

/// The pass over the document `s`.
pub open spec fn walk_document(env: Env, s: Seq<u8>) -> Result<Walk, RewriteError> {
    let w = start(env);
    let i = ws_end(s, bom_len(s));
    if i >= s.len() {
        Err(RewriteError::InvalidJson)
    } else {
        match root_replace_op(env.ops, 0) {
            Some(j) if resolve(env, w, j) is Some => match value_end(s, i, 0) {
                Err(err) => Err(err),
                Ok(e) => if ws_end(s, e) == s.len() {
                    Ok(put(env, w, resolve(env, w, j)->0))
                } else {
                    Err(RewriteError::InvalidJson)
                },
            },
            _ => match walk_value(env, s, i, Seq::empty(), 0, w) {
                Err(err) => Err(err),
                Ok((e, n)) => if env.emit && ws_end(s, e) != s.len() {
                    Err(RewriteError::InvalidJson)
                } else {
                    Ok(n)
                },
            },
        }
    }
}

} // verus!
