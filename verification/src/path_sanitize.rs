//! Normal form of paths: no empty segments, no dot segments.

use vstd::prelude::*;

use crate::text::{concat, join, join_text, same_text, split, split_text, to_chars, views};

verus! {

/// The segments that stay, where `kept` are those before segment `i`.
pub open spec fn resolved_segments(pieces: Seq<Seq<char>>, i: int, kept: Seq<Seq<char>>) -> Seq<Seq<char>>
    decreases pieces.len() - i,
{
    if !(0 <= i < pieces.len()) {
        kept
    } else if pieces[i].len() == 0 || pieces[i] == seq!['.'] {
        resolved_segments(pieces, i + 1, kept)
    } else if pieces[i] == seq!['.', '.'] {
        resolved_segments(
            pieces,
            i + 1,
            if kept.len() > 0 {
                kept.drop_last()
            } else {
                kept
            },
        )
    } else {
        resolved_segments(pieces, i + 1, kept.push(pieces[i]))
    }
}

/// A path without empty and dot segments, each `..` taking back the segment
/// before it. It starts with a slash, and keeps a trailing one.
pub open spec fn normalized(path: Seq<char>) -> Seq<char> {
    let kept = resolved_segments(split(path, '/'), 0, Seq::empty());
    if kept.len() > 0 && path.len() > 0 && path.last() == '/' {
        (seq!['/'] + join(kept, seq!['/'])).push('/')
    } else {
        seq!['/'] + join(kept, seq!['/'])
    }
}

/// The normal form of a path.
pub fn normalize_rewritten_path(path: &str) -> (r: String)
    ensures
        r@ == normalized(path@),
{
    let pieces = split_text(path, '/');
    let ghost all = split(path@, '/');
    let mut kept: Vec<String> = Vec::new();
    let mut i: usize = 0;
    proof {
        reveal_strlit(".");
        reveal_strlit("..");
        reveal_strlit("/");
        assert("."@ =~= seq!['.']);
        assert(".."@ =~= seq!['.', '.']);
        assert("/"@ =~= seq!['/']);
        assert(views(kept@) =~= Seq::<Seq<char>>::empty());
    }
    while i < pieces.len()
        invariant
            i <= pieces@.len(),
            all == split(path@, '/'),
            pieces@.map_values(|t: String| t@) == all,
            "."@ == seq!['.'],
            ".."@ == seq!['.', '.'],
            resolved_segments(all, 0, Seq::empty()) == resolved_segments(
                all,
                i as int,
                views(kept@),
            ),
        decreases pieces@.len() - i,
    {
        let piece: &str = pieces[i].as_str();
        assert(all[i as int] == piece@);
        let ghost before = views(kept@);
        if piece.is_empty() || same_text(piece, ".") {
        } else if same_text(piece, "..") {
            if kept.len() > 0 {
                kept.pop();
                assert(views(kept@) =~= before.drop_last());
            }
        } else {
            kept.push(piece.to_owned());
            assert(views(kept@) =~= before.push(piece@));
        }
        i = i + 1;
    }
    let body = join_text(&kept, "/");
    let mut out = concat("/", body.as_str());
    let chars = to_chars(path);
    let n: usize = chars.len();
    assert(views(kept@).len() == kept@.len());
    if kept.len() > 0 && n > 0 && chars[n - 1] == '/' {
        out.push('/');
    }
    out
}

/// A normal form starts with a slash.
pub proof fn law_normalized_is_absolute(path: Seq<char>)
    ensures
        normalized(path).len() > 0,
        normalized(path)[0] == '/',
{
}

spec fn all_clean(segments: Seq<Seq<char>>) -> bool {
    forall|k: int| 0 <= k < segments.len() ==> clean(#[trigger] segments[k])
}

proof fn lemma_segments_clean(pieces: Seq<Seq<char>>, i: int, kept: Seq<Seq<char>>)
    requires
        all_clean(kept),
    ensures
        all_clean(resolved_segments(pieces, i, kept)),
    decreases pieces.len() - i,
{
    if 0 <= i < pieces.len() {
        if pieces[i].len() == 0 || pieces[i] == seq!['.'] {
            lemma_segments_clean(pieces, i + 1, kept);
        } else if pieces[i] == seq!['.', '.'] {
            let rest = if kept.len() > 0 {
                kept.drop_last()
            } else {
                kept
            };
            assert(all_clean(rest));
            lemma_segments_clean(pieces, i + 1, rest);
        } else {
            assert(all_clean(kept.push(pieces[i])));
            lemma_segments_clean(pieces, i + 1, kept.push(pieces[i]));
        }
    }
}

/// A segment that is neither empty nor made of one or two dots.
pub open spec fn clean(segment: Seq<char>) -> bool {
    segment.len() > 0 && segment != seq!['.'] && segment != seq!['.', '.']
}

/// The segments of a normal form are neither empty nor dot segments.
pub proof fn law_normalized_segments_clean(path: Seq<char>, k: int)
    requires
        0 <= k < resolved_segments(split(path, '/'), 0, Seq::empty()).len(),
    ensures
        clean(resolved_segments(split(path, '/'), 0, Seq::empty())[k]),
{
    lemma_segments_clean(split(path, '/'), 0, Seq::empty());
}

} // verus!
