//! What the normal form of a path means.

use vstd::prelude::*;

use crate::path_sanitize::{normalized, resolved_segments};
use crate::text::{join, split};
use crate::text_laws::{law_join_push, law_split_at_separator, law_split_single};
use crate::url_sign::path::clean_path;

verus! {

/// Whether a text is a segment that normal paths have.
pub open spec fn is_segment(s: Seq<char>) -> bool {
    s.len() > 0 && s != seq!['.'] && s != seq!['.', '.'] && !s.contains('/')
}

/// Whether texts are segments that normal paths have.
pub open spec fn are_segments(segments: Seq<Seq<char>>) -> bool {
    forall|k: int| 0 <= k < segments.len() ==> is_segment(#[trigger] segments[k])
}

/// The path with these segments.
pub open spec fn path_of(segments: Seq<Seq<char>>) -> Seq<char> {
    seq!['/'] + join(segments, seq!['/'])
}

/// What is joined with a separator that no piece holds splits into the pieces.
pub proof fn law_split_undoes_join(pieces: Seq<Seq<char>>, c: char)
    requires
        pieces.len() > 0,
        forall|k: int| 0 <= k < pieces.len() ==> !(#[trigger] pieces[k]).contains(c),
    ensures
        split(join(pieces, seq![c]), c) == pieces,
    decreases pieces.len(),
{
    let front = pieces.drop_last();
    let last = pieces.last();
    assert(front.push(last) =~= pieces);
    law_join_push(front, seq![c], last);
    law_split_single(last, c);
    if front.len() == 0 {
        assert(pieces =~= seq![last]);
    } else {
        assert forall|k: int| 0 <= k < front.len() implies !(#[trigger] front[k]).contains(c) by {
            assert(front[k] == pieces[k]);
        }
        law_split_undoes_join(front, c);
        law_split_at_separator(join(front, seq![c]), c, last);
        assert(front + seq![last] =~= pieces);
    }
}

/// Segments before others are resolved first.
proof fn lemma_front(a: Seq<Seq<char>>, b: Seq<Seq<char>>, i: int, kept: Seq<Seq<char>>)
    requires
        0 <= i <= a.len(),
    ensures
        resolved_segments(a + b, i, kept) == resolved_segments(b, 0, resolved_segments(a, i, kept)),
    decreases a.len() - i,
{
    let all = a + b;
    if i < a.len() {
        assert(all[i] == a[i]);
        if a[i].len() == 0 || a[i] == seq!['.'] {
            lemma_front(a, b, i + 1, kept);
        } else if a[i] == seq!['.', '.'] {
            lemma_front(
                a,
                b,
                i + 1,
                if kept.len() > 0 {
                    kept.drop_last()
                } else {
                    kept
                },
            );
        } else {
            lemma_front(a, b, i + 1, kept.push(a[i]));
        }
    } else {
        lemma_shift(a, b, 0, kept);
    }
}

proof fn lemma_shift(a: Seq<Seq<char>>, b: Seq<Seq<char>>, i: int, kept: Seq<Seq<char>>)
    requires
        0 <= i <= b.len(),
    ensures
        resolved_segments(a + b, a.len() + i, kept) == resolved_segments(b, i, kept),
    decreases b.len() - i,
{
    let all = a + b;
    if i < b.len() {
        assert(all[a.len() + i] == b[i]);
        if b[i].len() == 0 || b[i] == seq!['.'] {
            lemma_shift(a, b, i + 1, kept);
        } else if b[i] == seq!['.', '.'] {
            lemma_shift(
                a,
                b,
                i + 1,
                if kept.len() > 0 {
                    kept.drop_last()
                } else {
                    kept
                },
            );
        } else {
            lemma_shift(a, b, i + 1, kept.push(b[i]));
        }
    }
}

proof fn lemma_segments_stay(segments: Seq<Seq<char>>, i: int, kept: Seq<Seq<char>>)
    requires
        0 <= i <= segments.len(),
        are_segments(segments),
    ensures
        resolved_segments(segments, i, kept) == kept + segments.skip(i),
    decreases segments.len() - i,
{
    if i < segments.len() {
        assert(is_segment(segments[i]));
        lemma_segments_stay(segments, i + 1, kept.push(segments[i]));
        assert(kept.push(segments[i]) + segments.skip(i + 1) =~= kept + segments.skip(i));
    } else {
        assert(kept + segments.skip(i) =~= kept);
    }
}

/// An empty segment and a dot change nothing, a segment and the two dots behind
/// it cancel out, and two dots at the root lead to the root.
pub proof fn law_dot_segments(a: Seq<Seq<char>>, x: Seq<char>, b: Seq<Seq<char>>)
    requires
        is_segment(x),
    ensures
        ({
            let none = Seq::<Seq<char>>::empty();
            let plain = resolved_segments(a + b, 0, none);
            &&& resolved_segments(a + seq![Seq::<char>::empty()] + b, 0, none) == plain
            &&& resolved_segments(a + seq![seq!['.']] + b, 0, none) == plain
            &&& resolved_segments(a + seq![x, seq!['.', '.']] + b, 0, none) == plain
            &&& resolved_segments(seq![seq!['.', '.']] + b, 0, none) == resolved_segments(b, 0, none)
        }),
{
    let none = Seq::<Seq<char>>::empty();
    let kept = resolved_segments(a, 0, none);
    let empty = seq![Seq::<char>::empty()];
    let dot = seq![seq!['.']];
    let up = seq![seq!['.', '.']];
    let both = seq![x, seq!['.', '.']];
    lemma_front(a, b, 0, none);
    assert(a + empty + b =~= a + (empty + b));
    assert(a + dot + b =~= a + (dot + b));
    assert(a + both + b =~= a + (both + b));
    lemma_front(a, empty + b, 0, none);
    lemma_front(a, dot + b, 0, none);
    lemma_front(a, both + b, 0, none);
    lemma_front(empty, b, 0, kept);
    lemma_front(dot, b, 0, kept);
    lemma_front(both, b, 0, kept);
    lemma_front(up, b, 0, none);
    reveal_with_fuel(resolved_segments, 3);
    assert(seq!['.', '.'].len() == 2 && seq!['.'].len() == 1);
    assert(kept.push(x).drop_last() =~= kept);
}

/// Segments that are in order all stay.
pub proof fn law_segments_stay(segments: Seq<Seq<char>>)
    requires
        are_segments(segments),
    ensures
        resolved_segments(segments, 0, Seq::empty()) == segments,
{
    lemma_segments_stay(segments, 0, Seq::empty());
    assert(Seq::<Seq<char>>::empty() + segments.skip(0) =~= segments);
}

/// A path in normal form stays as it is, with or without a slash at its end.
pub proof fn law_normal_path_stays(segments: Seq<Seq<char>>)
    requires
        are_segments(segments),
    ensures
        normalized(path_of(segments)) == path_of(segments),
        segments.len() > 0 ==> normalized(path_of(segments).push('/')) == path_of(segments).push('/'),
        normalized(Seq::empty()) == seq!['/'],
{
    let none = Seq::<char>::empty();
    let root = seq![none];
    let empty = Seq::<Seq<char>>::empty();
    law_split_single(none, '/');
    law_segments_stay(segments);
    assert(join(empty, seq!['/']) =~= none);
    assert(split(none, '/') =~= root);
    assert(resolved_segments(root, 0, empty) == empty) by {
        reveal_with_fuel(resolved_segments, 2);
    }
    assert(seq!['/'] + none =~= seq!['/']);
    if segments.len() == 0 {
        assert(segments =~= empty);
        law_split_at_separator(none, '/', none);
        assert(none + seq!['/'] + none =~= seq!['/']);
        assert(root + root =~= seq![none, none]);
        assert(resolved_segments(root + root, 0, empty) == empty) by {
            reveal_with_fuel(resolved_segments, 3);
        }
    } else {
        let text = join(segments, seq!['/']);
        assert forall|k: int| 0 <= k < segments.len() implies !(#[trigger] segments[k]).contains('/') by {
            assert(is_segment(segments[k]));
        }
        law_split_undoes_join(segments, '/');
        law_split_at_separator(none, '/', text);
        assert(none + seq!['/'] + text =~= path_of(segments));
        lemma_front(root, segments, 0, empty);
        lemma_last(segments);
        let long = path_of(segments).push('/');
        assert(long =~= path_of(segments) + seq!['/'] + none);
        law_split_at_separator(path_of(segments), '/', none);
        lemma_front(root + segments, root, 0, empty);
        assert(resolved_segments(root, 0, segments) == segments) by {
            reveal_with_fuel(resolved_segments, 2);
        }
    }
}

/// The text of segments does not end with a slash.
proof fn lemma_last(segments: Seq<Seq<char>>)
    requires
        segments.len() > 0,
        are_segments(segments),
    ensures
        join(segments, seq!['/']).len() > 0,
        join(segments, seq!['/']).last() != '/',
        path_of(segments).last() != '/',
{
    let last = segments.last();
    let front = segments.drop_last();
    assert(is_segment(segments[segments.len() - 1]));
    assert(front.push(last) =~= segments);
    law_join_push(front, seq!['/'], last);
    let text = join(segments, seq!['/']);
    assert(text.last() == last.last());
    assert(last.contains(last.last()));
    assert(path_of(segments).last() == text.last());
}

/// A path whose decoded form climbs up, or is not normal, is refused; any other
/// is taken as it is, with a slash in front.
pub proof fn law_clean_path(segments: Seq<Seq<char>>, text: Seq<char>)
    requires
        are_segments(segments),
    ensures
        clean_path(Some(path_of(segments))) == Some(path_of(segments)),
        clean_path(None) is None,
        text.len() > 0 && text[0] == '/' && split(text, '/').contains(seq!['.', '.']) ==> clean_path(
            Some(text),
        ) is None,
        clean_path(Some(text)) matches Some(path) ==> normalized(path) == path && (path == text || path
            == seq!['/'] + text),
{
    let path = path_of(segments);
    let none = Seq::<char>::empty();
    law_normal_path_stays(segments);
    if split(path, '/').contains(seq!['.', '.']) {
        let k = split(path, '/').index_of(seq!['.', '.']);
        law_split_single(none, '/');
        if segments.len() == 0 {
            assert(segments =~= Seq::<Seq<char>>::empty());
            law_split_at_separator(none, '/', none);
            assert(none + seq!['/'] + none =~= path);
            assert(split(path, '/')[k] == none);
            assert(none.len() != seq!['.', '.'].len());
        } else {
            let rest = join(segments, seq!['/']);
            assert forall|i: int| 0 <= i < segments.len() implies !(#[trigger] segments[i]).contains(
                '/',
            ) by {
                assert(is_segment(segments[i]));
            }
            law_split_undoes_join(segments, '/');
            law_split_at_separator(none, '/', rest);
            assert(none + seq!['/'] + rest =~= path);
            assert(split(path, '/') =~= seq![none] + segments);
            if k == 0 {
                assert(none.len() != seq!['.', '.'].len());
            } else {
                assert(is_segment(segments[k - 1]));
            }
        }
    }
}

} // verus!
