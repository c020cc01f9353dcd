//! JSON Pointers (RFC 6901).

use vstd::prelude::*;

use crate::json_body::ops::texts;
use crate::text::{same_text, split, split_text, text_of, to_chars};

verus! {

/// The token that `t` writes from position `i` on: `~1` stands for `/` and `~0` for `~`.
pub open spec fn unescaped_from(t: Seq<char>, i: int) -> Option<Seq<char>>
    decreases t.len() - i,
{
    if !(0 <= i < t.len()) {
        Some(Seq::empty())
    } else if t[i] == '~' {
        if i + 1 < t.len() && (t[i + 1] == '0' || t[i + 1] == '1') {
            let c = if t[i + 1] == '0' {
                '~'
            } else {
                '/'
            };
            match unescaped_from(t, i + 2) {
                Some(rest) => Some(seq![c] + rest),
                None => None,
            }
        } else {
            None
        }
    } else {
        match unescaped_from(t, i + 1) {
            Some(rest) => Some(seq![t[i]] + rest),
            None => None,
        }
    }
}

/// The token that `t` writes.
pub open spec fn unescaped(t: Seq<char>) -> Option<Seq<char>> {
    unescaped_from(t, 0)
}

/// The tokens that the pieces of a pointer write.
pub open spec fn unescaped_all(pieces: Seq<Seq<char>>) -> Option<Seq<Seq<char>>>
    decreases pieces.len(),
{
    if pieces.len() == 0 {
        Some(Seq::empty())
    } else {
        match (unescaped_all(pieces.drop_last()), unescaped(pieces.last())) {
            (Some(front), Some(last)) => Some(front.push(last)),
            _ => None,
        }
    }
}

/// The tokens of the pointer `p`: none for the empty pointer, else those
/// between the slashes, the first of which starts the pointer.
pub open spec fn pointer_tokens(p: Seq<char>) -> Option<Seq<Seq<char>>> {
    if p.len() == 0 {
        Some(Seq::empty())
    } else if p[0] == '/' {
        unescaped_all(split(p.skip(1), '/'))
    } else {
        None
    }
}

/// Decode one pointer token.
fn unescape_token(piece: &str) -> (r: Option<String>)
    ensures
        match r {
            Some(t) => unescaped(piece@) == Some(t@),
            None => unescaped(piece@) is None,
        },
{
    let chars = to_chars(piece);
    let n: usize = chars.len();
    let mut out = String::new();
    let mut i: usize = 0;
    assert(match unescaped_from(piece@, 0) {
        Some(rest) => unescaped(piece@) == Some(out@ + rest),
        None => unescaped(piece@) is None,
    }) by {
        if let Some(rest) = unescaped_from(piece@, 0) {
            assert(out@ + rest =~= rest);
        }
    }
    while i < n
        invariant
            n == chars@.len(),
            chars@ == piece@,
            i <= n,
            match unescaped_from(piece@, i as int) {
                Some(rest) => unescaped(piece@) == Some(out@ + rest),
                None => unescaped(piece@) is None,
            },
        decreases n - i,
    {
        let ghost done = out@;
        let ghost at = i as int;
        if chars[i] == '~' {
            if i + 1 < n && (chars[i + 1] == '0' || chars[i + 1] == '1') {
                if chars[i + 1] == '0' {
                    out.push('~');
                } else {
                    out.push('/');
                }
                i = i + 2;
            } else {
                return None;
            }
        } else {
            out.push(chars[i]);
            i = i + 1;
        }
        proof {
            if let Some(rest) = unescaped_from(piece@, i as int) {
                assert(done + (seq![out@.last()] + rest) =~= out@ + rest);
            }
        }
    }
    proof {
        assert(out@ + Seq::<char>::empty() =~= out@);
    }
    Some(out)
}

/// Decode a JSON Pointer into its tokens; `None` when it is not one.
pub fn compile_pointer(pointer: &str) -> (r: Option<Vec<String>>)
    ensures
        match r {
            Some(tokens) => pointer_tokens(pointer@) == Some(texts(tokens@)),
            None => pointer_tokens(pointer@) is None,
        },
{
    let chars = to_chars(pointer);
    let mut tokens: Vec<String> = Vec::new();
    if chars.len() == 0 {
        assert(texts(tokens@) =~= Seq::<Seq<char>>::empty());
        return Some(tokens);
    }
    if chars[0] != '/' {
        return None;
    }
    let rest = text_of(chars.as_slice(), 1, chars.len());
    assert(rest@ =~= pointer@.skip(1));
    let pieces = split_text(rest.as_str(), '/');
    let ghost all = split(pointer@.skip(1), '/');
    let mut i: usize = 0;
    assert(texts(tokens@) =~= Seq::<Seq<char>>::empty());
    while i < pieces.len()
        invariant
            i <= pieces@.len(),
            pointer@.len() > 0,
            pointer@[0] == '/',
            all == split(pointer@.skip(1), '/'),
            pieces@.map_values(|t: String| t@) == all,
            unescaped_all(all.take(i as int)) == Some(texts(tokens@)),
        decreases pieces@.len() - i,
    {
        let ghost next = all.take(i + 1);
        assert(next.drop_last() =~= all.take(i as int));
        assert(next.last() == pieces@[i as int]@);
        match unescape_token(pieces[i].as_str()) {
            Some(t) => {
                let ghost before = tokens@;
                tokens.push(t);
                assert(texts(tokens@) =~= texts(before).push(t@));
            },
            None => {
                proof {
                    lemma_unescape_fails(all, i as int);
                }
                return None;
            },
        }
        i = i + 1;
    }
    assert(all.take(all.len() as int) =~= all);
    Some(tokens)
}

proof fn lemma_unescape_fails(pieces: Seq<Seq<char>>, i: int)
    requires
        0 <= i < pieces.len(),
        unescaped(pieces[i]) is None,
    ensures
        unescaped_all(pieces) is None,
    decreases pieces.len(),
{
    if i < pieces.len() - 1 {
        assert(pieces.drop_last()[i] == pieces[i]);
        lemma_unescape_fails(pieces.drop_last(), i);
    }
}

/// Whether two pointers are equal or one lies below the other.
pub open spec fn overlap(a: Seq<Seq<char>>, b: Seq<Seq<char>>) -> bool {
    a.is_prefix_of(b) || b.is_prefix_of(a)
}

/// Whether two token lists hold the same texts up to the length of the shorter.
pub fn pointers_overlap(a: &Vec<String>, b: &Vec<String>) -> (r: bool)
    ensures
        r == overlap(texts(a@), texts(b@)),
{
    let ghost x = texts(a@);
    let ghost y = texts(b@);
    let n: usize = if a.len() < b.len() {
        a.len()
    } else {
        b.len()
    };
    let mut i: usize = 0;
    while i < n
        invariant
            n <= a@.len(),
            n <= b@.len(),
            n == a@.len() || n == b@.len(),
            i <= n,
            x == texts(a@),
            y == texts(b@),
            forall|k: int| 0 <= k < i ==> x[k] == y[k],
        decreases n - i,
    {
        assert(x[i as int] == a@[i as int]@ && y[i as int] == b@[i as int]@);
        if !same_text(a[i].as_str(), b[i].as_str()) {
            proof {
                if x.is_prefix_of(y) {
                    assert(y.subrange(0, x.len() as int)[i as int] == x[i as int]);
                }
                if y.is_prefix_of(x) {
                    assert(x.subrange(0, y.len() as int)[i as int] == y[i as int]);
                }
            }
            return false;
        }
        i = i + 1;
    }
    proof {
        if n == a@.len() {
            assert(x =~= y.subrange(0, x.len() as int));
        } else {
            assert(y =~= x.subrange(0, y.len() as int));
        }
    }
    true
}

/// Whether two token lists are equal.
pub fn same_tokens(a: &Vec<String>, b: &Vec<String>) -> (r: bool)
    ensures
        r == (texts(a@) == texts(b@)),
{
    let ghost x = texts(a@);
    let ghost y = texts(b@);
    if a.len() != b.len() {
        return false;
    }
    let r = pointers_overlap(a, b);
    proof {
        if r {
            assert(x.subrange(0, x.len() as int) =~= x);
            assert(y.subrange(0, y.len() as int) =~= y);
        } else if x == y {
            assert(x =~= y.subrange(0, x.len() as int));
        }
    }
    r
}

/// Overlap does not depend on the order of the two pointers.
pub proof fn law_overlap_symmetric(a: Seq<Seq<char>>, b: Seq<Seq<char>>)
    ensures
        overlap(a, b) == overlap(b, a),
{
}

} // verus!
