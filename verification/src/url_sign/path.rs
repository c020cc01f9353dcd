//! Decoding and checking of the paths that are signed.

use vstd::prelude::*;

use crate::path_sanitize::{normalize_rewritten_path, normalized};
use crate::text::{concat, opt_text, same_text, split, split_text, starts_with};
use crate::url_sign::percent::{decoded_text, percent_decode};

verus! {

/// A text with a leading slash, which is added where there is none.
pub open spec fn absolute(s: Seq<char>) -> Seq<char> {
    if s.len() > 0 && s[0] == '/' {
        s
    } else {
        seq!['/'] + s
    }
}

/// The absolute path of a decoded one, where decoding gives `decoded`.
pub open spec fn decoded_path(decoded: Option<Seq<char>>) -> Option<Seq<char>> {
    match decoded {
        Some(text) => Some(absolute(text)),
        None => None,
    }
}

/// A decoded path, where decoding gives `decoded`, if it is in normal form
/// and has no `..` segment.
pub open spec fn clean_path(decoded: Option<Seq<char>>) -> Option<Seq<char>> {
    match decoded_path(decoded) {
        Some(path) => if split(path, '/').contains(seq!['.', '.']) || normalized(path) != path {
            None
        } else {
            Some(path)
        },
        None => None,
    }
}

/// The path that a percent-coded path stands for, if it is acceptable.
pub open spec fn sanitized(raw: Seq<char>) -> Option<Seq<char>> {
    clean_path(decoded_text(raw))
}

/// The absolute path of one that is decoded already.
pub fn absolute_path(decoded: Option<String>) -> (r: Option<String>)
    ensures
        opt_text(r) == decoded_path(opt_text(decoded)),
{
    let text: String = match decoded {
        Some(t) => t,
        None => {
            return None;
        },
    };
    proof {
        reveal_strlit("/");
        assert("/"@ =~= seq!['/']);
    }
    if starts_with(text.as_str(), "/") {
        assert(text@.take(1) =~= seq!['/']);
        assert(text@[0] == seq!['/'][0]);
        Some(text)
    } else {
        assert(!(text@.len() > 0 && text@[0] == '/')) by {
            if text@.len() > 0 && text@[0] == '/' {
                assert(seq!['/'] =~= text@.take(1));
            }
        }
        Some(concat("/", text.as_str()))
    }
}

/// Decode a path, which gets a leading slash where it has none.
pub fn percent_decode_path(path: &str) -> (r: Option<String>)
    ensures
        opt_text(r) == decoded_path(decoded_text(path@)),
{
    absolute_path(percent_decode(path))
}

/// Check a path that is decoded already.
pub fn check_decoded_path(decoded: Option<String>) -> (r: Option<String>)
    ensures
        opt_text(r) == clean_path(opt_text(decoded)),
{
    let path: String = match absolute_path(decoded) {
        Some(p) => p,
        None => {
            return None;
        },
    };
    proof {
        reveal_strlit("..");
        assert(".."@ =~= seq!['.', '.']);
    }
    let segments = split_text(path.as_str(), '/');
    let ghost all = split(path@, '/');
    let mut i: usize = 0;
    while i < segments.len()
        invariant
            i <= segments@.len(),
            all == split(path@, '/'),
            segments@.map_values(|t: String| t@) == all,
            ".."@ == seq!['.', '.'],
            decoded_path(opt_text(decoded)) == Some(path@),
            forall|k: int| 0 <= k < i ==> #[trigger] all[k] != seq!['.', '.'],
        decreases segments@.len() - i,
    {
        assert(all[i as int] == segments@[i as int]@);
        if same_text(segments[i].as_str(), "..") {
            assert(all[i as int] == seq!['.', '.']);
            return None;
        }
        i = i + 1;
    }
    let normal = normalize_rewritten_path(path.as_str());
    if !same_text(normal.as_str(), path.as_str()) {
        return None;
    }
    Some(path)
}

/// Decode a path, and refuse what is not in normal form.
pub fn sanitize_resource_path(raw: &str) -> (r: Option<String>)
    ensures
        opt_text(r) == sanitized(raw@),
{
    check_decoded_path(percent_decode(raw))
}

/// A path that is accepted is absolute and stands for itself in normal form.
pub proof fn law_sanitized_is_normal(decoded: Option<Seq<char>>)
    requires
        clean_path(decoded) is Some,
    ensures
        clean_path(decoded)->0[0] == '/',
        normalized(clean_path(decoded)->0) == clean_path(decoded)->0,
        !split(clean_path(decoded)->0, '/').contains(seq!['.', '.']),
{
}

} // verus!
