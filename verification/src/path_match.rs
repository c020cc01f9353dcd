//! Path prefix matching by whole path segments.

use vstd::prelude::*;
use vstd::utf8::encode_utf8;

use crate::text::{concat, same_text, starts_with, trim_end, trim_end_char};

verus! {

/// How specific a path prefix is: its length in bytes, without trailing slashes.
pub open spec fn prefix_specificity(prefix: Seq<char>) -> nat {
    let p = trim_end(prefix, '/');
    if p.len() == 0 {
        1
    } else {
        encode_utf8(p).len()
    }
}

/// Whether `path` is the prefix or lies below it. Trailing slashes of the prefix
/// do not count, and the empty prefix matches every path.
pub open spec fn prefix_matches(path: Seq<char>, prefix: Seq<char>) -> bool {
    let p = trim_end(prefix, '/');
    p.len() == 0 || path == p || p.push('/').is_prefix_of(path)
}

/// The specificity of a path prefix.
pub fn gateway_path_prefix_specificity(path_prefix: &str) -> (r: usize)
    ensures
        r == prefix_specificity(path_prefix@),
{
    let p = trim_end_char(path_prefix, '/');
    if p.as_str().is_empty() {
        1
    } else {
        p.as_str().as_bytes().len()
    }
}

/// Whether a path matches a path prefix.
///
/// A prefix `/foo` matches `/foo`, `/foo/` and `/foo/bar` but not `/foobar`.
pub fn gateway_path_prefix_matches(path: &str, path_prefix: &str) -> (r: bool)
    ensures
        r == prefix_matches(path@, path_prefix@),
{
    let prefix = trim_end_char(path_prefix, '/');
    if prefix.as_str().is_empty() {
        return true;
    }
    if same_text(path, prefix.as_str()) {
        return true;
    }
    proof {
        reveal_strlit("/");
        assert(prefix@ + "/"@ =~= prefix@.push('/'));
    }
    let below = concat(prefix.as_str(), "/");
    starts_with(path, below.as_str())
}

proof fn lemma_trim_push(prefix: Seq<char>)
    ensures
        trim_end(prefix.push('/'), '/') == trim_end(prefix, '/'),
{
    assert(prefix.push('/').drop_last() =~= prefix);
}

/// A trailing slash of a prefix makes no difference.
pub proof fn law_trailing_slash_ignored(path: Seq<char>, prefix: Seq<char>)
    ensures
        prefix_matches(path, prefix.push('/')) == prefix_matches(path, prefix),
        prefix_specificity(prefix.push('/')) == prefix_specificity(prefix),
{
    lemma_trim_push(prefix);
}

/// What matches a prefix matches below it too.
pub proof fn law_prefix_covers_below(path: Seq<char>, prefix: Seq<char>, rest: Seq<char>)
    requires
        prefix_matches(path, prefix),
    ensures
        prefix_matches(path.push('/') + rest, prefix),
{
    let p = trim_end(prefix, '/');
    let longer = path.push('/') + rest;
    if p.len() > 0 {
        assert(p.push('/') =~= longer.take(p.len() as int + 1));
    }
}

/// A prefix does not match a path that goes on within its last segment.
pub proof fn law_segment_boundary(prefix: Seq<char>, rest: Seq<char>)
    requires
        prefix.len() > 0,
        prefix.last() != '/',
        rest.len() > 0,
        rest[0] != '/',
    ensures
        !prefix_matches(prefix + rest, prefix),
{
    let p = trim_end(prefix, '/');
    assert(p == prefix);
    assert((prefix + rest)[prefix.len() as int] == rest[0]);
    if p.push('/').is_prefix_of(prefix + rest) {
        assert(p.push('/')[p.len() as int] == (prefix + rest)[p.len() as int]);
    }
}

} // verus!
