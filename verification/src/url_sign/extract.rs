//! Signature, expiry and key id of a request.

use vstd::prelude::*;

use crate::number::{all_digits, is_dec_digit};
use crate::query::query_pair;
use crate::request::Uri;
use crate::signature::mac::nibble;
use crate::text::{copy_text, opt_text, opt_view, same_text, split, split_at_char, split_once, split_text, strip_prefix, stripped, text_of, to_chars, views};
use crate::url_sign::config::{Encoding, Placement};

verus! {

/// What is taken from a signed URL.
#[derive(Debug)]
pub struct ExtractedSignature {
    pub signature: String,
    pub expires: Option<String>,
    pub key_id: Option<String>,
    /// For path placement, the path behind the signature, as it stands.
    pub resource_path_raw: Option<String>,
}

/// What is taken from a signed URL, as mathematical data.
pub struct Extracted {
    pub signature: Seq<char>,
    pub expires: Option<Seq<char>>,
    pub key_id: Option<Seq<char>>,
    pub resource: Option<Seq<char>>,
}

impl View for ExtractedSignature {
    type V = Extracted;

    open spec fn view(&self) -> Extracted {
        Extracted {
            signature: self.signature@,
            expires: opt_text(self.expires),
            key_id: opt_text(self.key_id),
            resource: opt_text(self.resource_path_raw),
        }
    }
}

pub open spec fn extracted_view(x: Option<ExtractedSignature>) -> Option<Extracted> {
    match x {
        Some(e) => Some(e@),
        None => None,
    }
}

/// The value of a piece of a query, where it has one.
pub open spec fn piece_value(piece: Seq<char>) -> Option<Seq<char>> {
    match split_once(piece, '=') {
        Some((_, value)) => Some(value),
        None => None,
    }
}

/// What the first `n` pieces of a query say of signature, expiry and key id: a
/// later piece replaces an earlier one.
pub open spec fn marks(
    pieces: Seq<Seq<char>>,
    n: int,
    signature_param: Seq<char>,
    expires_param: Seq<char>,
    key_id_param: Option<Seq<char>>,
) -> (Option<Seq<char>>, Option<Seq<char>>, Option<Seq<char>>)
    decreases n,
{
    if n <= 0 {
        (None, None, None)
    } else {
        let (s, e, k) = marks(pieces, n - 1, signature_param, expires_param, key_id_param);
        let piece = pieces[n - 1];
        let key = query_pair(piece).0;
        if piece.len() == 0 {
            (s, e, k)
        } else if key == signature_param {
            (piece_value(piece), e, k)
        } else if key == expires_param {
            (s, piece_value(piece), k)
        } else if key_id_param == Some(key) {
            (s, e, piece_value(piece))
        } else {
            (s, e, k)
        }
    }
}

/// What a query holds.
pub open spec fn query_extract(
    query: Option<Seq<char>>,
    signature_param: Seq<char>,
    expires_param: Seq<char>,
    key_id_param: Option<Seq<char>>,
) -> Option<Extracted> {
    match query {
        None => None,
        Some(q) => {
            let pieces = split(q, '&');
            match marks(
                pieces,
                pieces.len() as int,
                signature_param,
                expires_param,
                key_id_param,
            ) {
                (Some(signature), expires, key_id) => Some(
                    Extracted { signature, expires, key_id, resource: None },
                ),
                _ => None,
            }
        },
    }
}

/// A number of at most twenty digits.
pub open spec fn is_expires(s: Seq<char>) -> bool {
    0 < s.len() <= 20 && all_digits(s)
}

/// A character that a signature may be written with.
pub open spec fn is_signature_char(c: char, encoding: Encoding) -> bool {
    match encoding {
        Encoding::Hex => nibble(c) is Some,
        Encoding::Base64Url => 'a' <= c <= 'z' || 'A' <= c <= 'Z' || '0' <= c <= '9' || c == '_' || c
            == '-',
    }
}

/// A text that a signature may be.
pub open spec fn is_signature(s: Seq<char>, encoding: Encoding) -> bool {
    s.len() > 0 && forall|i: int| 0 <= i < s.len() ==> is_signature_char(#[trigger] s[i], encoding)
}

/// The first `n` pieces without the empty ones.
pub open spec fn nonempty(pieces: Seq<Seq<char>>, n: int) -> Seq<Seq<char>>
    decreases n,
{
    if n <= 0 {
        Seq::empty()
    } else if pieces[n - 1].len() == 0 {
        nonempty(pieces, n - 1)
    } else {
        nonempty(pieces, n - 1).push(pieces[n - 1])
    }
}

/// What a path holds behind a prefix: expiry, signature and resource.
pub open spec fn path_extract(path: Seq<char>, prefix: Seq<char>, encoding: Encoding) -> Option<
    Extracted,
> {
    match stripped(path, prefix) {
        None => None,
        Some(after) => {
            let pieces = split(after, '/');
            let segments = nonempty(pieces, pieces.len() as int);
            if after.len() == 0 || after[0] != '/' || segments.len() < 2 || !is_expires(segments[0])
                || !is_signature(segments[1], encoding) {
                None
            } else {
                let start = prefix.len() + 1 + segments[0].len() + 1 + segments[1].len();
                Some(
                    Extracted {
                        signature: segments[1],
                        expires: Some(segments[0]),
                        key_id: None,
                        resource: Some(
                            if segments.len() == 2 || start >= path.len() {
                                seq!['/']
                            } else {
                                path.skip(start as int)
                            },
                        ),
                    },
                )
            }
        },
    }
}

/// Take signature, expiry and key id from a query.
pub fn extract_query(
    uri: &Uri,
    signature_param: &str,
    expires_param: &str,
    key_id_param: Option<&str>,
) -> (r: Option<ExtractedSignature>)
    ensures
        extracted_view(r) == query_extract(
            opt_text(uri.query),
            signature_param@,
            expires_param@,
            opt_view(key_id_param),
        ),
{
    let query: &String = match &uri.query {
        Some(q) => q,
        None => {
            return None;
        },
    };
    let pieces = split_text(query.as_str(), '&');
    let ghost all = split(query@, '&');
    let mut signature: Option<String> = None;
    let mut expires: Option<String> = None;
    let mut key_id: Option<String> = None;
    let mut i: usize = 0;
    while i < pieces.len()
        invariant
            i <= pieces@.len(),
            all == split(query@, '&'),
            pieces@.map_values(|t: String| t@) == all,
            (opt_text(signature), opt_text(expires), opt_text(key_id)) == marks(
                all,
                i as int,
                signature_param@,
                expires_param@,
                opt_view(key_id_param),
            ),
        decreases pieces@.len() - i,
    {
        let piece: &str = pieces[i].as_str();
        assert(all[i as int] == piece@);
        if !piece.is_empty() {
            let (key, value): (String, Option<String>) = match split_at_char(piece, '=') {
                Some((k, v)) => (k, Some(v)),
                None => (copy_text(piece), None),
            };
            let of_key_id = match key_id_param {
                Some(kid) => same_text(key.as_str(), kid),
                None => false,
            };
            if same_text(key.as_str(), signature_param) {
                signature = value;
            } else if same_text(key.as_str(), expires_param) {
                expires = value;
            } else if of_key_id {
                key_id = value;
            }
        }
        i = i + 1;
    }
    match signature {
        Some(s) => Some(
            ExtractedSignature { signature: s, expires, key_id, resource_path_raw: None },
        ),
        None => None,
    }
}

/// Whether a text is a number of at most twenty digits.
pub fn is_valid_expires(s: &str) -> (r: bool)
    ensures
        r == is_expires(s@),
{
    let chars = to_chars(s);
    let n: usize = chars.len();
    if n == 0 || n > 20 {
        return false;
    }
    let mut i: usize = 0;
    while i < n
        invariant
            n == chars@.len(),
            chars@ == s@,
            0 < n <= 20,
            i <= n,
            forall|k: int| 0 <= k < i ==> is_dec_digit(#[trigger] s@[k]),
        decreases n - i,
    {
        if !('0' <= chars[i] && chars[i] <= '9') {
            assert(!is_dec_digit(s@[i as int]));
            return false;
        }
        i = i + 1;
    }
    true
}

fn is_valid_signature(s: &str, encoding: Encoding) -> (r: bool)
    ensures
        r == is_signature(s@, encoding),
{
    let chars = to_chars(s);
    let n: usize = chars.len();
    if n == 0 {
        return false;
    }
    let mut i: usize = 0;
    while i < n
        invariant
            n == chars@.len(),
            chars@ == s@,
            0 < n,
            i <= n,
            forall|k: int| 0 <= k < i ==> is_signature_char(#[trigger] s@[k], encoding),
        decreases n - i,
    {
        let c: char = chars[i];
        let ok = match encoding {
            Encoding::Hex => ('0' <= c && c <= '9') || ('a' <= c && c <= 'f') || ('A' <= c && c <= 'F'),
            Encoding::Base64Url => ('a' <= c && c <= 'z') || ('A' <= c && c <= 'Z') || ('0' <= c && c
                <= '9') || c == '_' || c == '-',
        };
        if !ok {
            assert(!is_signature_char(s@[i as int], encoding));
            return false;
        }
        i = i + 1;
    }
    true
}

/// Take expiry, signature and resource from a path.
pub fn extract_path(path: &str, path_prefix: &str, encoding: Encoding) -> (r: Option<
    ExtractedSignature,
>)
    ensures
        extracted_view(r) == path_extract(path@, path_prefix@, encoding),
{
    let after: String = match strip_prefix(path, path_prefix) {
        Some(a) => a,
        None => {
            return None;
        },
    };
    let after_chars = to_chars(after.as_str());
    if after_chars.len() == 0 || after_chars[0] != '/' {
        return None;
    }
    let pieces = split_text(after.as_str(), '/');
    let ghost all = split(after@, '/');
    let mut segments: Vec<String> = Vec::new();
    assert(views(segments@) =~= Seq::<Seq<char>>::empty());
    let mut i: usize = 0;
    while i < pieces.len()
        invariant
            i <= pieces@.len(),
            all == split(after@, '/'),
            pieces@.map_values(|t: String| t@) == all,
            views(segments@) == nonempty(all, i as int),
        decreases pieces@.len() - i,
    {
        assert(all[i as int] == pieces@[i as int]@);
        let ghost earlier = views(segments@);
        if !pieces[i].as_str().is_empty() {
            segments.push(pieces[i].clone());
            assert(views(segments@) =~= earlier.push(all[i as int]));
        }
        i = i + 1;
    }
    let ghost kept = views(segments@);
    assert(kept.len() == segments@.len());
    if segments.len() < 2 {
        return None;
    }
    assert(kept[0] == segments@[0]@ && kept[1] == segments@[1]@);
    let expires: &str = segments[0].as_str();
    if !is_valid_expires(expires) {
        return None;
    }
    let signature: &str = segments[1].as_str();
    if !is_valid_signature(signature, encoding) {
        return None;
    }
    proof {
        reveal_strlit("/");
        assert("/"@ =~= seq!['/']);
    }
    let chars = to_chars(path);
    let n: usize = chars.len();
    let head: usize = to_chars(path_prefix).len();
    let mark: usize = to_chars(signature).len();
    let stamp: usize = to_chars(expires).len();
    let resource: String = if segments.len() == 2 || mark >= n - head || n - head - mark <= stamp + 2 {
        "/".to_owned()
    } else {
        let r = text_of(&chars, head + 1 + stamp + 1 + mark, n);
        assert(r@ =~= path@.skip(path_prefix@.len() + 1 + stamp + 1 + mark));
        r
    };
    Some(
        ExtractedSignature {
            signature: segments[1].clone(),
            expires: Some(segments[0].clone()),
            key_id: None,
            resource_path_raw: Some(resource),
        },
    )
}

/// What a request holds, as its placement says.
pub open spec fn request_extract(
    uri: Uri,
    placement: Placement,
    path_prefix: Option<Seq<char>>,
    signature_param: Seq<char>,
    expires_param: Seq<char>,
    key_id_param: Option<Seq<char>>,
    encoding: Encoding,
) -> Option<Extracted> {
    match placement {
        Placement::Query => query_extract(
            opt_text(uri.query),
            signature_param,
            expires_param,
            key_id_param,
        ),
        Placement::Path => match path_prefix {
            Some(prefix) => path_extract(uri.path@, prefix, encoding),
            None => None,
        },
    }
}

/// Take signature, expiry and key id from a request.
pub fn extract_from_request(
    uri: &Uri,
    placement: Placement,
    path_prefix: Option<&str>,
    signature_param: &str,
    expires_param: &str,
    key_id_param: Option<&str>,
    encoding: Encoding,
) -> (r: Option<ExtractedSignature>)
    ensures
        extracted_view(r) == request_extract(
            *uri,
            placement,
            opt_view(path_prefix),
            signature_param@,
            expires_param@,
            opt_view(key_id_param),
            encoding,
        ),
{
    match placement {
        Placement::Query => extract_query(uri, signature_param, expires_param, key_id_param),
        Placement::Path => match path_prefix {
            Some(prefix) => extract_path(uri.path.as_str(), prefix, encoding),
            None => None,
        },
    }
}

} // verus!
