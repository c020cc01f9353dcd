//! The text that is signed.

use vstd::prelude::*;
use vstd::utf8::encode_utf8;

use crate::query::{query_pair, split_pair};
use crate::request::{header_lines, header_text, text_at, Uri};
use crate::text::{before, before_char, concat3, copy_text, find, find_char, join, join_text, lemma_less_total, lemma_less_transitive, less, lower, lower_text, opt_text, opt_view, same_text, split, split_text, text_less, text_of, to_chars, upper, upper_text, views};
use crate::url_sign::config::{CanonicalConfig, Placement};
use crate::url_sign::path::{decoded_path, percent_decode_path, sanitize_resource_path, sanitized};
use crate::url_sign::percent::{bytes_text, decoded_text, percent_encode_query_value};

verus! {

/// What the signed text is made from.
pub struct CanonicalInputs<'a> {
    pub method: &'a str,
    pub uri: &'a Uri,
    pub headers: &'a http::HeaderMap<http::HeaderValue>,
    pub placement: Placement,
    pub canonical: &'a CanonicalConfig,
    pub signature_param: &'a str,
    pub expires_param: &'a str,
    pub key_id_param: Option<&'a str>,
    /// The expiry as it stands in the URL; empty where there is none.
    pub expires: &'a str,
    /// For path placement, the path behind the signature.
    pub resource_path_raw: Option<&'a str>,
}

/// Whether a pair comes before another: by key, then by value.
pub open spec fn pair_less(a: (Seq<char>, Seq<char>), b: (Seq<char>, Seq<char>)) -> bool {
    less(a.0, b.0) || (a.0 == b.0 && less(a.1, b.1))
}

/// An ordered list with one more pair in its place. A pair that is there
/// already is not repeated.
pub open spec fn placed(list: Seq<(Seq<char>, Seq<char>)>, pair: (Seq<char>, Seq<char>)) -> Seq<
    (Seq<char>, Seq<char>),
>
    decreases list.len(),
{
    if list.len() == 0 {
        seq![pair]
    } else if list[0] == pair {
        list
    } else if pair_less(pair, list[0]) {
        seq![pair] + list
    } else {
        seq![list[0]] + placed(list.skip(1), pair)
    }
}

/// Whether a key is one of the parameters of the signature.
pub open spec fn is_signature_key(
    key: Seq<char>,
    signature_param: Seq<char>,
    expires_param: Seq<char>,
    key_id_param: Option<Seq<char>>,
) -> bool {
    key == signature_param || key == expires_param || key_id_param == Some(key)
}

/// The pairs of the first `n` pieces of a query in order, without those of the
/// signature.
pub open spec fn signed_pairs(
    pieces: Seq<Seq<char>>,
    n: int,
    signature_param: Seq<char>,
    expires_param: Seq<char>,
    key_id_param: Option<Seq<char>>,
) -> Seq<(Seq<char>, Seq<char>)>
    decreases n,
{
    if n <= 0 {
        Seq::empty()
    } else {
        let earlier = signed_pairs(pieces, n - 1, signature_param, expires_param, key_id_param);
        if pieces[n - 1].len() == 0 || is_signature_key(
            query_pair(pieces[n - 1]).0,
            signature_param,
            expires_param,
            key_id_param,
        ) {
            earlier
        } else {
            placed(earlier, query_pair(pieces[n - 1]))
        }
    }
}

/// A pair as it is signed.
pub open spec fn pair_text(pair: (Seq<char>, Seq<char>)) -> Seq<char> {
    pair.0 + "="@ + bytes_text(encode_utf8(pair.1))
}

/// A query as it is signed.
pub open spec fn signed_query(
    query: Option<Seq<char>>,
    signature_param: Seq<char>,
    expires_param: Seq<char>,
    key_id_param: Option<Seq<char>>,
) -> Seq<char> {
    match query {
        None => Seq::empty(),
        Some(q) => {
            let pieces = split(q, '&');
            join(
                signed_pairs(
                    pieces,
                    pieces.len() as int,
                    signature_param,
                    expires_param,
                    key_id_param,
                ).map_values(|pair: (Seq<char>, Seq<char>)| pair_text(pair)),
                "&"@,
            )
        },
    }
}

/// The host of a request in lowercase, without its port.
pub open spec fn signed_host(lines: Map<Seq<char>, Seq<Option<Seq<char>>>>) -> Seq<char> {
    match text_at(lines, "host"@) {
        None => Seq::empty(),
        Some(host) => lower(
            match find(host, ']') {
                Some(i) => host.take(i + 1),
                None => before(host, ':'),
            },
        ),
    }
}

/// The path that is signed, if it is acceptable: with the signature in the query
/// the decoded one, with the signature in the path the decoded one behind it,
/// which is in normal form.
pub open spec fn signed_path(
    placement: Placement,
    path: Seq<char>,
    resource: Option<Seq<char>>,
) -> Option<Seq<char>> {
    match placement {
        Placement::Query => decoded_path(decoded_text(path)),
        Placement::Path => match resource {
            Some(raw) => sanitized(raw),
            None => None,
        },
    }
}

/// The signed text: five lines.
pub open spec fn signed_text(
    method: Seq<char>,
    path: Seq<char>,
    query: Seq<char>,
    expires: Seq<char>,
    host: Seq<char>,
) -> Seq<char> {
    method + "\n"@ + path + "\n"@ + query + "\n"@ + expires + "\n"@ + host
}

/// The text that is signed, if the path is acceptable.
pub open spec fn canonical_text(
    canonical: CanonicalConfig,
    placement: Placement,
    signature_param: Seq<char>,
    expires_param: Seq<char>,
    key_id_param: Option<Seq<char>>,
    method: Seq<char>,
    uri: Uri,
    lines: Map<Seq<char>, Seq<Option<Seq<char>>>>,
    expires: Seq<char>,
    resource: Option<Seq<char>>,
) -> Option<Seq<char>> {
    match signed_path(placement, uri.path@, resource) {
        None => None,
        Some(path) => Some(
            signed_text(
                if canonical.include_method {
                    upper(method)
                } else {
                    Seq::empty()
                },
                path,
                if canonical.include_query {
                    signed_query(
                        opt_text(uri.query),
                        signature_param,
                        expires_param,
                        key_id_param,
                    )
                } else {
                    Seq::empty()
                },
                expires,
                if canonical.include_host {
                    signed_host(lines)
                } else {
                    Seq::empty()
                },
            ),
        ),
    }
}

/// The path that is signed.
pub fn canonical_path(inputs: &CanonicalInputs<'_>) -> (r: Option<String>)
    ensures
        opt_text(r) == signed_path(
            inputs.placement,
            inputs.uri.path@,
            opt_view(inputs.resource_path_raw),
        ),
{
    match inputs.placement {
        Placement::Query => percent_decode_path(inputs.uri.path.as_str()),
        Placement::Path => match inputs.resource_path_raw {
            Some(raw) => sanitize_resource_path(raw),
            None => None,
        },
    }
}

spec fn string_pairs(list: Seq<(String, String)>) -> Seq<(Seq<char>, Seq<char>)> {
    list.map_values(|p: (String, String)| (p.0@, p.1@))
}

fn place_pair(list: &mut Vec<(String, String)>, pair: (String, String))
    ensures
        string_pairs(final(list)@) == placed(string_pairs(old(list)@), (pair.0@, pair.1@)),
{
    let ghost all = string_pairs(list@);
    let ghost x = (pair.0@, pair.1@);
    let mut p: usize = 0;
    assert(all.take(0) + placed(all.skip(0), x) =~= placed(all, x)) by {
        assert(all.skip(0) =~= all);
    }
    while p < list.len()
        invariant
            p <= list@.len(),
            list@ == old(list)@,
            all == string_pairs(list@),
            x == (pair.0@, pair.1@),
            placed(all, x) == all.take(p as int) + placed(all.skip(p as int), x),
        decreases list@.len() - p,
    {
        let ghost rest = all.skip(p as int);
        let key: &str = list[p].0.as_str();
        let value: &str = list[p].1.as_str();
        assert(rest[0] == (key@, value@));
        let same_key = same_text(pair.0.as_str(), key);
        if same_key && same_text(pair.1.as_str(), value) {
            assert(all.take(p as int) + rest =~= all);
            return ;
        }
        if text_less(pair.0.as_str(), key) || (same_key && text_less(pair.1.as_str(), value)) {
            list.insert(p, pair);
            assert(string_pairs(list@) =~= all.take(p as int) + (seq![x] + rest));
            return ;
        }
        assert(rest.skip(1) =~= all.skip(p + 1));
        assert(all.take(p as int) + (seq![rest[0]] + placed(rest.skip(1), x)) =~= all.take(p + 1)
            + placed(all.skip(p + 1), x));
        p = p + 1;
    }
    assert(all.skip(p as int) =~= Seq::<(Seq<char>, Seq<char>)>::empty());
    list.push(pair);
    assert(string_pairs(list@) =~= all.take(p as int) + seq![x]);
}

/// A query as it is signed: its pairs in order, without those of the signature.
pub fn canonical_query(
    uri: &Uri,
    signature_param: &str,
    expires_param: &str,
    key_id_param: Option<&str>,
) -> (r: String)
    ensures
        r@ == signed_query(
            opt_text(uri.query),
            signature_param@,
            expires_param@,
            opt_view(key_id_param),
        ),
{
    let query: &String = match &uri.query {
        Some(q) => q,
        None => {
            let empty = String::new();
            assert(empty@ =~= Seq::<char>::empty());
            return empty;
        },
    };
    let pieces = split_text(query.as_str(), '&');
    let ghost all = split(query@, '&');
    let mut pairs: Vec<(String, String)> = Vec::new();
    assert(string_pairs(pairs@) =~= Seq::<(Seq<char>, Seq<char>)>::empty());
    let mut i: usize = 0;
    while i < pieces.len()
        invariant
            i <= pieces@.len(),
            all == split(query@, '&'),
            pieces@.map_values(|t: String| t@) == all,
            string_pairs(pairs@) == signed_pairs(
                all,
                i as int,
                signature_param@,
                expires_param@,
                opt_view(key_id_param),
            ),
        decreases pieces@.len() - i,
    {
        let piece: &str = pieces[i].as_str();
        assert(all[i as int] == piece@);
        if !piece.is_empty() {
            let (key, value) = split_pair(piece);
            let of_key_id = match key_id_param {
                Some(kid) => same_text(key.as_str(), kid),
                None => false,
            };
            if !(same_text(key.as_str(), signature_param) || same_text(key.as_str(), expires_param)
                || of_key_id) {
                place_pair(&mut pairs, (key, value));
            }
        }
        i = i + 1;
    }
    let ghost listed = string_pairs(pairs@);
    let ghost texts = listed.map_values(|pair: (Seq<char>, Seq<char>)| pair_text(pair));
    let mut out: Vec<String> = Vec::new();
    let mut j: usize = 0;
    while j < pairs.len()
        invariant
            j <= pairs@.len(),
            listed == string_pairs(pairs@),
            texts == listed.map_values(|pair: (Seq<char>, Seq<char>)| pair_text(pair)),
            views(out@) == texts.take(j as int),
        decreases pairs@.len() - j,
    {
        let ghost earlier = views(out@);
        let value = percent_encode_query_value(pairs[j].1.as_str());
        let text = concat3(pairs[j].0.as_str(), "=", value.as_str());
        assert(text@ == texts[j as int]);
        out.push(text);
        assert(views(out@) =~= earlier.push(text@));
        assert(texts.take(j + 1) =~= texts.take(j as int).push(texts[j as int]));
        j = j + 1;
    }
    assert(texts.take(pairs@.len() as int) =~= texts);
    join_text(&out, "&")
}

/// The host of a request in lowercase, without its port.
pub fn host_without_port(headers: &http::HeaderMap<http::HeaderValue>) -> (r: String)
    ensures
        r@ == signed_host(header_lines(*headers)),
{
    match header_text(headers, "host") {
        None => {
            let empty = String::new();
            assert(empty@ =~= Seq::<char>::empty());
            empty
        },
        Some(host) => {
            let chars = to_chars(host.as_str());
            let n: usize = chars.len();
            match find_char(&chars, ']', 0) {
                Some(i) => {
                    assert(i < n);
                    let head = text_of(&chars, 0, i + 1);
                    assert(head@ =~= host@.take(i + 1));
                    lower_text(head.as_str())
                },
                None => {
                    let head = before_char(host.as_str(), ':');
                    lower_text(head.as_str())
                },
            }
        },
    }
}

/// The text that is signed: method, path, query, expiry and host in lines.
pub fn build_canonical_input(inputs: &CanonicalInputs<'_>) -> (r: Option<String>)
    ensures
        opt_text(r) == canonical_text(
            *inputs.canonical,
            inputs.placement,
            inputs.signature_param@,
            inputs.expires_param@,
            opt_view(inputs.key_id_param),
            inputs.method@,
            *inputs.uri,
            header_lines(*inputs.headers),
            inputs.expires@,
            opt_view(inputs.resource_path_raw),
        ),
{
    let empty = String::new();
    assert(empty@ =~= Seq::<char>::empty());
    let method: String = if inputs.canonical.include_method {
        upper_text(inputs.method)
    } else {
        copy_text(empty.as_str())
    };
    let path: String = match canonical_path(inputs) {
        Some(p) => p,
        None => {
            return None;
        },
    };
    let query: String = if inputs.canonical.include_query {
        canonical_query(
            inputs.uri,
            inputs.signature_param,
            inputs.expires_param,
            inputs.key_id_param,
        )
    } else {
        copy_text(empty.as_str())
    };
    let host: String = if inputs.canonical.include_host {
        host_without_port(inputs.headers)
    } else {
        empty
    };
    let mut out = concat3(method.as_str(), "\n", path.as_str());
    out.append("\n");
    out.append(query.as_str());
    out.append("\n");
    out.append(inputs.expires);
    out.append("\n");
    out.append(host.as_str());
    Some(out)
}

/// A list of pairs in which each comes before the next.
pub open spec fn ordered(list: Seq<(Seq<char>, Seq<char>)>) -> bool {
    forall|i: int, j: int| 0 <= i < j < list.len() ==> pair_less(#[trigger] list[i], #[trigger] list[j])
}

proof fn lemma_pair_less_transitive(
    a: (Seq<char>, Seq<char>),
    b: (Seq<char>, Seq<char>),
    c: (Seq<char>, Seq<char>),
)
    requires
        pair_less(a, b),
        pair_less(b, c),
    ensures
        pair_less(a, c),
{
    if less(a.0, b.0) && less(b.0, c.0) {
        lemma_less_transitive(a.0, b.0, c.0);
    } else if a.0 == b.0 && b.0 == c.0 {
        lemma_less_transitive(a.1, b.1, c.1);
    }
}

proof fn lemma_pair_less_total(a: (Seq<char>, Seq<char>), b: (Seq<char>, Seq<char>))
    ensures
        a == b || pair_less(a, b) || pair_less(b, a),
{
    lemma_less_total(a.0, b.0);
    lemma_less_total(a.1, b.1);
}

proof fn lemma_placed(list: Seq<(Seq<char>, Seq<char>)>, pair: (Seq<char>, Seq<char>))
    requires
        ordered(list),
    ensures
        ordered(placed(list, pair)),
        forall|x: (Seq<char>, Seq<char>)| #[trigger]
            placed(list, pair).contains(x) <==> list.contains(x) || x == pair,
    decreases list.len(),
{
    let r = placed(list, pair);
    if list.len() == 0 {
        assert(r[0] == pair);
    } else if list[0] == pair {
        assert(list.contains(pair));
    } else if pair_less(pair, list[0]) {
        assert forall|i: int, j: int| 0 <= i < j < r.len() implies pair_less(
            #[trigger] r[i],
            #[trigger] r[j],
        ) by {
            if i == 0 && j > 1 {
                assert(pair_less(list[0], list[j - 1]));
                lemma_pair_less_transitive(pair, list[0], list[j - 1]);
            }
        }
        assert forall|x: (Seq<char>, Seq<char>)| #[trigger] r.contains(x) <==> list.contains(x) || x
            == pair by {
            if list.contains(x) {
                let k = list.index_of(x);
                assert(r[k + 1] == x);
            }
            assert(r[0] == pair);
            if r.contains(x) {
                let k = r.index_of(x);
                if k > 0 {
                    assert(list[k - 1] == x);
                }
            }
        }
    } else {
        let rest = list.skip(1);
        assert(ordered(rest)) by {
            assert forall|i: int, j: int| 0 <= i < j < rest.len() implies pair_less(
                #[trigger] rest[i],
                #[trigger] rest[j],
            ) by {
                assert(rest[i] == list[i + 1] && rest[j] == list[j + 1]);
            }
        }
        lemma_placed(rest, pair);
        lemma_pair_less_total(list[0], pair);
        let tail = placed(rest, pair);
        assert forall|i: int, j: int| 0 <= i < j < r.len() implies pair_less(
            #[trigger] r[i],
            #[trigger] r[j],
        ) by {
            assert(r[j] == tail[j - 1]);
            if i == 0 {
                assert(tail.contains(tail[j - 1]));
                if tail[j - 1] != pair {
                    assert(rest.contains(tail[j - 1]));
                    let k = rest.index_of(tail[j - 1]);
                    assert(rest[k] == list[k + 1]);
                }
            } else {
                assert(r[i] == tail[i - 1]);
            }
        }
        assert forall|x: (Seq<char>, Seq<char>)| #[trigger] r.contains(x) <==> list.contains(x) || x
            == pair by {
            if r.contains(x) {
                let k = r.index_of(x);
                if k == 0 {
                    assert(list[0] == x);
                } else {
                    assert(tail[k - 1] == x);
                    assert(tail.contains(x));
                    if rest.contains(x) {
                        let m = rest.index_of(x);
                        assert(list[m + 1] == x);
                    }
                }
            }
            if list.contains(x) || x == pair {
                if list.contains(x) && list.index_of(x) == 0 {
                    assert(r[0] == x);
                } else {
                    if list.contains(x) {
                        let m = list.index_of(x);
                        assert(rest[m - 1] == x);
                    }
                    assert(tail.contains(x));
                    let k = tail.index_of(x);
                    assert(r[k + 1] == x);
                }
            }
        }
    }
}

/// The signed pairs of a query are in order, each once, and are exactly those
/// of its pieces that do not belong to the signature.
pub proof fn law_signed_pairs(
    pieces: Seq<Seq<char>>,
    n: int,
    signature_param: Seq<char>,
    expires_param: Seq<char>,
    key_id_param: Option<Seq<char>>,
)
    requires
        0 <= n <= pieces.len(),
    ensures
        ordered(signed_pairs(pieces, n, signature_param, expires_param, key_id_param)),
        forall|x: (Seq<char>, Seq<char>)| #[trigger]
            signed_pairs(pieces, n, signature_param, expires_param, key_id_param).contains(x)
                <==> exists|i: int|
                {
                    &&& 0 <= i < n
                    &&& (#[trigger] pieces[i]).len() > 0
                    &&& query_pair(pieces[i]) == x
                    &&& !is_signature_key(x.0, signature_param, expires_param, key_id_param)
                },
    decreases n,
{
    if n > 0 {
        law_signed_pairs(pieces, n - 1, signature_param, expires_param, key_id_param);
        let earlier = signed_pairs(pieces, n - 1, signature_param, expires_param, key_id_param);
        let now = signed_pairs(pieces, n, signature_param, expires_param, key_id_param);
        let last = query_pair(pieces[n - 1]);
        let skipped = pieces[n - 1].len() == 0 || is_signature_key(
            last.0,
            signature_param,
            expires_param,
            key_id_param,
        );
        if !skipped {
            lemma_placed(earlier, last);
        }
        assert forall|x: (Seq<char>, Seq<char>)| #[trigger] now.contains(x) <==> exists|i: int|
            {
                &&& 0 <= i < n
                &&& (#[trigger] pieces[i]).len() > 0
                &&& query_pair(pieces[i]) == x
                &&& !is_signature_key(x.0, signature_param, expires_param, key_id_param)
            } by {
            if now.contains(x) {
                if earlier.contains(x) {
                    let i = choose|i: int|
                        {
                            &&& 0 <= i < n - 1
                            &&& (#[trigger] pieces[i]).len() > 0
                            &&& query_pair(pieces[i]) == x
                            &&& !is_signature_key(
                                x.0,
                                signature_param,
                                expires_param,
                                key_id_param,
                            )
                        };
                    assert(pieces[i].len() > 0);
                } else {
                    assert(x == last);
                    assert(pieces[n - 1].len() > 0);
                }
            }
            if exists|i: int|
                {
                    &&& 0 <= i < n
                    &&& (#[trigger] pieces[i]).len() > 0
                    &&& query_pair(pieces[i]) == x
                    &&& !is_signature_key(x.0, signature_param, expires_param, key_id_param)
                } {
                let i = choose|i: int|
                    {
                        &&& 0 <= i < n
                        &&& (#[trigger] pieces[i]).len() > 0
                        &&& query_pair(pieces[i]) == x
                        &&& !is_signature_key(x.0, signature_param, expires_param, key_id_param)
                    };
                if i < n - 1 {
                    assert(earlier.contains(x));
                }
            }
        }
    }
}

proof fn lemma_tail_ordered(list: Seq<(Seq<char>, Seq<char>)>)
    requires
        ordered(list),
        list.len() > 0,
    ensures
        ordered(list.skip(1)),
        forall|x: (Seq<char>, Seq<char>)| #[trigger]
            list.skip(1).contains(x) <==> list.contains(x) && x != list[0],
{
    let rest = list.skip(1);
    assert forall|i: int, j: int| 0 <= i < j < rest.len() implies pair_less(
        #[trigger] rest[i],
        #[trigger] rest[j],
    ) by {
        assert(rest[i] == list[i + 1] && rest[j] == list[j + 1]);
    }
    assert forall|x: (Seq<char>, Seq<char>)| #[trigger] rest.contains(x) <==> list.contains(x) && x
        != list[0] by {
        if rest.contains(x) {
            let k = rest.index_of(x);
            assert(list[k + 1] == x);
            assert(pair_less(list[0], list[k + 1]));
            lemma_pair_less_irreflexive(x);
        }
        if list.contains(x) && x != list[0] {
            let k = list.index_of(x);
            assert(rest[k - 1] == x);
        }
    }
}

proof fn lemma_pair_less_irreflexive(a: (Seq<char>, Seq<char>))
    ensures
        !pair_less(a, a),
{
    lemma_less_total(a.0, a.0);
    lemma_less_total(a.1, a.1);
}

/// Two ordered lists of the same pairs are the same.
proof fn lemma_ordered_unique(a: Seq<(Seq<char>, Seq<char>)>, b: Seq<(Seq<char>, Seq<char>)>)
    requires
        ordered(a),
        ordered(b),
        forall|x: (Seq<char>, Seq<char>)| #[trigger] a.contains(x) <==> b.contains(x),
    ensures
        a == b,
    decreases a.len(),
{
    if a.len() == 0 {
        if b.len() > 0 {
            assert(b.contains(b[0]));
            assert(a.contains(b[0]));
        }
        assert(a =~= b);
    } else {
        assert(a.contains(a[0]));
        assert(b.contains(a[0]));
        assert(b.contains(b[0]));
        assert(a.contains(b[0]));
        let k = b.index_of(a[0]);
        let m = a.index_of(b[0]);
        if a[0] != b[0] {
            assert(pair_less(b[0], b[k]));
            assert(pair_less(a[0], a[m]));
            lemma_pair_less_transitive(a[0], b[0], a[0]);
            lemma_pair_less_irreflexive(a[0]);
        }
        lemma_tail_ordered(a);
        lemma_tail_ordered(b);
        assert forall|x: (Seq<char>, Seq<char>)| #[trigger] a.skip(1).contains(x) <==> b.skip(1).contains(
            x,
        ) by {
            assert(a.contains(x) <==> b.contains(x));
        }
        lemma_ordered_unique(a.skip(1), b.skip(1));
        assert(a =~= seq![a[0]] + a.skip(1));
        assert(b =~= seq![b[0]] + b.skip(1));
    }
}

/// Whether a pair of a query is signed.
spec fn is_signed_pair(
    pieces: Seq<Seq<char>>,
    signature_param: Seq<char>,
    expires_param: Seq<char>,
    key_id_param: Option<Seq<char>>,
    x: (Seq<char>, Seq<char>),
) -> bool {
    exists|i: int|
        {
            &&& 0 <= i < pieces.len()
            &&& (#[trigger] pieces[i]).len() > 0
            &&& query_pair(pieces[i]) == x
            &&& !is_signature_key(x.0, signature_param, expires_param, key_id_param)
        }
}

/// Queries of the same pieces are signed alike, in whatever order these stand
/// and however often each of them is repeated.
pub proof fn law_query_order_is_ignored(
    a: Seq<Seq<char>>,
    b: Seq<Seq<char>>,
    signature_param: Seq<char>,
    expires_param: Seq<char>,
    key_id_param: Option<Seq<char>>,
)
    requires
        forall|piece: Seq<char>| #[trigger] a.contains(piece) <==> b.contains(piece),
    ensures
        signed_pairs(a, a.len() as int, signature_param, expires_param, key_id_param) == signed_pairs(
            b,
            b.len() as int,
            signature_param,
            expires_param,
            key_id_param,
        ),
{
    let of_a = signed_pairs(a, a.len() as int, signature_param, expires_param, key_id_param);
    let of_b = signed_pairs(b, b.len() as int, signature_param, expires_param, key_id_param);
    law_signed_pairs(a, a.len() as int, signature_param, expires_param, key_id_param);
    law_signed_pairs(b, b.len() as int, signature_param, expires_param, key_id_param);
    assert forall|x: (Seq<char>, Seq<char>)| #[trigger] of_a.contains(x) <==> of_b.contains(x) by {
        if is_signed_pair(a, signature_param, expires_param, key_id_param, x) {
            let i = choose|i: int|
                {
                    &&& 0 <= i < a.len()
                    &&& (#[trigger] a[i]).len() > 0
                    &&& query_pair(a[i]) == x
                    &&& !is_signature_key(x.0, signature_param, expires_param, key_id_param)
                };
            assert(a.contains(a[i]));
            assert(b.contains(a[i]));
            let k = b.index_of(a[i]);
            assert(b[k].len() > 0);
        }
        if is_signed_pair(b, signature_param, expires_param, key_id_param, x) {
            let i = choose|i: int|
                {
                    &&& 0 <= i < b.len()
                    &&& (#[trigger] b[i]).len() > 0
                    &&& query_pair(b[i]) == x
                    &&& !is_signature_key(x.0, signature_param, expires_param, key_id_param)
                };
            assert(b.contains(b[i]));
            assert(a.contains(b[i]));
            let k = a.index_of(b[i]);
            assert(a[k].len() > 0);
        }
    }
    lemma_ordered_unique(of_a, of_b);
}

} // verus!
