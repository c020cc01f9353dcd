//! What signing a URL means: which secret counts, what is taken from a request,
//! which text is signed, and how long it holds.

use vstd::prelude::*;
use vstd::utf8::encode_utf8;

use crate::environment::Environment;
use crate::number::{all_digits, decimal, is_dec_digit, law_parse_reads_decimal, lemma_decimal_round_trip};
use crate::path_sanitize::normalized;
use crate::query::query_pair;
use crate::request::{text_at, Request, Uri};
use crate::signature::mac::{hex_decoded, hmac_sha256_of};
use crate::text::{find_from, join, lemma_find_from, less, lower, opt_text, split, upper};
use crate::text_laws::{law_cut_at_first, law_join_push, law_split_at_separator, law_split_single, law_stripped};
use crate::url_sign::canonical::{canonical_text, law_signed_pairs, pair_text, signed_host, signed_pairs, signed_path, signed_query, signed_text};
use crate::url_sign::config::{CanonicalConfig, Encoding, KeyedSecretConfig, Placement, UrlSignConfig};
use crate::url_sign::extract::{is_expires, is_signature, is_signature_char, marks, nonempty, path_extract, piece_value, query_extract, Extracted};
use crate::url_sign::filter::{config_failure, is_current, keyed_failure, keyed_secret, keyed_secrets, secrets_failure, source_secret, UrlSignFilter};
use crate::url_sign::percent::{byte_text, bytes_text, decoded_text, hex_value, percent_decoded};
use crate::url_sign::verify::base64_url_decoded;

verus! {

/// The text that the source of a secret gives: the value itself, or what the
/// environment variable reads as.
pub open spec fn given_text(value: Option<String>, env_var: Option<String>, env: Environment) -> Option<
    Seq<char>,
> {
    match (value, env_var) {
        (Some(v), None) => Some(v@),
        (None, Some(var)) => match env.value(var@) {
            Ok(v) => Some(v),
            Err(_) => None,
        },
        _ => None,
    }
}

/// A secret is had exactly where one of its two sources is set and gives a text
/// that is not empty; it is the bytes of that text.
pub proof fn law_secret_source(
    value: Option<String>,
    env_var: Option<String>,
    label: Seq<char>,
    env: Environment,
)
    ensures
        match given_text(value, env_var, env) {
            Some(text) if text.len() > 0 => source_secret(value, env_var, label, env) matches Ok(secret)
                && secret == encode_utf8(text),
            _ => source_secret(value, env_var, label, env) is Err,
        },
{
}

proof fn lemma_no_failure(list: Seq<KeyedSecretConfig>, env: Environment, i: int, k: int)
    requires
        0 <= i <= k < list.len(),
        keyed_failure(list, env, i) is None,
    ensures
        keyed_secret(list[k], env) is Ok,
    decreases list.len() - i,
{
    if i < k {
        lemma_no_failure(list, env, i + 1, k);
    }
}

proof fn lemma_keyed(list: Seq<KeyedSecretConfig>, env: Environment, n: int, i: int)
    requires
        0 <= i < n <= list.len(),
        forall|j: int| i < j < n ==> (#[trigger] list[j]).id@ != list[i].id@,
    ensures
        keyed_secrets(list, env, n).contains_key(list[i].id@),
        keyed_secrets(list, env, n)[list[i].id@] == keyed_secret(list[i], env)->Ok_0,
    decreases n,
{
    if i < n - 1 {
        lemma_keyed(list, env, n - 1, i);
        assert(list[n - 1].id@ != list[i].id@);
    }
}

proof fn lemma_not_keyed(list: Seq<KeyedSecretConfig>, env: Environment, n: int, id: Seq<char>)
    requires
        0 <= n <= list.len(),
        forall|j: int| 0 <= j < n ==> (#[trigger] list[j]).id@ != id,
    ensures
        !keyed_secrets(list, env, n).contains_key(id),
    decreases n,
{
    if n > 0 {
        lemma_not_keyed(list, env, n - 1, id);
        assert(list[n - 1].id@ != id);
    }
}

/// A filter that is built with a list of secrets knows each key id of the list,
/// with the secret that the last entry of that id gives, and no other key id.
/// Requests without a key id have no secret.
pub proof fn law_each_key_has_its_secret(
    filter: UrlSignFilter,
    cfg: UrlSignConfig,
    env: Environment,
    i: int,
    other: Seq<char>,
)
    requires
        filter.configured(cfg, env),
        secrets_failure(cfg, env) is None,
        cfg.secret is None,
        cfg.secrets matches Some(list) && 0 <= i < list@.len() && (forall|j: int|
            i < j < list@.len() ==> (#[trigger] list@[j]).id@ != list@[i].id@) && (forall|j: int|
            0 <= j < list@.len() ==> (#[trigger] list@[j]).id@ != other),
    ensures
        ({
            let entry = cfg.secrets->0@[i];
            given_text(entry.value, entry.env_var, env) matches Some(text)
                && filter.secrets.secret_for(Some(entry.id@)) == Some(encode_utf8(text))
        }),
        filter.secrets.secret_for(Some(other)) is None,
        filter.secrets.secret_for(None) is None,
{
    let list = cfg.secrets->0@;
    lemma_no_failure(list, env, 0, i);
    lemma_keyed(list, env, list.len() as int, i);
    lemma_not_keyed(list, env, list.len() as int, other);
}

/// A filter that is built with one secret has it for requests without a key id,
/// and knows no key id.
pub proof fn law_single_secret(filter: UrlSignFilter, cfg: UrlSignConfig, env: Environment, id: Seq<char>)
    requires
        filter.configured(cfg, env),
        secrets_failure(cfg, env) is None,
        cfg.secret is Some,
    ensures
        given_text(cfg.secret->0.value, cfg.secret->0.env_var, env) matches Some(text)
            && filter.secrets.secret_for(None) == Some(encode_utf8(text)),
        filter.secrets.secret_for(Some(id)) is None,
{
}

/// An expiry of `e` seconds holds up to `e` and the skew, and no longer.
pub proof fn law_expiry(e: u64, skew: u64, now: u64)
    ensures
        is_current(decimal(e as nat), skew, now) <==> now <= e + skew,
{
    law_parse_reads_decimal(e as nat, u64::MAX as nat);
}

/// A request without an expiry is in order unless one is required; one that is
/// there always counts.
pub proof fn law_expiry_of_request(filter: UrlSignFilter, x: Extracted, e: u64, now: u64)
    ensures
        x.expires is None ==> (filter.expiry_fits(x, now) <==> !filter.expires.required),
        x.expires == Some(decimal(e as nat)) && filter.expiry_fits(x, now) ==> now <= e
            + filter.expires.clock_skew_secs,
        x.expires == Some(decimal(e as nat)) && decimal(e as nat).len() <= 20 && now <= e
            + filter.expires.clock_skew_secs ==> filter.expiry_fits(x, now),
{
    law_expiry(e, filter.expires.clock_skew_secs, now);
    lemma_decimal_round_trip(e as nat);
}

/// An expiry is one to twenty digits.
pub proof fn law_expires_form(s: Seq<char>)
    ensures
        is_expires(s) <==> 0 < s.len() <= 20 && forall|k: int| 0 <= k < s.len() ==> '0' <= #[trigger] s[k]
            <= '9',
{
    if forall|k: int| 0 <= k < s.len() ==> '0' <= #[trigger] s[k] <= '9' {
        assert forall|i: int| 0 <= i < s.len() implies is_dec_digit(#[trigger] s[i]) by {}
    }
    if all_digits(s) {
        assert forall|k: int| 0 <= k < s.len() implies '0' <= #[trigger] s[k] <= '9' by {
            assert(is_dec_digit(s[k]));
        }
    }
}

/// Whether a piece of a query is about a parameter.
pub open spec fn is_about(piece: Seq<char>, name: Seq<char>) -> bool {
    piece.len() > 0 && query_pair(piece).0 == name
}

/// Signature, expiry and key id are taken from the last piece of the query that
/// is about each of them, and are not there where no piece is.
pub proof fn law_last_piece_counts(
    pieces: Seq<Seq<char>>,
    n: int,
    signature_param: Seq<char>,
    expires_param: Seq<char>,
    key_id_param: Option<Seq<char>>,
    i: int,
)
    requires
        0 <= n <= pieces.len(),
        signature_param != expires_param,
        key_id_param != Some(signature_param),
        key_id_param != Some(expires_param),
    ensures
        ({
            let (signature, expires, key_id) = marks(
                pieces,
                n,
                signature_param,
                expires_param,
                key_id_param,
            );
            &&& 0 <= i < n && is_about(pieces[i], signature_param) && (forall|j: int|
                i < j < n ==> !is_about(#[trigger] pieces[j], signature_param)) ==> signature
                == piece_value(pieces[i])
            &&& 0 <= i < n && is_about(pieces[i], expires_param) && (forall|j: int|
                i < j < n ==> !is_about(#[trigger] pieces[j], expires_param)) ==> expires
                == piece_value(pieces[i])
            &&& key_id_param is Some && 0 <= i < n && is_about(pieces[i], key_id_param->0) && (forall|
                j: int,
            |
                i < j < n ==> !is_about(#[trigger] pieces[j], key_id_param->0)) ==> key_id
                == piece_value(pieces[i])
            &&& (forall|j: int| 0 <= j < n ==> !is_about(#[trigger] pieces[j], signature_param))
                ==> signature is None
            &&& (forall|j: int| 0 <= j < n ==> !is_about(#[trigger] pieces[j], expires_param))
                ==> expires is None
            &&& key_id_param is None || (forall|j: int|
                0 <= j < n ==> !is_about(#[trigger] pieces[j], key_id_param->0)) ==> key_id is None
        }),
    decreases n,
{
    if n > 0 {
        law_last_piece_counts(pieces, n - 1, signature_param, expires_param, key_id_param, i);
    }
}

/// The value of a piece is what stands behind its first equals sign; a piece
/// without one has none.
pub proof fn law_piece_value(name: Seq<char>, value: Seq<char>)
    requires
        !name.contains('='),
    ensures
        piece_value(name + seq!['='] + value) == Some(value),
        query_pair(name + seq!['='] + value) == (name, value),
        piece_value(name) is None,
{
    law_cut_at_first(name, '=', value);
}

/// A query without a signature, and a request without a query, hold nothing;
/// otherwise what is taken has the signature that the query names.
pub proof fn law_query_extract(
    query: Seq<char>,
    signature_param: Seq<char>,
    expires_param: Seq<char>,
    key_id_param: Option<Seq<char>>,
)
    ensures
        query_extract(None, signature_param, expires_param, key_id_param) is None,
        ({
            let pieces = split(query, '&');
            let (signature, expires, key_id) = marks(
                pieces,
                pieces.len() as int,
                signature_param,
                expires_param,
                key_id_param,
            );
            match query_extract(Some(query), signature_param, expires_param, key_id_param) {
                Some(x) => signature == Some(x.signature) && x.expires == expires && x.key_id == key_id
                    && x.resource is None,
                None => signature is None,
            }
        }),
{
}

proof fn lemma_nonempty_concat(a: Seq<Seq<char>>, b: Seq<Seq<char>>, n: int)
    requires
        0 <= n <= b.len(),
    ensures
        nonempty(a + b, a.len() + n) == nonempty(a, a.len() as int) + nonempty(b, n),
    decreases n,
{
    if n > 0 {
        lemma_nonempty_concat(a, b, n - 1);
        assert((a + b)[a.len() + n - 1] == b[n - 1]);
        assert(nonempty(a + b, a.len() + n) =~= nonempty(a, a.len() as int) + nonempty(b, n));
    } else {
        lemma_nonempty_front(a, b, a.len() as int);
        assert(nonempty(a, a.len() as int) + nonempty(b, 0) =~= nonempty(a, a.len() as int));
    }
}

proof fn lemma_nonempty_front(a: Seq<Seq<char>>, b: Seq<Seq<char>>, n: int)
    requires
        0 <= n <= a.len(),
    ensures
        nonempty(a + b, n) == nonempty(a, n),
    decreases n,
{
    if n > 0 {
        lemma_nonempty_front(a, b, n - 1);
        assert((a + b)[n - 1] == a[n - 1]);
    }
}

proof fn lemma_path_segments(expires: Seq<char>, signature: Seq<char>, tail: Seq<char>)
    requires
        !expires.contains('/'),
        !signature.contains('/'),
        expires.len() > 0,
        signature.len() > 0,
    ensures
        ({
            let after = seq!['/'] + expires + seq!['/'] + signature;
            let long = after + seq!['/'] + tail;
            let rest = split(tail, '/');
            &&& nonempty(split(after, '/'), split(after, '/').len() as int) == seq![expires, signature]
            &&& nonempty(split(long, '/'), split(long, '/').len() as int) == seq![expires, signature]
                + nonempty(rest, rest.len() as int)
        }),
{
    let none = Seq::<char>::empty();
    let after = seq!['/'] + expires + seq!['/'] + signature;
    let long = after + seq!['/'] + tail;
    let rest = split(tail, '/');
    let first = none + seq!['/'] + expires;
    law_split_single(none, '/');
    law_split_single(expires, '/');
    law_split_single(signature, '/');
    law_split_at_separator(none, '/', expires);
    law_split_at_separator(first, '/', signature);
    law_split_at_separator(after, '/', tail);
    assert(after =~= first + seq!['/'] + signature);
    let three = seq![none, expires, signature];
    assert(split(after, '/') =~= three);
    assert(nonempty(three, 3) == seq![expires, signature]) by {
        reveal_with_fuel(nonempty, 4);
        assert(nonempty(three, 3) =~= seq![expires, signature]);
    }
    lemma_nonempty_concat(three, rest, rest.len() as int);
}

/// With the signature in the path, expiry and signature are the two segments
/// behind the prefix, and the resource is what follows them, or the root.
pub proof fn law_path_extract(
    prefix: Seq<char>,
    expires: Seq<char>,
    signature: Seq<char>,
    tail: Seq<char>,
    encoding: Encoding,
)
    requires
        is_expires(expires),
        is_signature(signature, encoding),
    ensures
        ({
            let short = prefix + seq!['/'] + expires + seq!['/'] + signature;
            path_extract(short, prefix, encoding) == Some(
                Extracted { signature, expires: Some(expires), key_id: None, resource: Some(seq!['/']) },
            )
        }),
        tail.len() > 0 && tail[0] != '/' ==> ({
            let long = prefix + seq!['/'] + expires + seq!['/'] + signature + seq!['/'] + tail;
            path_extract(long, prefix, encoding) == Some(
                Extracted {
                    signature,
                    expires: Some(expires),
                    key_id: None,
                    resource: Some(seq!['/'] + tail),
                },
            )
        }),
{
    assert(!expires.contains('/')) by {
        law_expires_form(expires);
    }
    assert(!signature.contains('/')) by {
        if signature.contains('/') {
            let k = signature.index_of('/');
            assert(is_signature_char(signature[k], encoding));
        }
    }
    let after = seq!['/'] + expires + seq!['/'] + signature;
    let short = prefix + seq!['/'] + expires + seq!['/'] + signature;
    let long = short + seq!['/'] + tail;
    let more = after + seq!['/'] + tail;
    lemma_path_segments(expires, signature, tail);
    law_stripped(short, prefix, after);
    law_stripped(long, prefix, more);
    assert(short =~= prefix + after);
    assert(long =~= prefix + more);
    assert(after[0] == '/' && more[0] == '/');
    let start = prefix.len() + 1 + expires.len() + 1 + signature.len();
    assert(long.skip(start as int) =~= seq!['/'] + tail);
    if tail.len() > 0 && tail[0] != '/' {
        let rest = split(tail, '/');
        lemma_first_piece(tail);
        assert(nonempty(rest, rest.len() as int).len() > 0);
    }
}

/// A text that does not start with a slash has a segment that is not empty.
proof fn lemma_first_piece(tail: Seq<char>)
    requires
        tail.len() > 0,
        tail[0] != '/',
    ensures
        nonempty(split(tail, '/'), split(tail, '/').len() as int).len() > 0,
{
    lemma_find_from(tail, '/', 0);
    match find_from(tail, '/', 0) {
        Some(k) => {
            let a = tail.take(k);
            let b = tail.skip(k + 1);
            assert(!a.contains('/')) by {
                if a.contains('/') {
                    let j = a.index_of('/');
                    assert(tail[j] == '/');
                }
            }
            assert(tail =~= a + seq!['/'] + b);
            law_split_at_separator(a, '/', b);
            law_split_single(a, '/');
            lemma_nonempty_concat(seq![a], split(b, '/'), split(b, '/').len() as int);
            reveal_with_fuel(nonempty, 2);
            assert(nonempty(seq![a], 1).len() == 1);
        },
        None => {
            assert(!tail.contains('/')) by {
                if tail.contains('/') {
                    let j = tail.index_of('/');
                    assert(tail[j] == '/');
                }
            }
            law_split_single(tail, '/');
            reveal_with_fuel(nonempty, 2);
        },
    }
}

/// A path that does not lie behind the prefix, or whose expiry or signature is
/// not written as one, is not signed.
pub proof fn law_path_not_signed(path: Seq<char>, prefix: Seq<char>, encoding: Encoding)
    ensures
        !prefix.is_prefix_of(path) ==> path_extract(path, prefix, encoding) is None,
        path_extract(path, prefix, encoding) matches Some(x) ==> is_signature(x.signature, encoding)
            && (x.expires matches Some(e) && is_expires(e)) && x.key_id is None,
{
}

/// The signed text has five lines: the method in uppercase, the path, the
/// query, the expiry and the host. A line that is not asked for is empty.
pub proof fn law_signed_lines(
    canonical: CanonicalConfig,
    placement: Placement,
    signature_param: Seq<char>,
    expires_param: Seq<char>,
    key_id_param: Option<Seq<char>>,
    method: Seq<char>,
    uri: Uri,
    lines: Map<Seq<char>, Seq<Option<Seq<char>>>>,
    expires: Seq<char>,
    resource: Option<Seq<char>>,
)
    ensures
        ({
            let text = canonical_text(
                canonical,
                placement,
                signature_param,
                expires_param,
                key_id_param,
                method,
                uri,
                lines,
                expires,
                resource,
            );
            let none = Seq::<char>::empty();
            let query = signed_query(opt_text(uri.query), signature_param, expires_param, key_id_param);
            let first = if canonical.include_method {
                upper(method)
            } else {
                none
            };
            let third = if canonical.include_query {
                query
            } else {
                none
            };
            let fifth = if canonical.include_host {
                signed_host(lines)
            } else {
                none
            };
            match signed_path(placement, uri.path@, resource) {
                Some(path) => text == Some(
                    first + seq!['\n'] + path + seq!['\n'] + third + seq!['\n'] + expires + seq!['\n']
                        + fifth,
                ),
                None => text is None,
            }
        }),
{
    reveal_strlit("\n");
    assert("\n"@ =~= seq!['\n']);
}

/// Signed texts tell the requests apart: with the same path, query and host
/// lines, another method or another expiry gives another text.
pub proof fn law_signed_text_tells_apart(
    a: Seq<char>,
    path: Seq<char>,
    query: Seq<char>,
    e1: Seq<char>,
    e2: Seq<char>,
    host: Seq<char>,
)
    requires
        e1 != e2,
    ensures
        signed_text(a, path, query, e1, host)
            != signed_text(a, path, query, e2, host),
        signed_text(e1, path, query, a, host)
            != signed_text(e2, path, query, a, host),
        signed_text(a, e1, query, path, host)
            != signed_text(a, e2, query, path, host),
        signed_text(a, path, e1, query, host)
            != signed_text(a, path, e2, query, host),
{
    let n = "\n"@;
    lemma_middle(a + n + path + n + query + n, e1, e2, n + host);
    lemma_middle(Seq::empty(), e1, e2, n + path + n + query + n + a + n + host);
    lemma_middle(a + n, e1, e2, n + query + n + path + n + host);
    lemma_middle(a + n + path + n, e1, e2, n + query + n + host);
    assert(a + n + path + n + query + n + e1 + n + host =~= a + n + path + n + query + n + e1 + (n + host));
    assert(a + n + path + n + query + n + e2 + n + host =~= a + n + path + n + query + n + e2 + (n + host));
    assert(e1 + n + path + n + query + n + a + n + host =~= Seq::empty() + e1 + (n + path + n + query + n
        + a + n + host));
    assert(e2 + n + path + n + query + n + a + n + host =~= Seq::empty() + e2 + (n + path + n + query + n
        + a + n + host));
    assert(a + n + e1 + n + query + n + path + n + host =~= a + n + e1 + (n + query + n + path + n + host));
    assert(a + n + e2 + n + query + n + path + n + host =~= a + n + e2 + (n + query + n + path + n + host));
    assert(a + n + path + n + e1 + n + query + n + host =~= a + n + path + n + e1 + (n + query + n + host));
    assert(a + n + path + n + e2 + n + query + n + host =~= a + n + path + n + e2 + (n + query + n + host));
}

proof fn lemma_middle(front: Seq<char>, x: Seq<char>, y: Seq<char>, back: Seq<char>)
    requires
        x != y,
    ensures
        front + x + back != front + y + back,
{
    let a = front + x + back;
    let b = front + y + back;
    if a == b {
        assert(a.len() == front.len() + x.len() + back.len());
        assert(b.len() == front.len() + y.len() + back.len());
        assert(a.subrange(front.len() as int, (front.len() + x.len()) as int) =~= x);
        assert(b.subrange(front.len() as int, (front.len() + y.len()) as int) =~= y);
    }
}

/// The host is signed in lowercase and without its port; an address in brackets
/// keeps them.
pub proof fn law_signed_host(
    lines: Map<Seq<char>, Seq<Option<Seq<char>>>>,
    host: Seq<char>,
    port: Seq<char>,
)
    requires
        !host.contains(':'),
        !host.contains(']'),
        !port.contains(']'),
    ensures
        text_at(lines, "host"@) is None ==> signed_host(lines).len() == 0,
        text_at(lines, "host"@) == Some(host) ==> signed_host(lines) == lower(host),
        text_at(lines, "host"@) == Some(host + seq![':'] + port) ==> signed_host(lines) == lower(host),
        text_at(lines, "host"@) == Some(seq!['['] + port + seq![']'] + seq![':'] + host) ==> signed_host(
            lines,
        ) == lower(seq!['['] + port + seq![']']),
{
    let with = host + seq![':'] + port;
    law_cut_at_first(host, ':', port);
    law_cut_at_first(host, ']', port);
    lemma_find_from(host, ']', 0);
    lemma_find_from(with, ']', 0);
    if let Some(k) = find_from(with, ']', 0) {
        if k < host.len() {
            assert(host[k] == ']');
            assert(host.contains(']'));
        } else if k > host.len() {
            assert(port[k - host.len() - 1] == ']');
            assert(port.contains(']'));
        }
    }
    if let Some(k) = find_from(host, ']', 0) {
        assert(host.contains(host[k]));
    }
    let a = seq!['['] + port;
    let all = a + seq![']'] + seq![':'] + host;
    lemma_find_from(all, ']', 0);
    assert(all[a.len() as int] == ']');
    assert forall|k: int| 0 <= k < a.len() implies all[k] != ']' by {
        assert(all[k] == a[k]);
        if k > 0 && a[k] == ']' {
            assert(port[k - 1] == ']');
            assert(port.contains(']'));
        }
    }
    assert(all.take(a.len() as int + 1) =~= a + seq![']']);
}

/// With the signature in the query the whole decoded path is signed, with a
/// slash in front; with the signature in the path only what follows it counts.
pub proof fn law_signed_path(path: Seq<char>, resource: Option<Seq<char>>, other: Seq<char>)
    ensures
        decoded_text(path) is None ==> signed_path(Placement::Query, path, resource) is None,
        decoded_text(path) matches Some(text) ==> text.len() > 0 && text[0] == '/' ==> signed_path(
            Placement::Query,
            path,
            resource,
        ) == Some(text),
        decoded_text(path) matches Some(text) ==> (text.len() == 0 || text[0] != '/') ==> signed_path(
            Placement::Query,
            path,
            resource,
        ) == Some(seq!['/'] + text),
        signed_path(Placement::Path, path, resource) == signed_path(Placement::Path, other, resource),
        signed_path(Placement::Path, path, None) is None,
{
}

/// A byte of a query value is written as itself or as a percent sign and two
/// uppercase hexadecimal digits, which read back as the byte.
pub proof fn law_byte_text(b: u8)
    ensures
        'a' as int <= b <= 'z' as int || 'A' as int <= b <= 'Z' as int || '0' as int <= b <= '9' as int
            || b == 0x2D || b == 0x5F || b == 0x2E || b == 0x2F ==> byte_text(b) == seq![b as char],
        b <= 32 || b >= 127 || b == 34 || b == 35 || b == 38 || b == 43 || b == 61 ==> byte_text(b).len()
            == 3 && byte_text(b)[0] == '%',
        byte_text(b).len() == 3 ==> hex_value(byte_text(b)[1] as u8) == Some((b / 16) as u8)
            && hex_value(byte_text(b)[2] as u8) == Some((b % 16) as u8),
        byte_text(b).len() == 1 || byte_text(b).len() == 3,
        byte_text(b).len() == 3 ==> forall|k: int|
            1 <= k < 3 ==> ('0' <= #[trigger] byte_text(b)[k] <= '9' || 'A' <= byte_text(b)[k] <= 'F'),
{
}

/// The bytes of a query value are written one after the other.
pub proof fn law_bytes_text(bytes: Seq<u8>, b: u8)
    ensures
        bytes_text(bytes.push(b)) == bytes_text(bytes) + byte_text(b),
        bytes_text(Seq::empty()).len() == 0,
{
    assert(bytes.push(b).drop_last() =~= bytes);
}

/// A query is signed as its pairs, each a key, an equals sign and the value as it
/// is written, with ampersands between them.
pub proof fn law_signed_query(
    query: Seq<char>,
    signature_param: Seq<char>,
    expires_param: Seq<char>,
    key_id_param: Option<Seq<char>>,
    key: Seq<char>,
    value: Seq<char>,
)
    ensures
        signed_query(None, signature_param, expires_param, key_id_param).len() == 0,
        ({
            let pieces = split(query, '&');
            let pairs = signed_pairs(
                pieces,
                pieces.len() as int,
                signature_param,
                expires_param,
                key_id_param,
            );
            let text = signed_query(Some(query), signature_param, expires_param, key_id_param);
            &&& pairs.len() == 0 ==> text.len() == 0
            &&& pairs == seq![(key, value)] ==> text == key + seq!['='] + bytes_text(encode_utf8(value))
            &&& text == join(
                pairs.map_values(
                    |pair: (Seq<char>, Seq<char>)| pair.0 + seq!['='] + bytes_text(encode_utf8(pair.1)),
                ),
                seq!['&'],
            )
        }),
{
    reveal_strlit("&");
    assert("&"@ =~= seq!['&']);
    reveal_strlit("=");
    assert("="@ =~= seq!['=']);
    let pieces = split(query, '&');
    let pairs = signed_pairs(pieces, pieces.len() as int, signature_param, expires_param, key_id_param);
    let texts = pairs.map_values(|pair: (Seq<char>, Seq<char>)| pair_text(pair));
    let none = Seq::<Seq<char>>::empty();
    assert(texts =~= pairs.map_values(
        |pair: (Seq<char>, Seq<char>)| pair.0 + seq!['='] + bytes_text(encode_utf8(pair.1)),
    ));
    if pairs.len() == 0 {
        assert(texts =~= none);
    }
    if pairs == seq![(key, value)] {
        let one = key + seq!['='] + bytes_text(encode_utf8(value));
        assert(texts =~= none.push(one));
        law_join_push(none, "&"@, one);
    }
}

/// The parameters of the signature are not signed; every other pair is.
pub proof fn law_what_is_signed(
    key: Seq<char>,
    value: Seq<char>,
    signature_param: Seq<char>,
    expires_param: Seq<char>,
    key_id_param: Option<Seq<char>>,
)
    requires
        !key.contains('='),
    ensures
        ({
            let piece = key + seq!['='] + value;
            let pairs = signed_pairs(seq![piece], 1, signature_param, expires_param, key_id_param);
            if key == signature_param || key == expires_param || key_id_param == Some(key) {
                pairs.len() == 0
            } else {
                pairs == seq![(key, value)]
            }
        }),
{
    let piece = key + seq!['='] + value;
    law_cut_at_first(key, '=', value);
    reveal_with_fuel(signed_pairs, 2);
    assert(seq![piece][0] == piece);
}

/// A configuration has either one secret or a list of them, and a path prefix
/// that starts with a slash where the signature is in the path.
pub proof fn law_config_in_order(cfg: UrlSignConfig)
    ensures
        cfg.secret is Some && (cfg.secrets matches Some(list) && list@.len() > 0) ==> config_failure(cfg) is Some,
        cfg.secret is None && !(cfg.secrets matches Some(list) && list@.len() > 0) ==> config_failure(cfg) is Some,
        (cfg.secret is Some <==> !(cfg.secrets matches Some(list) && list@.len() > 0)) ==> {
            &&& cfg.placement == Placement::Query ==> config_failure(cfg) is None
            &&& cfg.placement == Placement::Path && cfg.path_prefix is None ==> config_failure(cfg) is Some
            &&& cfg.placement == Placement::Path ==> (cfg.path_prefix matches Some(p) ==> (config_failure(
                cfg,
            ) is None <==> p@.len() > 0 && p@[0] == '/'))
        },
{
    reveal_strlit("/");
    assert("/"@ =~= seq!['/']);
    if let Some(p) = cfg.path_prefix {
        if "/"@.is_prefix_of(p@) {
            assert(p@.subrange(0, 1)[0] == '/');
        }
        if p@.len() > 0 && p@[0] == '/' {
            assert(p@.subrange(0, 1) =~= "/"@);
        }
    }
}

/// A request is accepted exactly where a signature can be taken from it, its
/// expiry is in order, its key id is known, and its signature writes the HMAC of
/// the signed text under the secret.
pub proof fn law_accepted(filter: UrlSignFilter, request: Request, now: u64)
    ensures
        filter.extracted(request) is None ==> !filter.accepts(request, now),
        filter.extracted(request) matches Some(x) ==> (filter.accepts(request, now) <==> {
            &&& filter.expiry_fits(x, now)
            &&& filter.secrets.secret_for(x.key_id) is Some
            &&& filter.canonical_of(request, x) is Some
            &&& (match filter.encoding {
                Encoding::Hex => hex_decoded(x.signature),
                Encoding::Base64Url => base64_url_decoded(x.signature),
            }) == Some(
                hmac_sha256_of(
                    filter.secrets.secret_for(x.key_id)->0,
                    encode_utf8(filter.canonical_of(request, x)->0),
                ),
            )
        }),
{
}

/// The signature is taken from the query or from the path, as it is configured.
pub proof fn law_where_signature_is(filter: UrlSignFilter, request: Request, prefix: String)
    ensures
        filter.placement == Placement::Query ==> filter.extracted(request) == query_extract(
            opt_text(request.uri.query),
            filter.signature_param@,
            filter.expires_param@,
            opt_text(filter.key_id_param),
        ),
        filter.placement == Placement::Path && filter.path_prefix == Some(prefix) ==> filter.extracted(request)
            == path_extract(request.uri.path@, prefix@, filter.encoding),
        filter.placement == Placement::Path && filter.path_prefix is None ==> filter.extracted(request) is None,
{
}

/// An accepted request goes on with its decoded path. Where the signature is in
/// the path, it goes on with the resource behind it, or unchanged where the
/// signature is not removed.
pub proof fn law_next_path(filter: UrlSignFilter, request: Request)
    ensures
        filter.placement == Placement::Query ==> filter.next_path(request) == signed_path(
            Placement::Query,
            request.uri.path@,
            None,
        ),
        filter.placement == Placement::Path && !filter.strip_signature ==> filter.next_path(request) is None,
        filter.placement == Placement::Path && filter.strip_signature ==> (filter.extracted(request) matches Some(x)
            ==> filter.next_path(request) == signed_path(Placement::Path, request.uri.path@, x.resource)),
{
}

/// A signature is one or more hexadecimal digits, or letters, digits, underscores
/// and hyphens.
pub proof fn law_signature_form(s: Seq<char>)
    ensures
        is_signature(s, Encoding::Hex) <==> s.len() > 0 && forall|k: int|
            0 <= k < s.len() ==> ('0' <= #[trigger] s[k] <= '9' || 'a' <= s[k] <= 'f' || 'A' <= s[k] <= 'F'),
        is_signature(s, Encoding::Base64Url) <==> s.len() > 0 && forall|k: int|
            0 <= k < s.len() ==> ('0' <= #[trigger] s[k] <= '9' || 'a' <= s[k] <= 'z' || 'A' <= s[k] <= 'Z'
                || s[k] == '_' || s[k] == '-'),
{
    if is_signature(s, Encoding::Hex) {
        assert forall|k: int| 0 <= k < s.len() implies ('0' <= #[trigger] s[k] <= '9' || 'a' <= s[k] <= 'f'
            || 'A' <= s[k] <= 'F') by {
            assert(is_signature_char(s[k], Encoding::Hex));
        }
    }
    if is_signature(s, Encoding::Base64Url) {
        assert forall|k: int| 0 <= k < s.len() implies ('0' <= #[trigger] s[k] <= '9' || 'a' <= s[k] <= 'z'
            || 'A' <= s[k] <= 'Z' || s[k] == '_' || s[k] == '-') by {
            assert(is_signature_char(s[k], Encoding::Base64Url));
        }
    }
}

/// The signed pairs of a query stand in the order of their keys, and those of the
/// same key in the order of their values.
pub proof fn law_pair_order(
    pieces: Seq<Seq<char>>,
    signature_param: Seq<char>,
    expires_param: Seq<char>,
    key_id_param: Option<Seq<char>>,
    a: int,
    b: int,
)
    requires
        0 <= a < b < signed_pairs(pieces, pieces.len() as int, signature_param, expires_param, key_id_param).len(),
    ensures
        ({
            let pairs = signed_pairs(pieces, pieces.len() as int, signature_param, expires_param, key_id_param);
            less(pairs[a].0, pairs[b].0) || pairs[a].0 == pairs[b].0 && less(pairs[a].1, pairs[b].1)
        }),
{
    law_signed_pairs(pieces, pieces.len() as int, signature_param, expires_param, key_id_param);
}

/// Hexadecimal digits are read in either case, and nothing else is one.
pub proof fn law_hex_value(b: u8)
    ensures
        hex_value(b) matches Some(n) ==> n < 16 && (b == 48 + n && n < 10 || b == 55 + n && n >= 10 || b == 87
            + n && n >= 10),
        hex_value(b) is None ==> !(48 <= b <= 57 || 65 <= b <= 70 || 97 <= b <= 102),
{
}

/// A percent sign and the two digits of a byte, the higher one first, decode to
/// that byte. Any other byte stands for itself.
pub proof fn law_percent_decoded(b: u8, high: u8, low: u8, rest: Seq<u8>)
    ensures
        percent_decoded(Seq::empty()).len() == 0,
        hex_value(high) == Some((b / 16) as u8) && hex_value(low) == Some((b % 16) as u8) ==> percent_decoded(
            seq![37u8, high, low] + rest,
        ) == seq![b] + percent_decoded(rest),
        b != 37 ==> percent_decoded(seq![b] + rest) == seq![b] + percent_decoded(rest),
        hex_value(high) is None ==> percent_decoded(seq![37u8, high] + rest) == seq![37u8] + percent_decoded(
            seq![high] + rest,
        ),
{
    let coded = seq![37u8, high, low] + rest;
    assert(coded.skip(3) =~= rest);
    assert((seq![b] + rest).skip(1) =~= rest);
    assert((seq![37u8, high] + rest).skip(1) =~= seq![high] + rest);
}

/// A path behind a signature is signed as what it decodes to, where that has a
/// leading slash, is in normal form and has no segment of two dots. Else it is
/// not signed.
pub proof fn law_signed_resource(path: Seq<char>, raw: Seq<char>, text: Seq<char>)
    requires
        decoded_text(raw) == Some(text),
        text.len() > 0,
        text[0] == '/',
    ensures
        signed_path(Placement::Path, path, Some(raw)) == (if normalized(text) == text && !split(
            text,
            '/',
        ).contains(seq!['.', '.']) {
            Some(text)
        } else {
            None
        }),
{
}

/// A path behind a signature that decodes to no text is not signed.
pub proof fn law_unreadable_resource(path: Seq<char>, raw: Seq<char>)
    requires
        decoded_text(raw) is None,
    ensures
        signed_path(Placement::Path, path, Some(raw)) is None,
{
}

} // verus!
