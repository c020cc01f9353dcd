//! What a signed link means: what its message holds, when it is in time, and
//! what is left of it behind the filter.

use vstd::prelude::*;
use vstd::utf8::encode_utf8;

use crate::environment::Environment;
use crate::number::{decimal, law_parse_reads_decimal, lemma_decimal_round_trip};
use crate::path_sanitize::normalized;
use crate::query::{pairs_of, query_map, query_pair};
use crate::request::{HttpFilterContext, Uri};
use crate::signature::hmac_verify::{body_verdict, dialect_of, provided_digest, removes_header, DialectKind, SignatureError};
use crate::signature::mac::{base64_decoded, hex_decoded, hex_encoded, hmac_sha1_of, hmac_sha256_of, law_hex_round_trip};
use crate::signature::secret::{secret_of, SecretFields};
use crate::signature::signed_url::{claims_of, config_error, kept_pieces, link_message, link_verdict, part_texts, query_text, signature_verdict, signed_path, stripped_link, times_verdict, Claims, MessagePart, SignedUrlConfig, SignedUrlError, UriSource};
use crate::text::{join, lower, split};
use crate::text_laws::{law_cut_at_first, law_join_push, law_stripped};

verus! {

/// Two numbers that are written alike are the same.
pub proof fn law_decimals_differ(a: nat, b: nat)
    ensures
        decimal(a) == decimal(b) <==> a == b,
{
    lemma_decimal_round_trip(a);
    lemma_decimal_round_trip(b);
}

/// Where both times are there, each part of a message stands at its own place:
/// the path as it is, the times in decimal digits.
pub proof fn law_parts_of_message(
    parts: Seq<MessagePart>,
    n: int,
    path: Seq<char>,
    t: u64,
    e: u64,
)
    requires
        0 <= n <= parts.len(),
    ensures
        ({
            let texts = part_texts(parts, n, path, Some(t), Some(e));
            &&& texts.len() == n
            &&& forall|k: int|
                0 <= k < n ==> {
                    &&& parts[k] == MessagePart::Path ==> #[trigger] texts[k] == path
                    &&& parts[k] == MessagePart::Timestamp ==> texts[k] == decimal(t as nat)
                    &&& parts[k] == MessagePart::Expiry ==> texts[k] == decimal(e as nat)
                }
        }),
    decreases n,
{
    if n > 0 {
        law_parts_of_message(parts, n - 1, path, t, e);
    }
}

/// A time that a link does not claim takes no place in the message: it is that
/// of the parts without it.
pub proof fn law_missing_time_takes_no_place(
    parts: Seq<MessagePart>,
    path: Seq<char>,
    timestamp: Option<u64>,
    expiry: Option<u64>,
)
    ensures
        part_texts(
            parts.push(MessagePart::Timestamp),
            parts.len() as int + 1,
            path,
            None,
            expiry,
        ) == part_texts(parts, parts.len() as int, path, None, expiry),
        part_texts(
            parts.push(MessagePart::Expiry),
            parts.len() as int + 1,
            path,
            timestamp,
            None,
        ) == part_texts(parts, parts.len() as int, path, timestamp, None),
{
    lemma_parts_prefix(parts, MessagePart::Timestamp, parts.len() as int, path, None, expiry);
    lemma_parts_prefix(parts, MessagePart::Expiry, parts.len() as int, path, timestamp, None);
}

proof fn lemma_parts_prefix(
    parts: Seq<MessagePart>,
    last: MessagePart,
    n: int,
    path: Seq<char>,
    timestamp: Option<u64>,
    expiry: Option<u64>,
)
    requires
        0 <= n <= parts.len(),
    ensures
        part_texts(parts.push(last), n, path, timestamp, expiry) == part_texts(
            parts,
            n,
            path,
            timestamp,
            expiry,
        ),
    decreases n,
{
    if n > 0 {
        lemma_parts_prefix(parts, last, n - 1, path, timestamp, expiry);
        assert(parts.push(last)[n - 1] == parts[n - 1]);
    }
}

/// With path, timestamp and expiry as its parts, the message is the path, the
/// digits of the timestamp and those of the expiry, with the separator between
/// them.
pub proof fn law_message_of_path_and_times(
    cfg: SignedUrlConfig,
    uri: Uri,
    rewritten: Option<Seq<char>>,
    t: u64,
    e: u64,
)
    requires
        cfg.message.parts@ == seq![MessagePart::Path, MessagePart::Timestamp, MessagePart::Expiry],
    ensures
        link_message(cfg, uri, rewritten, Some(t), Some(e)) == signed_path(cfg.uri_source, uri, rewritten)
            + cfg.message.separator@ + decimal(t as nat) + cfg.message.separator@ + decimal(e as nat),
{
    let path = signed_path(cfg.uri_source, uri, rewritten);
    let sep = cfg.message.separator@;
    let parts = cfg.message.parts@;
    law_parts_of_message(parts, 3, path, t, e);
    let none = Seq::<Seq<char>>::empty();
    let one = none.push(path);
    let two = one.push(decimal(t as nat));
    law_join_push(none, sep, path);
    law_join_push(one, sep, decimal(t as nat));
    law_join_push(two, sep, decimal(e as nat));
    let texts = part_texts(parts, 3, path, Some(t), Some(e));
    assert(parts[0] == MessagePart::Path && parts[1] == MessagePart::Timestamp && parts[2]
        == MessagePart::Expiry);
    assert(texts[0] == path && texts[1] == decimal(t as nat) && texts[2] == decimal(e as nat));
    assert(texts =~= two.push(decimal(e as nat)));
}

/// Links that differ in their expiry alone, or in their timestamp alone, have
/// different messages.
pub proof fn law_times_are_signed(
    cfg: SignedUrlConfig,
    uri: Uri,
    rewritten: Option<Seq<char>>,
    t1: u64,
    t2: u64,
    e1: u64,
    e2: u64,
)
    requires
        cfg.message.parts@ == seq![MessagePart::Path, MessagePart::Timestamp, MessagePart::Expiry],
    ensures
        e1 != e2 ==> link_message(cfg, uri, rewritten, Some(t1), Some(e1)) != link_message(
            cfg,
            uri,
            rewritten,
            Some(t1),
            Some(e2),
        ),
        t1 != t2 ==> link_message(cfg, uri, rewritten, Some(t1), Some(e1)) != link_message(
            cfg,
            uri,
            rewritten,
            Some(t2),
            Some(e1),
        ),
{
    law_message_of_path_and_times(cfg, uri, rewritten, t1, e1);
    law_message_of_path_and_times(cfg, uri, rewritten, t1, e2);
    law_message_of_path_and_times(cfg, uri, rewritten, t2, e1);
    law_decimals_differ(e1 as nat, e2 as nat);
    law_decimals_differ(t1 as nat, t2 as nat);
    let sep = cfg.message.separator@;
    let front = signed_path(cfg.uri_source, uri, rewritten) + sep;
    let (x1, x2) = (decimal(t1 as nat), decimal(t2 as nat));
    let (y1, y2) = (decimal(e1 as nat), decimal(e2 as nat));
    if e1 != e2 && front + x1 + sep + y1 == front + x1 + sep + y2 {
        let a = front + x1 + sep + y1;
        let b = front + x1 + sep + y2;
        let n = (front + x1 + sep).len() as int;
        assert(a.skip(n) =~= y1);
        assert(b.skip(n) =~= y2);
    }
    if t1 != t2 && front + x1 + sep + y1 == front + x2 + sep + y1 {
        let a = front + x1 + sep + y1;
        let b = front + x2 + sep + y1;
        assert(a.len() == front.len() + x1.len() + sep.len() + y1.len());
        assert(b.len() == front.len() + x2.len() + sep.len() + y1.len());
        let n = front.len() as int;
        assert(a.subrange(n, n + x1.len()) =~= x1);
        assert(b.subrange(n, n + x2.len()) =~= x2);
    }
}

/// The path of the request is signed; with rewritten paths, where one is set,
/// what stands before its question mark.
pub proof fn law_signed_path(uri: Uri, rewritten: Option<Seq<char>>, path: Seq<char>, query: Seq<char>)
    requires
        !path.contains('?'),
    ensures
        signed_path(UriSource::Client, uri, rewritten) == uri.path@,
        signed_path(UriSource::Rewritten, uri, None) == uri.path@,
        signed_path(UriSource::Rewritten, uri, Some(path)) == path,
        signed_path(UriSource::Rewritten, uri, Some(path + seq!['?'] + query)) == path,
{
    law_cut_at_first(path, '?', query);
}

/// A link is in time while the expiry and the skew have not passed. Without an
/// expiry its age counts: it is in time while it is no older than the age limit
/// and the skew. One that was signed later than now and the skew is not in time.
pub proof fn law_link_in_time(cfg: SignedUrlConfig, signature: Seq<char>, t: u64, e: u64, now: u64)
    ensures
        ({
            let skew = cfg.clock_skew_seconds;
            let both = times_verdict(
                cfg,
                Claims { signature, timestamp: Some(t), expiry: Some(e) },
                now,
            );
            let end = times_verdict(cfg, Claims { signature, timestamp: None, expiry: Some(e) }, now);
            let start = times_verdict(cfg, Claims { signature, timestamp: Some(t), expiry: None }, now);
            &&& both is Ok <==> now <= e + skew && t <= now + skew
            &&& end is Ok <==> now <= e + skew
            &&& cfg.max_age_seconds matches Some(age) ==> (start is Ok <==> t <= now + skew && now <= t
                + age + skew)
            &&& now > e + skew ==> both == Err::<(), SignedUrlError>(SignedUrlError::Expired)
            &&& now <= e + skew && t > now + skew ==> both == Err::<(), SignedUrlError>(
                SignedUrlError::FutureTimestamp,
            )
        }),
{
}

/// A link claims what its query says: the signature as it stands, the times as
/// numbers.
pub proof fn law_claims(cfg: SignedUrlConfig, params: Map<Seq<char>, Seq<char>>, t: u64, e: u64)
    requires
        params.contains_key(cfg.signature_param@),
        params.contains_key(cfg.timestamp_param@),
        params[cfg.timestamp_param@] == decimal(t as nat),
        cfg.expiry_param matches Some(name) ==> params.contains_key(name@) && params[name@] == decimal(
            e as nat,
        ),
    ensures
        claims_of(cfg, params) matches Ok(claims) && claims.signature == params[cfg.signature_param@]
            && claims.timestamp == Some(t) && claims.expiry == (if cfg.expiry_param is Some {
            Some(e)
        } else {
            None
        }),
{
    law_parse_reads_decimal(t as nat, u64::MAX as nat);
    law_parse_reads_decimal(e as nat, u64::MAX as nat);
}

/// A link without its signature, without its expiry where one is asked for, or
/// without a timestamp where none is, lacks a parameter.
pub proof fn law_claims_that_are_missing(cfg: SignedUrlConfig, params: Map<Seq<char>, Seq<char>>)
    ensures
        !params.contains_key(cfg.signature_param@) ==> claims_of(cfg, params) == Err::<
            Claims,
            SignedUrlError,
        >(SignedUrlError::MissingParam),
        cfg.expiry_param matches Some(name) ==> !params.contains_key(name@) ==> claims_of(cfg, params) is Err,
        cfg.expiry_param is None && !params.contains_key(cfg.timestamp_param@) ==> claims_of(cfg, params) == Err::<
            Claims,
            SignedUrlError,
        >(SignedUrlError::MissingParam),
{
}

/// Of two pieces of a query with the same key the later one counts.
pub proof fn law_query_value(pieces: Seq<Seq<char>>, n: int, key: Seq<char>, i: int)
    requires
        0 <= n <= pieces.len(),
    ensures
        0 <= i < n && pieces[i].len() > 0 && query_pair(pieces[i]).0 == key && (forall|j: int|
            i < j < n ==> (#[trigger] pieces[j]).len() == 0 || query_pair(pieces[j]).0 != key) ==> pairs_of(
            pieces,
            n,
        ).contains_key(key) && pairs_of(pieces, n)[key] == query_pair(pieces[i]).1,
        (forall|j: int|
            0 <= j < n ==> (#[trigger] pieces[j]).len() == 0 || query_pair(pieces[j]).0 != key)
            ==> !pairs_of(pieces, n).contains_key(key),
    decreases n,
{
    if n > 0 {
        law_query_value(pieces, n - 1, key, i);
    }
}

/// The pieces of a query are told apart at ampersands, and their values are
/// what stands behind the first equals sign.
pub proof fn law_query_of_pieces(query: Seq<char>, name: Seq<char>, value: Seq<char>)
    requires
        !name.contains('='),
    ensures
        query_map(query) == pairs_of(split(query, '&'), split(query, '&').len() as int),
        query_pair(name + seq!['='] + value) == (name, value),
        query_pair(name) == (name, Seq::<char>::empty()),
{
    law_cut_at_first(name, '=', value);
}

/// What the filter leaves of a query is what it was without the signature, the
/// timestamp and the expiry, in the same order.
pub proof fn law_strip_keeps_order(cfg: SignedUrlConfig, pieces: Seq<Seq<char>>, last: Seq<char>)
    ensures
        ({
            let key = query_pair(last).0;
            let expiry = match cfg.expiry_param {
                Some(name) => key == name@,
                None => false,
            };
            kept_pieces(cfg, pieces.push(last), pieces.len() as int + 1) == (if key == cfg.signature_param@
                || key == cfg.timestamp_param@ || expiry {
                kept_pieces(cfg, pieces, pieces.len() as int)
            } else {
                kept_pieces(cfg, pieces, pieces.len() as int).push(last)
            })
        }),
        kept_pieces(cfg, Seq::empty(), 0).len() == 0,
{
    lemma_kept_prefix(cfg, pieces, last, pieces.len() as int);
}

proof fn lemma_kept_prefix(cfg: SignedUrlConfig, pieces: Seq<Seq<char>>, last: Seq<char>, n: int)
    requires
        0 <= n <= pieces.len(),
    ensures
        kept_pieces(cfg, pieces.push(last), n) == kept_pieces(cfg, pieces, n),
    decreases n,
{
    if n > 0 {
        lemma_kept_prefix(cfg, pieces, last, n - 1);
        assert(pieces.push(last)[n - 1] == pieces[n - 1]);
    }
}

/// A link whose query holds nothing but the signature goes on as its path alone;
/// another one as its path, a question mark and the rest of its query.
pub proof fn law_stripped_link(cfg: SignedUrlConfig, uri: Uri, rewritten: Option<Seq<char>>)
    ensures
        ({
            let path = normalized(signed_path(cfg.uri_source, uri, rewritten));
            let pieces = split(query_text(uri), '&');
            let kept = kept_pieces(cfg, pieces, pieces.len() as int);
            &&& uri.query is None ==> stripped_link(cfg, uri, rewritten) == path
            &&& kept.len() == 0 ==> stripped_link(cfg, uri, rewritten) == path
            &&& uri.query matches Some(q) ==> q@.len() > 0 && kept.len() > 0 ==> stripped_link(
                cfg,
                uri,
                rewritten,
            ) == path + seq!['?'] + join(kept, seq!['&'])
        }),
{
    reveal_strlit("?");
    reveal_strlit("&");
    assert("?"@ =~= seq!['?']);
    assert("&"@ =~= seq!['&']);
}

/// A link is accepted exactly where its claims can be read, are in time, and
/// its signature writes the HMAC of its message under the secret.
pub proof fn law_link_accepted(
    cfg: SignedUrlConfig,
    secret: Seq<u8>,
    uri: Uri,
    rewritten: Option<Seq<char>>,
    now: u64,
)
    ensures
        link_verdict(cfg, secret, uri, rewritten, now) is Ok <==> (claims_of(
            cfg,
            query_map(query_text(uri)),
        ) matches Ok(claims) && times_verdict(cfg, claims, now) is Ok && claims.signature.len() > 0
            && hex_decoded(claims.signature) == Some(
            hmac_sha256_of(
                secret,
                encode_utf8(link_message(cfg, uri, rewritten, claims.timestamp, claims.expiry)),
            ),
        )),
{
}

/// A signature of another digest is not accepted.
pub proof fn law_other_digest(digest: Seq<u8>, other: Seq<u8>)
    requires
        other.len() > 0,
    ensures
        signature_verdict(hex_encoded(other), digest) is Ok <==> digest == other,
        signature_verdict(hex_encoded(other), digest) is Err ==> signature_verdict(hex_encoded(other), digest)
            == Err::<(), SignedUrlError>(SignedUrlError::InvalidSignature),
{
    law_hex_round_trip(other);
}

/// A configuration is in order exactly where something limits the time of a
/// link, the message has a part, and an expiry in the message has a parameter.
pub proof fn law_config_in_order(cfg: SignedUrlConfig)
    ensures
        config_error(cfg) is None <==> (cfg.expiry_param is Some || (cfg.max_age_seconds is Some
            && forall|i: int|
            0 <= i < cfg.message.parts@.len() ==> #[trigger] cfg.message.parts@[i]
                != MessagePart::Expiry)) && cfg.message.parts@.len() > 0,
{
    if cfg.message.parts@.contains(MessagePart::Expiry) {
        let i = cfg.message.parts@.index_of(MessagePart::Expiry);
        assert(cfg.message.parts@[i] == MessagePart::Expiry);
    }
}

/// A secret is had exactly where one of its two sources is given, and the
/// environment knows the variable; it is the bytes of that text.
pub proof fn law_secret(fields: SecretFields, env: Environment)
    ensures
        fields.secret matches Some(text) ==> fields.secret_env_var is None ==> (secret_of(fields, env) matches Ok(
            s,
        ) && s == encode_utf8(text@)),
        fields.secret_env_var matches Some(var) ==> fields.secret is None ==> (env.value(var@) matches Ok(
            text,
        ) ==> secret_of(fields, env) matches Ok(s) && s == encode_utf8(text)),
        fields.secret_env_var matches Some(var) ==> fields.secret is None ==> env.value(var@) is Err ==> secret_of(
            fields,
            env,
        ) is Err,
        (fields.secret is Some <==> fields.secret_env_var is Some) ==> secret_of(fields, env) is Err,
{
}

/// A GitHub signature is a name, an equals sign and the HMAC of the body under
/// the secret in hexadecimal, by SHA-256 or, in the older form, by SHA-1. No other
/// digest is accepted.
pub proof fn law_github_signature(digest: Seq<u8>, body: Seq<u8>, secret: Seq<u8>)
    requires
        digest.len() > 0,
    ensures
        body_verdict(DialectKind::Github, false, Some("sha256="@ + hex_encoded(digest)), body, secret) is Ok
            <==> digest == hmac_sha256_of(secret, body),
        body_verdict(DialectKind::Github, true, Some("sha1="@ + hex_encoded(digest)), body, secret) is Ok
            <==> digest == hmac_sha1_of(secret, body),
{
    let hex = hex_encoded(digest);
    let a = "sha256="@ + hex;
    let b = "sha1="@ + hex;
    law_hex_round_trip(digest);
    assert(provided_digest(DialectKind::Github, false, a, base64_decoded(a)) == Some(digest)) by {
        law_stripped(a, "sha256="@, hex);
    }
    assert(provided_digest(DialectKind::Github, true, b, base64_decoded(b)) == Some(digest)) by {
        law_stripped(b, "sha1="@, hex);
    }
}

/// A raw signature is the HMAC of the body under the secret, in hexadecimal or in
/// base64.
pub proof fn law_raw_signature(digest: Seq<u8>, text: Seq<char>, body: Seq<u8>, secret: Seq<u8>)
    requires
        digest.len() > 0,
        text.len() > 0,
    ensures
        body_verdict(DialectKind::RawHex, false, Some(hex_encoded(digest)), body, secret) is Ok <==> digest
            == hmac_sha256_of(secret, body),
        body_verdict(DialectKind::RawBase64, false, Some(text), body, secret) is Ok <==> base64_decoded(text)
            == Some(hmac_sha256_of(secret, body)),
{
    law_hex_round_trip(digest);
}

/// A request without a signature is told apart from one with a wrong signature.
pub proof fn law_missing_signature(kind: DialectKind, legacy: bool, body: Seq<u8>, secret: Seq<u8>, text: Seq<char>)
    ensures
        body_verdict(kind, legacy, None, body, secret) == Err::<(), SignatureError>(SignatureError::Missing),
        body_verdict(kind, legacy, Some(Seq::empty()), body, secret) == Err::<(), SignatureError>(
            SignatureError::Missing,
        ),
        text.len() > 0 && !"sha256="@.is_prefix_of(text) ==> body_verdict(
            DialectKind::Github,
            false,
            Some(text),
            body,
            secret,
        ) == Err::<(), SignatureError>(SignatureError::Malformed),
        text.len() > 0 && body_verdict(kind, legacy, Some(text), body, secret) is Err ==> body_verdict(
            kind,
            legacy,
            Some(text),
            body,
            secret,
        ) == Err::<(), SignatureError>(SignatureError::Malformed),
{
}

/// The GitHub dialect has a header of its own, and its older form goes by the
/// name of the older header; the raw dialects need a header.
pub proof fn law_dialect(header: Seq<char>)
    ensures
        dialect_of(DialectKind::Github, None) matches Some((name, kind, legacy)) && name
            == "X-Hub-Signature-256"@ && kind == DialectKind::Github && !legacy,
        dialect_of(DialectKind::Github, Some(header)) matches Some((name, kind, legacy)) && name == header
            && kind == DialectKind::Github && (legacy <==> lower(header) == "x-hub-signature"@),
        dialect_of(DialectKind::RawHex, Some(header)) == Some((header, DialectKind::RawHex, false)),
        dialect_of(DialectKind::RawBase64, Some(header)) == Some((header, DialectKind::RawBase64, false)),
        dialect_of(DialectKind::RawHex, None) is None,
        dialect_of(DialectKind::RawBase64, None) is None,
{
    reveal_strlit("X-Hub-Signature-256");
    reveal_strlit("X-Hub-Signature");
    reveal_strlit("x-hub-signature");
    let longer = "X-Hub-Signature-256"@;
    let older = "X-Hub-Signature"@;
    assert(lower(longer).len() == 19 && lower(older).len() == 15);
    assert(lower(older) =~= "x-hub-signature"@);
}

/// Each byte is written as two lowercase digits.
pub proof fn law_hex_digits(bytes: Seq<u8>, b: u8)
    ensures
        hex_encoded(bytes.push(b)).len() == hex_encoded(bytes).len() + 2,
        hex_encoded(bytes).is_prefix_of(hex_encoded(bytes.push(b))),
        ({
            let text = hex_encoded(bytes.push(b));
            let hi = text[text.len() - 2];
            let lo = text[text.len() - 1];
            &&& '0' <= hi <= '9' || 'a' <= hi <= 'f'
            &&& '0' <= lo <= '9' || 'a' <= lo <= 'f'
            &&& hi <= '9' ==> b / 16 == hi as int - '0' as int
            &&& hi >= 'a' ==> b / 16 == hi as int - 'a' as int + 10
            &&& lo <= '9' ==> b % 16 == lo as int - '0' as int
            &&& lo >= 'a' ==> b % 16 == lo as int - 'a' as int + 10
        }),
{
    assert(bytes.push(b).drop_last() =~= bytes);
}

/// The header of an accepted request is removed by setting it to nothing; all
/// else that was to be set stays.
pub proof fn law_removed_header(before: HttpFilterContext<'_>, after: HttpFilterContext<'_>, name: String)
    requires
        removes_header(before, after, name),
    ensures
        before.extra_request_headers@.is_prefix_of(after.extra_request_headers@),
        after.extra_request_headers@.len() == before.extra_request_headers@.len() + 1,
        after.extra_request_headers@.last().0 == name,
        after.extra_request_headers@.last().1@.len() == 0,
        after.request == before.request,
        after.rewritten_path == before.rewritten_path,
        after.cluster == before.cluster,
        after.pending_request_header_ops == before.pending_request_header_ops,
{
    let list = after.extra_request_headers@;
    assert(list.subrange(0, before.extra_request_headers@.len() as int) =~= list.drop_last());
}

} // verus!
