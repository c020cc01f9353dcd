//! Links that are signed by an HMAC in their query.

use vstd::prelude::*;
use vstd::utf8::encode_utf8;

use crate::action::{reject, rejects, Action, FilterAction};
use crate::environment::Environment;
use crate::number::{decimal, decimal_text, parse_number, parsed};
use crate::path_sanitize::{normalize_rewritten_path, normalized};
use crate::query::{parse_query_pairs, piece_key, query_map, query_pair};
use crate::request::{HttpFilterContext, Uri};
use crate::signature::mac::{constant_time_eq, decode_hex, hex_decoded, hex_encoded, hmac_sha256, hmac_sha256_of, law_hex_round_trip};
use crate::signature::secret::{resolve_secret, secret_of, SecretError, SecretFields};
use crate::text::{before, bytes_of_text, concat3, join, join_text, opt_text, opt_view, same_text, split, split_at_char, split_once, split_text, views};
use crate::text_map::TextMap;

verus! {

/// Clock skew in seconds, where none is configured.
pub const DEFAULT_CLOCK_SKEW_SECONDS: u64 = 30;

/// Status for links that are not accepted, where none is configured.
pub const DEFAULT_REJECT_STATUS: u16 = 403;

/// Status for expired links, where none is configured.
pub const DEFAULT_REJECT_STATUS_EXPIRED: u16 = 410;

/// The signature algorithm.
#[derive(Clone, Copy, Debug, PartialEq, Eq, Structural)]
pub enum SignatureAlgorithm {
    /// HMAC-SHA256.
    Sha256,
}

/// How the signature is written in the query.
#[derive(Clone, Copy, Debug, PartialEq, Eq, Structural)]
pub enum SignatureEncoding {
    /// Hexadecimal.
    Hex,
}

/// Which path is signed.
#[derive(Clone, Copy, Debug, PartialEq, Eq, Structural)]
pub enum UriSource {
    /// That of the request.
    Client,
    /// The rewritten one, where an earlier filter has set it.
    Rewritten,
}

/// A part of the signed message.
#[derive(Clone, Copy, Debug, PartialEq, Eq, Structural)]
pub enum MessagePart {
    Path,
    Timestamp,
    Expiry,
}

/// The signed message.
#[derive(Debug)]
pub struct MessageConfig {
    /// Its parts in order.
    pub parts: Vec<MessagePart>,
    /// What stands between them.
    pub separator: String,
    pub encoding: SignatureEncoding,
}

/// Configuration of the filter.
#[derive(Debug)]
pub struct SignedUrlConfig {
    pub secret: SecretFields,
    pub algorithm: SignatureAlgorithm,
    /// Query parameter with the signature.
    pub signature_param: String,
    /// Query parameter with the time of signing, in seconds since the epoch.
    pub timestamp_param: String,
    /// Query parameter with the time of expiry, in seconds since the epoch.
    pub expiry_param: Option<String>,
    /// How old a link may be, where there is no expiry parameter.
    pub max_age_seconds: Option<u64>,
    /// By how many seconds clocks may differ.
    pub clock_skew_seconds: u64,
    pub message: MessageConfig,
    pub uri_source: UriSource,
    /// Whether the parameters of the signature are removed before forwarding.
    pub strip_params: bool,
    /// Status for links that are not accepted.
    pub reject_status: u16,
    /// Status for expired links.
    pub reject_status_expired: u16,
}

impl Default for MessageConfig {
    fn default() -> (r: Self)
        ensures
            r.parts@ == seq![MessagePart::Path, MessagePart::Timestamp, MessagePart::Expiry],
            r.separator@ == "\n"@,
            r.encoding == SignatureEncoding::Hex,
    {
        MessageConfig {
            parts: vec![MessagePart::Path, MessagePart::Timestamp, MessagePart::Expiry],
            separator: "\n".to_owned(),
            encoding: SignatureEncoding::Hex,
        }
    }
}

impl SignedUrlConfig {
    /// The configuration of a secret, with defaults for the rest.
    pub fn with_defaults(secret: SecretFields) -> (r: Self)
        ensures
            r.secret == secret,
            r.algorithm == SignatureAlgorithm::Sha256,
            r.signature_param@ == "sig"@,
            r.timestamp_param@ == "ts"@,
            r.expiry_param is None,
            r.max_age_seconds is None,
            r.clock_skew_seconds == 30,
            r.message.parts@ == seq![MessagePart::Path, MessagePart::Timestamp, MessagePart::Expiry],
            r.message.separator@ == "\n"@,
            r.message.encoding == SignatureEncoding::Hex,
            r.uri_source == UriSource::Client,
            r.strip_params,
            r.reject_status == 403,
            r.reject_status_expired == 410,
    {
        SignedUrlConfig {
            secret,
            algorithm: SignatureAlgorithm::Sha256,
            signature_param: "sig".to_owned(),
            timestamp_param: "ts".to_owned(),
            expiry_param: None,
            max_age_seconds: None,
            clock_skew_seconds: 30,
            message: MessageConfig::default(),
            uri_source: UriSource::Client,
            strip_params: true,
            reject_status: 403,
            reject_status_expired: 410,
        }
    }
}

/// Why a configuration is refused.
#[derive(Debug)]
pub enum SignedUrlConfigError {
    /// Neither an expiry parameter nor an age limit is there.
    NoTimeLimit,
    /// The message has no parts.
    NoParts,
    /// The expiry is part of the message, and has no parameter.
    ExpiryPart,
    /// An age limit is needed to judge a link.
    MaxAgeRequired,
    Secret(SecretError),
}

impl SignedUrlConfigError {
    pub open spec fn text(self) -> Seq<char> {
        match self {
            SignedUrlConfigError::NoTimeLimit => "signed_url: 'max_age_seconds' is required when 'expiry_param' is absent"@,
            SignedUrlConfigError::NoParts => "signed_url: message.parts must not be empty"@,
            SignedUrlConfigError::ExpiryPart => "signed_url: message part 'expiry' requires 'expiry_param'"@,
            SignedUrlConfigError::MaxAgeRequired => "signed_url: max_age_seconds required when expiry_param is absent"@,
            SignedUrlConfigError::Secret(err) => err.text("signed_url"@),
        }
    }

    /// The message of this error.
    pub fn message(&self) -> (r: String)
        ensures
            r@ == self.text(),
    {
        match self {
            SignedUrlConfigError::NoTimeLimit => "signed_url: 'max_age_seconds' is required when 'expiry_param' is absent".to_owned(),
            SignedUrlConfigError::NoParts => "signed_url: message.parts must not be empty".to_owned(),
            SignedUrlConfigError::ExpiryPart => "signed_url: message part 'expiry' requires 'expiry_param'".to_owned(),
            SignedUrlConfigError::MaxAgeRequired => "signed_url: max_age_seconds required when expiry_param is absent".to_owned(),
            SignedUrlConfigError::Secret(err) => err.message("signed_url"),
        }
    }
}

/// Why a link is not accepted.
#[derive(Clone, Copy, Debug, PartialEq, Eq, Structural)]
pub enum SignedUrlError {
    /// A parameter is missing.
    MissingParam,
    /// A time is not a number.
    ParseError,
    /// The link has expired.
    Expired,
    /// The link was signed in the future.
    FutureTimestamp,
    /// The signature cannot be read.
    InvalidEncoding,
    /// The signature is not that of the link.
    InvalidSignature,
}

/// An accepted link.
#[derive(Debug)]
pub struct VerifiedUrl {
    /// Path and query without the parameters of the signature, where these are
    /// to be removed.
    pub stripped_path: Option<String>,
}

/// What a link claims.
#[derive(Debug)]
pub struct LinkClaims {
    pub signature: String,
    pub timestamp: Option<u64>,
    pub expiry: Option<u64>,
}

/// Claims as mathematical data.
pub struct Claims {
    pub signature: Seq<char>,
    pub timestamp: Option<u64>,
    pub expiry: Option<u64>,
}

impl View for LinkClaims {
    type V = Claims;

    open spec fn view(&self) -> Claims {
        Claims { signature: self.signature@, timestamp: self.timestamp, expiry: self.expiry }
    }
}

/// The query of a URI; none is empty.
pub open spec fn query_text(uri: Uri) -> Seq<char> {
    match uri.query {
        Some(q) => q@,
        None => Seq::empty(),
    }
}

/// A number of seconds that a parameter gives: `None` where the parameter is
/// not there.
pub open spec fn seconds(params: Map<Seq<char>, Seq<char>>, name: Seq<char>) -> Option<
    Result<u64, SignedUrlError>,
> {
    if !params.contains_key(name) {
        None
    } else {
        match parsed(params[name], u64::MAX as nat) {
            Some(n) => Some(Ok(n as u64)),
            None => Some(Err(SignedUrlError::ParseError)),
        }
    }
}

/// The time of expiry that a link gives.
pub open spec fn expiry_seconds(cfg: SignedUrlConfig, params: Map<Seq<char>, Seq<char>>) -> Option<
    Result<u64, SignedUrlError>,
> {
    match cfg.expiry_param {
        Some(name) => seconds(params, name@),
        None => None,
    }
}

pub open spec fn ok_seconds(s: Option<Result<u64, SignedUrlError>>) -> Option<u64> {
    match s {
        Some(Ok(n)) => Some(n),
        _ => None,
    }
}

/// What a link claims, or why it cannot be read.
pub open spec fn claims_of(cfg: SignedUrlConfig, params: Map<Seq<char>, Seq<char>>) -> Result<
    Claims,
    SignedUrlError,
> {
    let expiry = expiry_seconds(cfg, params);
    let timestamp = seconds(params, cfg.timestamp_param@);
    if !params.contains_key(cfg.signature_param@) {
        Err(SignedUrlError::MissingParam)
    } else if expiry matches Some(Err(e)) {
        Err(SignedUrlError::ParseError)
    } else if cfg.expiry_param is None && timestamp is None {
        Err(SignedUrlError::MissingParam)
    } else if timestamp matches Some(Err(e)) {
        Err(SignedUrlError::ParseError)
    } else if cfg.expiry_param is Some && expiry is None {
        Err(SignedUrlError::MissingParam)
    } else {
        Ok(
            Claims {
                signature: params[cfg.signature_param@],
                timestamp: ok_seconds(timestamp),
                expiry: ok_seconds(expiry),
            },
        )
    }
}

/// Whether a link is older than the age limit.
pub open spec fn too_old(cfg: SignedUrlConfig, claims: Claims, now: u64) -> bool {
    match (claims.timestamp, cfg.max_age_seconds) {
        (Some(t), Some(age)) => now - t > age + cfg.clock_skew_seconds,
        _ => false,
    }
}

/// Whether the times of a link are in order at the time `now`.
pub open spec fn times_verdict(cfg: SignedUrlConfig, claims: Claims, now: u64) -> Result<
    (),
    SignedUrlError,
> {
    let skew = cfg.clock_skew_seconds;
    if claims.expiry matches Some(e) && now > e + skew {
        Err(SignedUrlError::Expired)
    } else if claims.timestamp matches Some(t) && now + skew < t {
        Err(SignedUrlError::FutureTimestamp)
    } else if claims.expiry is None && too_old(cfg, claims, now) {
        Err(SignedUrlError::Expired)
    } else {
        Ok(())
    }
}

/// Whether judging a link needs an age limit that is not configured.
pub open spec fn lacks_age(cfg: SignedUrlConfig, claims: Claims, now: u64) -> bool {
    &&& cfg.max_age_seconds is None
    &&& claims.expiry is None
    &&& claims.timestamp matches Some(t) && now + cfg.clock_skew_seconds >= t
}

/// The path that is signed.
pub open spec fn signed_path(source: UriSource, uri: Uri, rewritten: Option<Seq<char>>) -> Seq<char> {
    match (source, rewritten) {
        (UriSource::Rewritten, Some(path)) => before(path, '?'),
        _ => uri.path@,
    }
}

/// One part of the message; a time that is not claimed is left out.
pub open spec fn part_text(
    part: MessagePart,
    path: Seq<char>,
    timestamp: Option<u64>,
    expiry: Option<u64>,
) -> Option<Seq<char>> {
    match part {
        MessagePart::Path => Some(path),
        MessagePart::Timestamp => match timestamp {
            Some(t) => Some(decimal(t as nat)),
            None => None,
        },
        MessagePart::Expiry => match expiry {
            Some(e) => Some(decimal(e as nat)),
            None => None,
        },
    }
}

/// The first `n` parts of the message.
pub open spec fn part_texts(
    parts: Seq<MessagePart>,
    n: int,
    path: Seq<char>,
    timestamp: Option<u64>,
    expiry: Option<u64>,
) -> Seq<Seq<char>>
    decreases n,
{
    if n <= 0 {
        Seq::empty()
    } else {
        let earlier = part_texts(parts, n - 1, path, timestamp, expiry);
        match part_text(parts[n - 1], path, timestamp, expiry) {
            Some(text) => earlier.push(text),
            None => earlier,
        }
    }
}

/// The message that is signed.
pub open spec fn link_message(
    cfg: SignedUrlConfig,
    uri: Uri,
    rewritten: Option<Seq<char>>,
    timestamp: Option<u64>,
    expiry: Option<u64>,
) -> Seq<char> {
    join(
        part_texts(
            cfg.message.parts@,
            cfg.message.parts@.len() as int,
            signed_path(cfg.uri_source, uri, rewritten),
            timestamp,
            expiry,
        ),
        cfg.message.separator@,
    )
}

/// Whether a key is one of the parameters of the signature.
pub open spec fn is_signature_key(cfg: SignedUrlConfig, key: Seq<char>) -> bool {
    ||| key == cfg.signature_param@
    ||| key == cfg.timestamp_param@
    ||| cfg.expiry_param matches Some(name) && key == name@
}

/// The first `n` pieces of a query without the parameters of the signature.
pub open spec fn kept_pieces(cfg: SignedUrlConfig, pieces: Seq<Seq<char>>, n: int) -> Seq<Seq<char>>
    decreases n,
{
    if n <= 0 {
        Seq::empty()
    } else if is_signature_key(cfg, query_pair(pieces[n - 1]).0) {
        kept_pieces(cfg, pieces, n - 1)
    } else {
        kept_pieces(cfg, pieces, n - 1).push(pieces[n - 1])
    }
}

/// Path and query of a link without the parameters of the signature.
pub open spec fn stripped_link(cfg: SignedUrlConfig, uri: Uri, rewritten: Option<Seq<char>>) -> Seq<
    char,
> {
    let path = normalized(signed_path(cfg.uri_source, uri, rewritten));
    let pieces = split(query_text(uri), '&');
    let kept = kept_pieces(cfg, pieces, pieces.len() as int);
    if query_text(uri).len() == 0 || kept.len() == 0 {
        path
    } else {
        path + "?"@ + join(kept, "&"@)
    }
}

/// Whether a signature is that of a message whose digest is `expected`.
pub open spec fn signature_verdict(signature: Seq<char>, expected: Seq<u8>) -> Result<
    (),
    SignedUrlError,
> {
    if signature.len() == 0 || hex_decoded(signature) is None {
        Err(SignedUrlError::InvalidEncoding)
    } else if hex_decoded(signature) == Some(expected) {
        Ok(())
    } else {
        Err(SignedUrlError::InvalidSignature)
    }
}

/// The digest that a link with these claims has to carry.
pub open spec fn link_digest(
    cfg: SignedUrlConfig,
    secret: Seq<u8>,
    uri: Uri,
    rewritten: Option<Seq<char>>,
    claims: Claims,
) -> Seq<u8> {
    hmac_sha256_of(
        secret,
        encode_utf8(link_message(cfg, uri, rewritten, claims.timestamp, claims.expiry)),
    )
}

/// Whether a link is accepted at the time `now`.
pub open spec fn link_verdict(
    cfg: SignedUrlConfig,
    secret: Seq<u8>,
    uri: Uri,
    rewritten: Option<Seq<char>>,
    now: u64,
) -> Result<(), SignedUrlError> {
    match claims_of(cfg, query_map(query_text(uri))) {
        Err(e) => Err(e),
        Ok(claims) => match times_verdict(cfg, claims, now) {
            Err(e) => Err(e),
            Ok(_) => signature_verdict(
                claims.signature,
                link_digest(cfg, secret, uri, rewritten, claims),
            ),
        },
    }
}

/// Whether judging a link ends in a fault of the configuration.
pub open spec fn link_fault(cfg: SignedUrlConfig, uri: Uri, now: u64) -> bool {
    claims_of(cfg, query_map(query_text(uri))) matches Ok(claims) && !(claims.expiry matches Some(e)
        && now > e + cfg.clock_skew_seconds) && lacks_age(cfg, claims, now)
}

/// What is wrong with a configuration.
pub open spec fn config_error(cfg: SignedUrlConfig) -> Option<SignedUrlConfigError> {
    if cfg.expiry_param is None && cfg.max_age_seconds is None {
        Some(SignedUrlConfigError::NoTimeLimit)
    } else if cfg.message.parts@.len() == 0 {
        Some(SignedUrlConfigError::NoParts)
    } else if cfg.expiry_param is None && cfg.message.parts@.contains(MessagePart::Expiry) {
        Some(SignedUrlConfigError::ExpiryPart)
    } else {
        None
    }
}

/// Split a rewritten path into path and query. An empty query is none.
pub fn split_path_query(path_and_query: &str) -> (r: (String, Option<String>))
    ensures
        r.0@ == before(path_and_query@, '?'),
        match split_once(path_and_query@, '?') {
            Some((_, query)) if query.len() > 0 => r.1 matches Some(q) && q@ == query,
            _ => r.1 is None,
        },
{
    match split_at_char(path_and_query, '?') {
        Some((path, query)) => {
            if query.as_str().is_empty() {
                (path, None)
            } else {
                (path, Some(query))
            }
        },
        None => (path_and_query.to_owned(), None),
    }
}

fn resolve_path(source: UriSource, uri: &Uri, rewritten_path: Option<&str>) -> (r: String)
    ensures
        r@ == signed_path(source, *uri, opt_view(rewritten_path)),
{
    match (source, rewritten_path) {
        (UriSource::Rewritten, Some(path)) => split_path_query(path).0,
        _ => uri.path.clone(),
    }
}

/// The message that is signed.
pub fn build_signed_url_message(
    cfg: &SignedUrlConfig,
    uri: &Uri,
    rewritten_path: Option<&str>,
    timestamp: Option<u64>,
    expiry: Option<u64>,
) -> (r: Vec<u8>)
    ensures
        r@ == encode_utf8(
            link_message(*cfg, *uri, opt_view(rewritten_path), timestamp, expiry),
        ),
{
    let path = resolve_path(cfg.uri_source, uri, rewritten_path);
    let mut parts: Vec<String> = Vec::new();
    assert(views(parts@) =~= Seq::<Seq<char>>::empty());
    let mut i: usize = 0;
    while i < cfg.message.parts.len()
        invariant
            i <= cfg.message.parts@.len(),
            views(parts@) == part_texts(
                cfg.message.parts@,
                i as int,
                path@,
                timestamp,
                expiry,
            ),
        decreases cfg.message.parts@.len() - i,
    {
        let ghost earlier = views(parts@);
        let text: Option<String> = match cfg.message.parts[i] {
            MessagePart::Path => Some(path.clone()),
            MessagePart::Timestamp => match timestamp {
                Some(t) => Some(decimal_text(t)),
                None => None,
            },
            MessagePart::Expiry => match expiry {
                Some(e) => Some(decimal_text(e)),
                None => None,
            },
        };
        if let Some(t) = text {
            parts.push(t);
            assert(views(parts@) =~= earlier.push(t@));
        }
        i = i + 1;
    }
    let message = join_text(&parts, cfg.message.separator.as_str());
    bytes_of_text(message.as_str())
}

fn read_seconds(params: &TextMap, name: &str) -> (r: Option<Result<u64, SignedUrlError>>)
    ensures
        r == seconds(params@, name@),
{
    match params.get(name) {
        None => None,
        Some(text) => match parse_number(text.as_str(), u64::MAX) {
            Some(n) => Some(Ok(n)),
            None => Some(Err(SignedUrlError::ParseError)),
        },
    }
}

/// Read what a link claims, and judge its times.
pub fn read_claims(cfg: &SignedUrlConfig, uri: &Uri, now_secs: u64) -> (r: Result<
    Result<LinkClaims, SignedUrlError>,
    SignedUrlConfigError,
>)
    ensures
        if link_fault(*cfg, *uri, now_secs) {
            r == Err::<Result<LinkClaims, SignedUrlError>, SignedUrlConfigError>(
                SignedUrlConfigError::MaxAgeRequired,
            )
        } else {
            r matches Ok(inner) && match claims_of(*cfg, query_map(query_text(*uri))) {
                Err(e) => inner == Err::<LinkClaims, SignedUrlError>(e),
                Ok(claims) => match times_verdict(*cfg, claims, now_secs) {
                    Err(e) => inner == Err::<LinkClaims, SignedUrlError>(e),
                    Ok(_) => inner is Ok && inner->Ok_0@ == claims,
                },
            }
        },
{
    let empty = String::new();
    assert(empty@ =~= Seq::<char>::empty());
    let query: &str = match &uri.query {
        Some(q) => q.as_str(),
        None => empty.as_str(),
    };
    let params = parse_query_pairs(query);
    let signature: String = match params.get(cfg.signature_param.as_str()) {
        Some(s) => s.clone(),
        None => {
            return Ok(Err(SignedUrlError::MissingParam));
        },
    };
    let expiry: Option<u64> = match &cfg.expiry_param {
        Some(name) => match read_seconds(&params, name.as_str()) {
            Some(Ok(n)) => Some(n),
            Some(Err(_)) => {
                return Ok(Err(SignedUrlError::ParseError));
            },
            None => None,
        },
        None => None,
    };
    let timestamp: Option<u64> = match read_seconds(&params, cfg.timestamp_param.as_str()) {
        Some(Ok(n)) => Some(n),
        Some(Err(_)) => {
            return Ok(Err(SignedUrlError::ParseError));
        },
        None => {
            if cfg.expiry_param.is_none() {
                return Ok(Err(SignedUrlError::MissingParam));
            }
            None
        },
    };
    if cfg.expiry_param.is_some() && expiry.is_none() {
        return Ok(Err(SignedUrlError::MissingParam));
    }
    if let Some(exp) = expiry {
        if now_secs > exp.saturating_add(cfg.clock_skew_seconds) {
            return Ok(Err(SignedUrlError::Expired));
        }
    }
    if let Some(ts) = timestamp {
        if now_secs.saturating_add(cfg.clock_skew_seconds) < ts {
            return Ok(Err(SignedUrlError::FutureTimestamp));
        }
        if expiry.is_none() {
            match cfg.max_age_seconds {
                Some(max_age) => {
                    if now_secs.saturating_sub(ts) > max_age.saturating_add(
                        cfg.clock_skew_seconds,
                    ) {
                        return Ok(Err(SignedUrlError::Expired));
                    }
                },
                None => {
                    return Err(SignedUrlConfigError::MaxAgeRequired);
                },
            }
        }
    }
    Ok(Ok(LinkClaims { signature, timestamp, expiry }))
}

/// Compare the signature of a link with the digest that it has to carry.
pub fn check_signature(signature: &str, expected: &[u8]) -> (r: Result<(), SignedUrlError>)
    ensures
        r == signature_verdict(signature@, expected@),
{
    match decode_hex(signature) {
        None => Err(SignedUrlError::InvalidEncoding),
        Some(provided) => {
            if provided.len() != expected.len() || !constant_time_eq(
                provided.as_slice(),
                expected,
            ) {
                return Err(SignedUrlError::InvalidSignature);
            }
            Ok(())
        },
    }
}

/// Path and query of a link without the parameters of the signature.
pub fn strip_signature_params(cfg: &SignedUrlConfig, uri: &Uri, rewritten_path: Option<&str>) -> (r:
    String)
    ensures
        r@ == stripped_link(*cfg, *uri, opt_view(rewritten_path)),
{
    let path = resolve_path(cfg.uri_source, uri, rewritten_path);
    let clean = normalize_rewritten_path(path.as_str());
    let empty = String::new();
    assert(empty@ =~= Seq::<char>::empty());
    let query: &str = match &uri.query {
        Some(q) => q.as_str(),
        None => empty.as_str(),
    };
    if query.is_empty() {
        return clean;
    }
    let pieces = split_text(query, '&');
    let ghost all = split(query@, '&');
    let mut kept: Vec<String> = Vec::new();
    assert(views(kept@) =~= Seq::<Seq<char>>::empty());
    let mut i: usize = 0;
    while i < pieces.len()
        invariant
            i <= pieces@.len(),
            all == split(query@, '&'),
            pieces@.map_values(|t: String| t@) == all,
            views(kept@) == kept_pieces(*cfg, all, i as int),
        decreases pieces@.len() - i,
    {
        assert(all[i as int] == pieces@[i as int]@);
        let key = piece_key(pieces[i].as_str());
        let of_expiry = match &cfg.expiry_param {
            Some(name) => same_text(key.as_str(), name.as_str()),
            None => false,
        };
        let ghost earlier = views(kept@);
        if !(same_text(key.as_str(), cfg.signature_param.as_str()) || same_text(
            key.as_str(),
            cfg.timestamp_param.as_str(),
        ) || of_expiry) {
            kept.push(pieces[i].clone());
            assert(views(kept@) =~= earlier.push(all[i as int]));
        }
        i = i + 1;
    }
    assert(views(kept@).len() == kept@.len());
    if kept.len() == 0 {
        clean
    } else {
        let rest = join_text(&kept, "&");
        concat3(clean.as_str(), "?", rest.as_str())
    }
}

/// Verify a link at the time `now_secs`, in seconds since the epoch.
pub fn verify_signed_url(
    cfg: &SignedUrlConfig,
    secret: &[u8],
    uri: &Uri,
    rewritten_path: Option<&str>,
    now_secs: u64,
) -> (r: Result<Result<VerifiedUrl, SignedUrlError>, SignedUrlConfigError>)
    ensures
        if link_fault(*cfg, *uri, now_secs) {
            r == Err::<Result<VerifiedUrl, SignedUrlError>, SignedUrlConfigError>(
                SignedUrlConfigError::MaxAgeRequired,
            )
        } else {
            r matches Ok(inner) && match link_verdict(
                *cfg,
                secret@,
                *uri,
                opt_view(rewritten_path),
                now_secs,
            ) {
                Err(e) => inner == Err::<VerifiedUrl, SignedUrlError>(e),
                Ok(_) => inner matches Ok(verified) && if cfg.strip_params {
                    verified.stripped_path matches Some(path) && path@ == stripped_link(
                        *cfg,
                        *uri,
                        opt_view(rewritten_path),
                    )
                } else {
                    verified.stripped_path is None
                },
            }
        },
{
    let claims = match read_claims(cfg, uri, now_secs) {
        Err(fault) => {
            return Err(fault);
        },
        Ok(Err(e)) => {
            return Ok(Err(e));
        },
        Ok(Ok(claims)) => claims,
    };
    let message = build_signed_url_message(
        cfg,
        uri,
        rewritten_path,
        claims.timestamp,
        claims.expiry,
    );
    let expected = hmac_sha256(secret, message.as_slice());
    match check_signature(claims.signature.as_str(), expected.as_slice()) {
        Err(e) => Ok(Err(e)),
        Ok(()) => {
            let stripped_path: Option<String> = if cfg.strip_params {
                Some(strip_signature_params(cfg, uri, rewritten_path))
            } else {
                None
            };
            Ok(Ok(VerifiedUrl { stripped_path }))
        },
    }
}

/// Check a configuration.
pub fn validate_signed_url_config(cfg: &SignedUrlConfig) -> (r: Result<(), SignedUrlConfigError>)
    ensures
        match config_error(*cfg) {
            Some(err) => r == Err::<(), SignedUrlConfigError>(err),
            None => r is Ok,
        },
{
    if cfg.expiry_param.is_none() && cfg.max_age_seconds.is_none() {
        return Err(SignedUrlConfigError::NoTimeLimit);
    }
    if cfg.message.parts.len() == 0 {
        return Err(SignedUrlConfigError::NoParts);
    }
    let mut i: usize = 0;
    while i < cfg.message.parts.len()
        invariant
            i <= cfg.message.parts@.len(),
            cfg.message.parts@.len() > 0,
            !(cfg.expiry_param is None && cfg.max_age_seconds is None),
            cfg.expiry_param is None ==> forall|k: int|
                0 <= k < i ==> #[trigger] cfg.message.parts@[k] != MessagePart::Expiry,
        decreases cfg.message.parts@.len() - i,
    {
        if cfg.message.parts[i] == MessagePart::Expiry && cfg.expiry_param.is_none() {
            assert(cfg.message.parts@[i as int] == MessagePart::Expiry);
            return Err(SignedUrlConfigError::ExpiryPart);
        }
        i = i + 1;
    }
    Ok(())
}

/// Verifies links that are signed in their query.
pub struct SignedUrlFilter {
    cfg: SignedUrlConfig,
    secret: Vec<u8>,
}

impl SignedUrlFilter {
    pub closed spec fn cfg(self) -> SignedUrlConfig {
        self.cfg
    }

    pub closed spec fn secret(self) -> Seq<u8> {
        self.secret@
    }

    pub open spec fn wf(self) -> bool {
        config_error(self.cfg()) is None
    }

    /// Create the filter from its configuration.
    pub fn from_config(cfg: SignedUrlConfig, env: &Environment) -> (r: Result<
        Self,
        SignedUrlConfigError,
    >)
        ensures
            match config_error(cfg) {
                Some(err) => r == Err::<Self, SignedUrlConfigError>(err),
                None => match secret_of(cfg.secret, *env) {
                    Ok(secret) => {
                        &&& r is Ok
                        &&& r->Ok_0.wf()
                        &&& r->Ok_0.cfg() == cfg
                        &&& r->Ok_0.secret() == secret
                    },
                    Err(failure) => r matches Err(SignedUrlConfigError::Secret(err)) && err.model()
                        == failure,
                },
            },
    {
        validate_signed_url_config(&cfg)?;
        match resolve_secret(&cfg.secret, env) {
            Ok(secret) => Ok(SignedUrlFilter { cfg, secret }),
            Err(err) => Err(SignedUrlConfigError::Secret(err)),
        }
    }

    /// The filter's name.
    pub fn name(&self) -> (r: &'static str)
        ensures
            r@ == "signed_url"@,
    {
        "signed_url"
    }

    /// Go on with a link that is accepted, without the parameters of its
    /// signature where these are to be removed, and reject any other.
    pub fn on_request(&self, ctx: &mut HttpFilterContext<'_>, now_secs: u64) -> (r: FilterAction)
        requires
            self.wf(),
        ensures
            ({
                let rewritten = opt_text(old(ctx).rewritten_path);
                let verdict = link_verdict(
                    self.cfg(),
                    self.secret(),
                    old(ctx).request.uri,
                    rewritten,
                    now_secs,
                );
                match verdict {
                    Ok(_) => {
                        &&& r.model() == Action::Continue
                        &&& *final(ctx) == (HttpFilterContext {
                            rewritten_path: final(ctx).rewritten_path,
                            ..*old(ctx)
                        })
                        &&& if self.cfg().strip_params {
                            final(ctx).rewritten_path matches Some(path) && path@ == stripped_link(
                                self.cfg(),
                                old(ctx).request.uri,
                                rewritten,
                            )
                        } else {
                            final(ctx).rewritten_path == old(ctx).rewritten_path
                        }
                    },
                    Err(SignedUrlError::Expired) => r.model() == rejects(
                        self.cfg().reject_status_expired,
                    ) && *final(ctx) == *old(ctx),
                    Err(_) => r.model() == rejects(self.cfg().reject_status) && *final(ctx) == *old(
                        ctx,
                    ),
                }
            }),
    {
        let rewritten: Option<&str> = match &ctx.rewritten_path {
            Some(path) => Some(path.as_str()),
            None => None,
        };
        let verdict = verify_signed_url(
            &self.cfg,
            self.secret.as_slice(),
            &ctx.request.uri,
            rewritten,
            now_secs,
        );
        proof {
            law_valid_config_never_faults(self.cfg, ctx.request.uri, now_secs);
        }
        match verdict {
            Ok(Ok(verified)) => {
                if verified.stripped_path.is_some() {
                    ctx.rewritten_path = verified.stripped_path;
                }
                FilterAction::Continue
            },
            Ok(Err(SignedUrlError::Expired)) => reject(self.cfg.reject_status_expired),
            _ => reject(self.cfg.reject_status),
        }
    }
}

/// With a valid configuration, judging a link never ends in a fault of the
/// configuration.
pub proof fn law_valid_config_never_faults(cfg: SignedUrlConfig, uri: Uri, now: u64)
    requires
        config_error(cfg) is None,
    ensures
        !link_fault(cfg, uri, now),
{
}

/// A signature that writes the digest in hexadecimal is accepted for it.
pub proof fn law_digest_accepted(digest: Seq<u8>)
    requires
        digest.len() > 0,
    ensures
        signature_verdict(hex_encoded(digest), digest) is Ok,
{
    law_hex_round_trip(digest);
}

/// A link that carries the digest of its own path and times in hexadecimal is
/// accepted within its time limits.
pub proof fn law_signed_link_accepted(
    cfg: SignedUrlConfig,
    secret: Seq<u8>,
    uri: Uri,
    rewritten: Option<Seq<char>>,
    now: u64,
)
    requires
        claims_of(cfg, query_map(query_text(uri))) matches Ok(claims) && times_verdict(cfg, claims, now) is Ok
            && link_digest(cfg, secret, uri, rewritten, claims).len() > 0 && claims.signature
            == hex_encoded(link_digest(cfg, secret, uri, rewritten, claims)),
    ensures
        link_verdict(cfg, secret, uri, rewritten, now) is Ok,
{
    let claims = claims_of(cfg, query_map(query_text(uri)))->Ok_0;
    law_digest_accepted(link_digest(cfg, secret, uri, rewritten, claims));
}

/// An accepted link carries the digest of its own path and times, and is within
/// its time limits.
pub proof fn law_accepted_link(
    cfg: SignedUrlConfig,
    secret: Seq<u8>,
    uri: Uri,
    rewritten: Option<Seq<char>>,
    now: u64,
)
    requires
        link_verdict(cfg, secret, uri, rewritten, now) is Ok,
    ensures
        claims_of(cfg, query_map(query_text(uri))) matches Ok(claims) && hex_decoded(claims.signature)
            == Some(link_digest(cfg, secret, uri, rewritten, claims)) && (claims.expiry matches Some(
            e,
        ) ==> now <= e + cfg.clock_skew_seconds) && (claims.timestamp matches Some(t) ==> t <= now
            + cfg.clock_skew_seconds),
{
}

/// What is removed from a query is exactly the parameters of the signature.
pub proof fn law_strip_removes_only_signature(cfg: SignedUrlConfig, pieces: Seq<Seq<char>>, n: int)
    requires
        0 <= n <= pieces.len(),
    ensures
        forall|k: int|
            0 <= k < kept_pieces(cfg, pieces, n).len() ==> !is_signature_key(
                cfg,
                query_pair(#[trigger] kept_pieces(cfg, pieces, n)[k]).0,
            ),
        forall|i: int|
            0 <= i < n && !is_signature_key(cfg, query_pair(#[trigger] pieces[i]).0) ==> kept_pieces(
                cfg,
                pieces,
                n,
            ).contains(pieces[i]),
        kept_pieces(cfg, pieces, n).len() <= n,
    decreases n,
{
    if n > 0 {
        law_strip_removes_only_signature(cfg, pieces, n - 1);
        let earlier = kept_pieces(cfg, pieces, n - 1);
        let kept = kept_pieces(cfg, pieces, n);
        assert forall|i: int| 0 <= i < n && !is_signature_key(cfg, query_pair(#[trigger] pieces[i]).0) implies kept.contains(
        pieces[i]) by {
            if i < n - 1 {
                assert(earlier.contains(pieces[i]));
                let k = earlier.index_of(pieces[i]);
                assert(kept[k] == pieces[i]);
            } else {
                assert(kept[kept.len() - 1] == pieces[i]);
            }
        }
    }
}

} // verus!
