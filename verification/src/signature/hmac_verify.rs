//! Verification of request bodies that are signed with a shared secret.

use vstd::prelude::*;

use crate::action::{reject, rejects, Action, BodyAccess, BodyMode, FilterAction};
use crate::environment::Environment;
use crate::request::{header_text, text_at, HttpFilterContext};
use crate::signature::mac::{base64_decoded, constant_time_eq, decode_base64, decode_hex, encode_hex_lower, hmac_sha1, hmac_sha1_of, hmac_sha256, hmac_sha256_of, hex_decoded, hex_encoded, law_hex_round_trip};
use crate::signature::secret::{resolve_secret, secret_of, SecretError, SecretFields};
use crate::text::{concat, lower, opt_text, opt_view, same_ignoring_case, strip_prefix, stripped};

verus! {

/// Largest body that is collected for verification, where none is configured.
pub const DEFAULT_MAX_BODY_BYTES: usize = 1_048_576;

/// Status for missing or invalid signatures, where none is configured.
pub const DEFAULT_REJECT_STATUS: u16 = 401;

/// How the signature is written.
#[derive(Clone, Copy, Debug, PartialEq, Eq, Structural)]
pub enum DialectKind {
    /// GitHub webhooks: `sha256=<hex>` in `X-Hub-Signature-256`.
    Github,
    /// A hexadecimal digest in a header.
    RawHex,
    /// A standard base64 digest in a header.
    RawBase64,
}

/// The signature algorithm.
#[derive(Clone, Copy, Debug, PartialEq, Eq, Structural)]
pub enum SignatureAlgorithm {
    /// HMAC-SHA256.
    Sha256,
}

/// Configuration of the filter.
#[derive(Debug)]
pub struct HmacVerifyConfig {
    pub secret: SecretFields,
    pub dialect: DialectKind,
    /// Header with the signature; the dialect may have a default.
    pub header: Option<String>,
    pub algorithm: SignatureAlgorithm,
    /// Largest body that is collected for verification.
    pub max_body_bytes: usize,
    /// Status for missing or invalid signatures.
    pub reject_status: u16,
    /// Whether the signature header is removed before forwarding.
    pub strip_header: bool,
}

impl HmacVerifyConfig {
    /// The configuration of a dialect, with defaults for the rest.
    pub fn with_defaults(secret: SecretFields, dialect: DialectKind) -> (r: Self)
        ensures
            r.secret == secret,
            r.dialect == dialect,
            r.header is None,
            r.algorithm == SignatureAlgorithm::Sha256,
            r.max_body_bytes == DEFAULT_MAX_BODY_BYTES,
            r.reject_status == 401,
            r.strip_header,
    {
        HmacVerifyConfig {
            secret,
            dialect,
            header: None,
            algorithm: SignatureAlgorithm::Sha256,
            max_body_bytes: DEFAULT_MAX_BODY_BYTES,
            reject_status: 401,
            strip_header: true,
        }
    }
}

/// A dialect with its header.
#[derive(Debug)]
pub struct ResolvedDialect {
    pub header_name: String,
    pub kind: DialectKind,
    /// Whether the GitHub signature is the older one, with SHA1.
    pub github_legacy_sha1: bool,
}

/// Why a configuration is refused.
#[derive(Debug)]
pub enum HmacVerifyError {
    /// The dialect has no default header.
    HeaderRequired,
    Secret(SecretError),
}

impl HmacVerifyError {
    pub open spec fn text(self) -> Seq<char> {
        match self {
            HmacVerifyError::HeaderRequired => "hmac_verify: 'header' is required for raw_hex/raw_base64 dialects"@,
            HmacVerifyError::Secret(err) => err.text("hmac_verify"@),
        }
    }

    /// The message of this error.
    pub fn message(&self) -> (r: String)
        ensures
            r@ == self.text(),
    {
        match self {
            HmacVerifyError::HeaderRequired => "hmac_verify: 'header' is required for raw_hex/raw_base64 dialects".to_owned(),
            HmacVerifyError::Secret(err) => err.message("hmac_verify"),
        }
    }
}

/// Why a signature is not accepted.
#[derive(Clone, Copy, Debug, PartialEq, Eq, Structural)]
pub enum SignatureError {
    /// There is none, or it is empty.
    Missing,
    /// It cannot be read, or is not the one of the body.
    Malformed,
}

/// A dialect as mathematical data: header, kind, and whether SHA1 is used.
pub open spec fn dialect_of(dialect: DialectKind, header: Option<Seq<char>>) -> Option<
    (Seq<char>, DialectKind, bool),
> {
    match dialect {
        DialectKind::Github => {
            let name = match header {
                Some(h) => h,
                None => "X-Hub-Signature-256"@,
            };
            Some((name, dialect, lower(name) == lower("X-Hub-Signature"@)))
        },
        DialectKind::RawHex | DialectKind::RawBase64 => match header {
            Some(h) => Some((h, dialect, false)),
            None => None,
        },
    }
}

impl ResolvedDialect {
    pub open spec fn model(self) -> (Seq<char>, DialectKind, bool) {
        (self.header_name@, self.kind, self.github_legacy_sha1)
    }
}

/// The dialect of a configuration with its header.
pub fn resolve_dialect(cfg: &HmacVerifyConfig) -> (r: Result<ResolvedDialect, HmacVerifyError>)
    ensures
        match dialect_of(cfg.dialect, opt_text(cfg.header)) {
            Some(d) => r is Ok && r->Ok_0.model() == d,
            None => r == Err::<ResolvedDialect, HmacVerifyError>(HmacVerifyError::HeaderRequired),
        },
{
    match cfg.dialect {
        DialectKind::Github => {
            let header: String = match &cfg.header {
                Some(h) => h.clone(),
                None => "X-Hub-Signature-256".to_owned(),
            };
            let legacy = same_ignoring_case(header.as_str(), "X-Hub-Signature");
            Ok(
                ResolvedDialect {
                    header_name: header,
                    kind: cfg.dialect,
                    github_legacy_sha1: legacy,
                },
            )
        },
        DialectKind::RawHex | DialectKind::RawBase64 => match &cfg.header {
            Some(h) => Ok(
                ResolvedDialect {
                    header_name: h.clone(),
                    kind: cfg.dialect,
                    github_legacy_sha1: false,
                },
            ),
            None => Err(HmacVerifyError::HeaderRequired),
        },
    }
}

/// The bytes that a text of at least one hexadecimal digit pair writes.
pub open spec fn digest_bytes(text: Seq<char>) -> Option<Seq<u8>> {
    if text.len() == 0 {
        None
    } else {
        hex_decoded(text)
    }
}

/// The digest that a header gives, where base64 decoding gives `decoded`.
pub open spec fn provided_digest(
    kind: DialectKind,
    legacy: bool,
    header: Seq<char>,
    decoded: Option<Seq<u8>>,
) -> Option<Seq<u8>> {
    match kind {
        DialectKind::Github => match stripped(
            header,
            if legacy {
                "sha1="@
            } else {
                "sha256="@
            },
        ) {
            Some(digest) => digest_bytes(digest),
            None => None,
        },
        DialectKind::RawHex => digest_bytes(header),
        DialectKind::RawBase64 => decoded,
    }
}

/// Whether a header is the signature of a body whose digest is `expected`.
pub open spec fn signature_verdict(
    kind: DialectKind,
    legacy: bool,
    header: Option<Seq<char>>,
    decoded: Option<Seq<u8>>,
    expected: Seq<u8>,
) -> Result<(), SignatureError> {
    match header {
        Some(text) if text.len() > 0 => if provided_digest(kind, legacy, text, decoded) == Some(
            expected,
        ) {
            Ok(())
        } else {
            Err(SignatureError::Malformed)
        },
        _ => Err(SignatureError::Missing),
    }
}

/// The digest that a body has to be signed with.
pub open spec fn body_digest(legacy: bool, secret: Seq<u8>, body: Seq<u8>) -> Seq<u8> {
    if legacy {
        hmac_sha1_of(secret, body)
    } else {
        hmac_sha256_of(secret, body)
    }
}

/// What a header decodes to as base64, if there is one.
pub open spec fn header_decoded(header: Option<Seq<char>>) -> Option<Seq<u8>> {
    match header {
        Some(text) => base64_decoded(text),
        None => None,
    }
}

/// Whether a request whose header and body these are is signed with the secret.
pub open spec fn body_verdict(
    kind: DialectKind,
    legacy: bool,
    header: Option<Seq<char>>,
    body: Seq<u8>,
    secret: Seq<u8>,
) -> Result<(), SignatureError> {
    signature_verdict(
        kind,
        legacy,
        header,
        header_decoded(header),
        body_digest(legacy, secret, body),
    )
}

fn parse_github_signature(value: &str, legacy_sha1: bool) -> (r: Option<Vec<u8>>)
    ensures
        match r {
            Some(bytes) => provided_digest(DialectKind::Github, legacy_sha1, value@, None) == Some(
                bytes@,
            ),
            None => provided_digest(DialectKind::Github, legacy_sha1, value@, None) is None,
        },
{
    let prefix: &str = if legacy_sha1 {
        "sha1="
    } else {
        "sha256="
    };
    match strip_prefix(value, prefix) {
        Some(digest) => decode_hex(digest.as_str()),
        None => None,
    }
}

/// Compare a signature header with the digest of the body. `decoded` is what the
/// header decodes to as base64.
pub fn check_signature(
    dialect: &ResolvedDialect,
    header_value: Option<&str>,
    decoded: Option<Vec<u8>>,
    expected: &[u8],
) -> (r: Result<(), SignatureError>)
    ensures
        r == signature_verdict(
            dialect.kind,
            dialect.github_legacy_sha1,
            opt_view(header_value),
            match decoded {
                Some(bytes) => Some(bytes@),
                None => None,
            },
            expected@,
        ),
{
    let header: &str = match header_value {
        Some(h) => h,
        None => {
            return Err(SignatureError::Missing);
        },
    };
    if header.is_empty() {
        return Err(SignatureError::Missing);
    }
    let provided: Option<Vec<u8>> = match dialect.kind {
        DialectKind::Github => parse_github_signature(header, dialect.github_legacy_sha1),
        DialectKind::RawHex => decode_hex(header),
        DialectKind::RawBase64 => decoded,
    };
    match provided {
        Some(bytes) => {
            if bytes.len() != expected.len() || !constant_time_eq(bytes.as_slice(), expected) {
                return Err(SignatureError::Malformed);
            }
            Ok(())
        },
        None => Err(SignatureError::Malformed),
    }
}

/// Verify the signature of a body.
pub fn verify_body_signature(
    dialect: &ResolvedDialect,
    header_value: Option<&str>,
    body: &[u8],
    secret: &[u8],
) -> (r: Result<(), SignatureError>)
    ensures
        r == body_verdict(
            dialect.kind,
            dialect.github_legacy_sha1,
            opt_view(header_value),
            body@,
            secret@,
        ),
{
    let decoded: Option<Vec<u8>> = match header_value {
        Some(h) => decode_base64(h),
        None => None,
    };
    if dialect.github_legacy_sha1 {
        let digest = hmac_sha1(secret, body);
        check_signature(dialect, header_value, decoded, digest.as_slice())
    } else {
        let digest = hmac_sha256(secret, body);
        check_signature(dialect, header_value, decoded, digest.as_slice())
    }
}

/// Verifies the HMAC signature of request bodies.
pub struct HmacVerifyFilter {
    pub cfg: HmacVerifyConfig,
    pub secret: Vec<u8>,
    pub dialect: ResolvedDialect,
}

/// What the body of a request is, where none has arrived.
pub open spec fn body_bytes(body: Option<Vec<u8>>) -> Seq<u8> {
    match body {
        Some(bytes) => bytes@,
        None => Seq::empty(),
    }
}

impl HmacVerifyFilter {
    /// Create the filter from its configuration.
    pub fn from_config(cfg: HmacVerifyConfig, env: &Environment) -> (r: Result<Self, HmacVerifyError>)
        ensures
            match dialect_of(cfg.dialect, opt_text(cfg.header)) {
                None => r == Err::<Self, HmacVerifyError>(HmacVerifyError::HeaderRequired),
                Some(d) => match secret_of(cfg.secret, *env) {
                    Ok(secret) => {
                        &&& r is Ok
                        &&& r->Ok_0.cfg == cfg
                        &&& r->Ok_0.secret@ == secret
                        &&& r->Ok_0.dialect.model() == d
                    },
                    Err(failure) => r matches Err(HmacVerifyError::Secret(err)) && err.model()
                        == failure,
                },
            },
    {
        let dialect = resolve_dialect(&cfg)?;
        match resolve_secret(&cfg.secret, env) {
            Ok(secret) => Ok(HmacVerifyFilter { cfg, secret, dialect }),
            Err(err) => Err(HmacVerifyError::Secret(err)),
        }
    }

    /// The filter's name.
    pub fn name(&self) -> (r: &'static str)
        ensures
            r@ == "hmac_verify"@,
    {
        "hmac_verify"
    }

    /// The filter reads request bodies.
    pub fn request_body_access(&self) -> (r: BodyAccess)
        ensures
            r == BodyAccess::ReadOnly,
    {
        BodyAccess::ReadOnly
    }

    /// The filter needs the whole body.
    pub fn request_body_mode(&self) -> (r: BodyMode)
        ensures
            r == (BodyMode::StreamBuffer { max_bytes: Some(self.cfg.max_body_bytes) }),
    {
        BodyMode::StreamBuffer { max_bytes: Some(self.cfg.max_body_bytes) }
    }

    /// The filter needs the request while it sees the body.
    pub fn needs_request_context(&self) -> (r: bool)
        ensures
            r,
    {
        true
    }

    /// Nothing is decided before the body is there.
    pub fn on_request(&self, ctx: &mut HttpFilterContext<'_>) -> (r: FilterAction)
        ensures
            r.model() == Action::Continue,
            *final(ctx) == *old(ctx),
    {
        FilterAction::Continue
    }

    /// At the end of the body, go on where it is signed, and reject where it is
    /// not. The signature header of an accepted request is removed if the
    /// configuration says so.
    pub fn on_request_body(
        &self,
        ctx: &mut HttpFilterContext<'_>,
        body: &Option<Vec<u8>>,
        end_of_stream: bool,
    ) -> (r: FilterAction)
        ensures
            ({
                let header = text_at(old(ctx).request.lines(), self.dialect.header_name@);
                let verdict = body_verdict(
                    self.dialect.kind,
                    self.dialect.github_legacy_sha1,
                    header,
                    body_bytes(*body),
                    self.secret@,
                );
                if !end_of_stream {
                    r.model() == Action::Continue && *final(ctx) == *old(ctx)
                } else if verdict is Err {
                    r.model() == rejects(self.cfg.reject_status) && *final(ctx) == *old(ctx)
                } else if self.cfg.strip_header {
                    &&& r.model() == Action::Continue
                    &&& removes_header(*old(ctx), *final(ctx), self.dialect.header_name)
                } else {
                    r.model() == Action::Continue && *final(ctx) == *old(ctx)
                }
            }),
    {
        if !end_of_stream {
            return FilterAction::Continue;
        }
        let header: Option<String> = header_text(
            &ctx.request.headers,
            self.dialect.header_name.as_str(),
        );
        let header_value: Option<&str> = match &header {
            Some(h) => Some(h.as_str()),
            None => None,
        };
        let empty: Vec<u8> = Vec::new();
        assert(empty@ =~= Seq::<u8>::empty());
        let chunk: &[u8] = match body {
            Some(bytes) => bytes.as_slice(),
            None => empty.as_slice(),
        };
        match verify_body_signature(&self.dialect, header_value, chunk, self.secret.as_slice()) {
            Ok(()) => {
                if self.cfg.strip_header {
                    let cleared = String::new();
                    assert(cleared@ =~= Seq::<char>::empty());
                    ctx.extra_request_headers.push((self.dialect.header_name.clone(), cleared));
                    assert(ctx.extra_request_headers@.drop_last()
                        =~= old(ctx).extra_request_headers@);
                }
                FilterAction::Continue
            },
            Err(_) => reject(self.cfg.reject_status),
        }
    }
}

/// Whether the one change of a request is that a header is removed upstream.
pub open spec fn removes_header(
    before: HttpFilterContext<'_>,
    after: HttpFilterContext<'_>,
    name: String,
) -> bool {
    &&& after.extra_request_headers@.len() == before.extra_request_headers@.len() + 1
    &&& after.extra_request_headers@.drop_last() == before.extra_request_headers@
    &&& after.extra_request_headers@.last().0 == name
    &&& after.extra_request_headers@.last().1@ == Seq::<char>::empty()
    &&& after == (HttpFilterContext {
        extra_request_headers: after.extra_request_headers,
        ..before
    })
}

/// The GitHub signature of a body. It is accepted.
pub fn github_signature(secret: &[u8], body: &[u8]) -> (r: String)
    ensures
        r@ == "sha256="@ + hex_encoded(hmac_sha256_of(secret@, body@)),
        body_verdict(DialectKind::Github, false, Some(r@), body@, secret@) is Ok,
{
    let digest = hmac_sha256(secret, body);
    let text = encode_hex_lower(digest.as_slice());
    let r = concat("sha256=", text.as_str());
    proof {
        law_digest_accepted(digest@, header_decoded(Some(r@)));
    }
    r
}

/// The header that writes a digest is accepted for it.
pub proof fn law_digest_accepted(digest: Seq<u8>, decoded: Option<Seq<u8>>)
    requires
        digest.len() > 0,
    ensures
        signature_verdict(
            DialectKind::Github,
            false,
            Some("sha256="@ + hex_encoded(digest)),
            decoded,
            digest,
        ) is Ok,
        signature_verdict(
            DialectKind::Github,
            true,
            Some("sha1="@ + hex_encoded(digest)),
            decoded,
            digest,
        ) is Ok,
        signature_verdict(DialectKind::RawHex, false, Some(hex_encoded(digest)), decoded, digest) is Ok,
{
    let hex = hex_encoded(digest);
    law_hex_round_trip(digest);
    let a = "sha256="@ + hex;
    assert(a.skip("sha256="@.len() as int) =~= hex);
    assert("sha256="@.is_prefix_of(a));
    let b = "sha1="@ + hex;
    assert(b.skip("sha1="@.len() as int) =~= hex);
    assert("sha1="@.is_prefix_of(b));
}

/// An accepted request carries the digest of its body, and of no other.
pub proof fn law_accepted_digest(
    kind: DialectKind,
    legacy: bool,
    header: Option<Seq<char>>,
    body: Seq<u8>,
    secret: Seq<u8>,
)
    requires
        body_verdict(kind, legacy, header, body, secret) is Ok,
    ensures
        header matches Some(text) && provided_digest(kind, legacy, text, base64_decoded(text))
            == Some(body_digest(legacy, secret, body)),
{
}

} // verus!
