//! Configuration of the URL signing filter.

use vstd::prelude::*;

verus! {

/// Configuration of the filter.
#[derive(Debug)]
pub struct UrlSignConfig {
    /// The one signing secret.
    pub secret: Option<SecretSourceConfig>,
    /// Signing secrets by key id, in place of the one.
    pub secrets: Option<Vec<KeyedSecretConfig>>,
    pub algorithm: Algorithm,
    /// Where signature and expiry stand.
    pub placement: Placement,
    /// Query parameter with the signature.
    pub signature_param: String,
    /// Query parameter with the expiry.
    pub expires_param: String,
    /// Query parameter with the key id.
    pub key_id_param: Option<String>,
    /// What precedes expiry and signature in the path.
    pub path_prefix: Option<String>,
    pub expires: ExpiresConfig,
    /// How signatures are written.
    pub encoding: Encoding,
    /// Whether expiry and signature are removed from the path after they are
    /// verified.
    pub strip_signature: bool,
    pub canonical: CanonicalConfig,
}

impl Default for UrlSignConfig {
    fn default() -> (r: Self)
        ensures
            r.secret is None,
            r.secrets is None,
            r.algorithm == Algorithm::HmacSha256,
            r.placement == Placement::Query,
            r.signature_param@ == "sig"@,
            r.expires_param@ == "expires"@,
            r.key_id_param is None,
            r.path_prefix is None,
            r.expires.required,
            r.expires.clock_skew_secs == 60,
            r.encoding == Encoding::Hex,
            r.strip_signature,
            r.canonical.include_method,
            !r.canonical.include_host,
            r.canonical.include_query,
    {
        UrlSignConfig {
            secret: None,
            secrets: None,
            algorithm: Algorithm::HmacSha256,
            placement: Placement::Query,
            signature_param: "sig".to_owned(),
            expires_param: "expires".to_owned(),
            key_id_param: None,
            path_prefix: None,
            expires: ExpiresConfig::default(),
            encoding: Encoding::Hex,
            strip_signature: true,
            canonical: CanonicalConfig::default(),
        }
    }
}

/// A secret, given itself or by an environment variable.
#[derive(Debug)]
pub struct SecretSourceConfig {
    pub value: Option<String>,
    pub env_var: Option<String>,
}

/// A secret with a key id.
#[derive(Debug)]
pub struct KeyedSecretConfig {
    pub id: String,
    pub value: Option<String>,
    pub env_var: Option<String>,
}

/// The signature algorithm.
#[derive(Clone, Copy, Debug, PartialEq, Eq, Structural)]
pub enum Algorithm {
    HmacSha256,
}

impl Default for Algorithm {
    fn default() -> (r: Self)
        ensures
            r == Algorithm::HmacSha256,
    {
        Algorithm::HmacSha256
    }
}

/// Where signature and expiry stand.
#[derive(Clone, Copy, Debug, PartialEq, Eq, Structural)]
pub enum Placement {
    Query,
    Path,
}

impl Default for Placement {
    fn default() -> (r: Self)
        ensures
            r == Placement::Query,
    {
        Placement::Query
    }
}

/// How signatures are written.
#[derive(Clone, Copy, Debug, PartialEq, Eq, Structural)]
pub enum Encoding {
    Hex,
    Base64Url,
}

impl Default for Encoding {
    fn default() -> (r: Self)
        ensures
            r == Encoding::Hex,
    {
        Encoding::Hex
    }
}

/// How the expiry is judged.
#[derive(Clone, Copy, Debug, PartialEq, Eq, Structural)]
pub struct ExpiresConfig {
    /// Whether it has to be there.
    pub required: bool,
    /// By how many seconds clocks may differ.
    pub clock_skew_secs: u64,
}

impl Default for ExpiresConfig {
    fn default() -> (r: Self)
        ensures
            r.required,
            r.clock_skew_secs == 60,
    {
        ExpiresConfig { required: true, clock_skew_secs: 60 }
    }
}

/// What the signed text is made of, besides path and expiry.
#[derive(Clone, Copy, Debug, PartialEq, Eq, Structural)]
pub struct CanonicalConfig {
    pub include_method: bool,
    pub include_host: bool,
    pub include_query: bool,
}

impl Default for CanonicalConfig {
    fn default() -> (r: Self)
        ensures
            r.include_method,
            !r.include_host,
            r.include_query,
    {
        CanonicalConfig { include_method: true, include_host: false, include_query: true }
    }
}

} // verus!
