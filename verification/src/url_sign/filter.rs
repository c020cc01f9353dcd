//! The URL signing filter.

use vstd::prelude::*;
use vstd::slice::slice_to_vec;
use vstd::utf8::encode_utf8;

use crate::action::{reject, rejects, Action, FilterAction};
use crate::environment::Environment;
use crate::number::{parse_number, parsed};
use crate::request::{HttpFilterContext, Request};
use crate::text::{bytes_of_text, concat3, opt_text, opt_view, same_text, starts_with};
use crate::url_sign::canonical::{build_canonical_input, canonical_path, canonical_text, signed_path, CanonicalInputs};
use crate::url_sign::config::{CanonicalConfig, Encoding, ExpiresConfig, KeyedSecretConfig, Placement, UrlSignConfig};
use crate::url_sign::extract::{extract_from_request, is_expires, is_valid_expires, request_extract, Extracted, ExtractedSignature};
use crate::url_sign::verify::{bytes_view, compute_mac, signature_bytes, signatures_match, text_mac};

verus! {

/// Status for requests that are not accepted.
pub const FORBIDDEN: u16 = 403;

/// Why a configuration is refused.
#[derive(Debug)]
pub enum UrlSignError {
    /// There is not exactly one of a secret and a list of secrets.
    SecretChoice,
    /// Path placement needs a prefix.
    PathPrefixRequired,
    /// The prefix does not start with a slash.
    PathPrefixSlash,
    /// The environment variable of a secret cannot be read.
    NotSet { var: String, label: String, reason: String },
    /// A secret is given in both ways.
    Both { label: String },
    /// A secret is given in neither way.
    Neither { label: String },
    /// A secret is empty.
    EmptySecret { label: String },
}

/// An error as mathematical data.
pub enum UrlSignFailure {
    SecretChoice,
    PathPrefixRequired,
    PathPrefixSlash,
    NotSet(Seq<char>, Seq<char>, Seq<char>),
    Both(Seq<char>),
    Neither(Seq<char>),
    EmptySecret(Seq<char>),
}

impl UrlSignError {
    pub open spec fn model(self) -> UrlSignFailure {
        match self {
            UrlSignError::SecretChoice => UrlSignFailure::SecretChoice,
            UrlSignError::PathPrefixRequired => UrlSignFailure::PathPrefixRequired,
            UrlSignError::PathPrefixSlash => UrlSignFailure::PathPrefixSlash,
            UrlSignError::NotSet { var, label, reason } => UrlSignFailure::NotSet(
                var@,
                label@,
                reason@,
            ),
            UrlSignError::Both { label } => UrlSignFailure::Both(label@),
            UrlSignError::Neither { label } => UrlSignFailure::Neither(label@),
            UrlSignError::EmptySecret { label } => UrlSignFailure::EmptySecret(label@),
        }
    }

    pub open spec fn text(self) -> Seq<char> {
        match self {
            UrlSignError::SecretChoice => "url_sign: configure exactly one of 'secret' or non-empty 'secrets'"@,
            UrlSignError::PathPrefixRequired => "url_sign: 'path_prefix' is required when placement is 'path'"@,
            UrlSignError::PathPrefixSlash => "url_sign: 'path_prefix' must start with '/'"@,
            UrlSignError::NotSet { var, label, reason } => "url_sign: environment variable '"@ + var@
                + "' not set for "@ + label@ + ": "@ + reason@,
            UrlSignError::Both { label } => "url_sign: "@ + label@
                + " has both 'value' and 'env_var' (use exactly one)"@,
            UrlSignError::Neither { label } => "url_sign: "@ + label@
                + " must have either 'value' or 'env_var'"@,
            UrlSignError::EmptySecret { label } => "url_sign: "@ + label@ + " secret must not be empty"@,
        }
    }

    /// The message of this error.
    pub fn message(&self) -> (r: String)
        ensures
            r@ == self.text(),
    {
        match self {
            UrlSignError::SecretChoice => "url_sign: configure exactly one of 'secret' or non-empty 'secrets'".to_owned(),
            UrlSignError::PathPrefixRequired => "url_sign: 'path_prefix' is required when placement is 'path'".to_owned(),
            UrlSignError::PathPrefixSlash => "url_sign: 'path_prefix' must start with '/'".to_owned(),
            UrlSignError::NotSet { var, label, reason } => {
                let mut out = concat3("url_sign: environment variable '", var.as_str(), "' not set for ");
                out.append(label.as_str());
                out.append(": ");
                out.append(reason.as_str());
                out
            },
            UrlSignError::Both { label } => concat3(
                "url_sign: ",
                label.as_str(),
                " has both 'value' and 'env_var' (use exactly one)",
            ),
            UrlSignError::Neither { label } => concat3(
                "url_sign: ",
                label.as_str(),
                " must have either 'value' or 'env_var'",
            ),
            UrlSignError::EmptySecret { label } => concat3(
                "url_sign: ",
                label.as_str(),
                " secret must not be empty",
            ),
        }
    }
}

/// What is wrong with a configuration, secrets apart.
pub open spec fn config_failure(cfg: UrlSignConfig) -> Option<UrlSignFailure> {
    let single = cfg.secret is Some;
    let several = cfg.secrets matches Some(list) && list@.len() > 0;
    if single == several {
        Some(UrlSignFailure::SecretChoice)
    } else if cfg.placement == Placement::Path {
        match cfg.path_prefix {
            None => Some(UrlSignFailure::PathPrefixRequired),
            Some(prefix) => if "/"@.is_prefix_of(prefix@) {
                None
            } else {
                Some(UrlSignFailure::PathPrefixSlash)
            },
        }
    } else {
        None
    }
}

/// The secret that a source gives.
pub open spec fn source_secret(
    value: Option<String>,
    env_var: Option<String>,
    label: Seq<char>,
    env: Environment,
) -> Result<Seq<u8>, UrlSignFailure> {
    let raw: Result<Seq<char>, UrlSignFailure> = match (value, env_var) {
        (Some(v), None) => Ok(v@),
        (None, Some(var)) => match env.value(var@) {
            Ok(v) => Ok(v),
            Err(reason) => Err(UrlSignFailure::NotSet(var@, label, reason)),
        },
        (Some(_), Some(_)) => Err(UrlSignFailure::Both(label)),
        (None, None) => Err(UrlSignFailure::Neither(label)),
    };
    match raw {
        Ok(v) => if v.len() == 0 {
            Err(UrlSignFailure::EmptySecret(label))
        } else {
            Ok(encode_utf8(v))
        },
        Err(e) => Err(e),
    }
}

pub open spec fn key_label(id: Seq<char>) -> Seq<char> {
    "secrets[].id='"@ + id + "'"@
}

pub open spec fn keyed_secret(entry: KeyedSecretConfig, env: Environment) -> Result<
    Seq<u8>,
    UrlSignFailure,
> {
    source_secret(entry.value, entry.env_var, key_label(entry.id@), env)
}

/// The first secret of a list, from `i` on, that cannot be had.
pub open spec fn keyed_failure(list: Seq<KeyedSecretConfig>, env: Environment, i: int) -> Option<
    UrlSignFailure,
>
    decreases list.len() - i,
{
    if !(0 <= i < list.len()) {
        None
    } else {
        match keyed_secret(list[i], env) {
            Err(e) => Some(e),
            Ok(_) => keyed_failure(list, env, i + 1),
        }
    }
}

/// The secrets by key id of the first `n` entries: a later entry replaces an
/// earlier one.
pub open spec fn keyed_secrets(list: Seq<KeyedSecretConfig>, env: Environment, n: int) -> Map<
    Seq<char>,
    Seq<u8>,
>
    decreases n,
{
    if n <= 0 {
        Map::empty()
    } else {
        keyed_secrets(list, env, n - 1).insert(list[n - 1].id@, keyed_secret(list[n - 1], env)->Ok_0)
    }
}

/// Why the secrets of a configuration cannot be had.
pub open spec fn secrets_failure(cfg: UrlSignConfig, env: Environment) -> Option<UrlSignFailure> {
    match (cfg.secret, cfg.secrets) {
        (Some(source), _) => match source_secret(source.value, source.env_var, "secret"@, env) {
            Err(e) => Some(e),
            Ok(_) => None,
        },
        (None, Some(list)) => keyed_failure(list@, env, 0),
        (None, None) => None,
    }
}

/// The signing secrets.
pub struct ResolvedSecretStore {
    default_key: Option<Vec<u8>>,
    keyed: Vec<(String, Vec<u8>)>,
}

spec fn key_map(keyed: Seq<(String, Vec<u8>)>, n: int) -> Map<Seq<char>, Seq<u8>>
    decreases n,
{
    if n <= 0 {
        Map::empty()
    } else {
        key_map(keyed, n - 1).insert(keyed[n - 1].0@, keyed[n - 1].1@)
    }
}

proof fn lemma_key_map_push(keyed: Seq<(String, Vec<u8>)>, more: (String, Vec<u8>), n: int)
    requires
        0 <= n <= keyed.len(),
    ensures
        key_map(keyed.push(more), n) == key_map(keyed, n),
    decreases n,
{
    if n > 0 {
        lemma_key_map_push(keyed, more, n - 1);
    }
}

impl ResolvedSecretStore {
    /// The secret of requests without a key id.
    pub closed spec fn default_secret(self) -> Option<Seq<u8>> {
        bytes_view(self.default_key)
    }

    /// The secrets by key id.
    pub closed spec fn by_id(self) -> Map<Seq<char>, Seq<u8>> {
        key_map(self.keyed@, self.keyed@.len() as int)
    }

    /// The secret for a key id.
    pub open spec fn secret_for(self, key_id: Option<Seq<char>>) -> Option<Seq<u8>> {
        match key_id {
            Some(id) => if self.by_id().contains_key(id) {
                Some(self.by_id()[id])
            } else {
                None
            },
            None => self.default_secret(),
        }
    }

    /// The secret for a key id.
    pub fn resolve_key(&self, key_id: Option<&str>) -> (r: Option<Vec<u8>>)
        ensures
            bytes_view(r) == self.secret_for(opt_view(key_id)),
    {
        match key_id {
            None => match &self.default_key {
                Some(key) => Some(slice_to_vec(key.as_slice())),
                None => None,
            },
            Some(id) => {
                let mut n: usize = self.keyed.len();
                while n > 0
                    invariant
                        n <= self.keyed@.len(),
                        opt_view(key_id) == Some(id@),
                        self.by_id().contains_key(id@) == key_map(
                            self.keyed@,
                            n as int,
                        ).contains_key(id@),
                        self.by_id().contains_key(id@) ==> self.by_id()[id@] == key_map(
                            self.keyed@,
                            n as int,
                        )[id@],
                    decreases n,
                {
                    if same_text(self.keyed[n - 1].0.as_str(), id) {
                        return Some(slice_to_vec(self.keyed[n - 1].1.as_slice()));
                    }
                    n = n - 1;
                }
                None
            },
        }
    }
}

fn resolve_secret_source(
    value: &Option<String>,
    env_var: &Option<String>,
    label: &str,
    env: &Environment,
) -> (r: Result<Vec<u8>, UrlSignError>)
    ensures
        match source_secret(*value, *env_var, label@, *env) {
            Ok(secret) => r is Ok && r->Ok_0@ == secret,
            Err(failure) => r is Err && r->Err_0.model() == failure,
        },
{
    let raw: String = match (value, env_var) {
        (Some(v), None) => v.clone(),
        (None, Some(var)) => match env.var(var.as_str()) {
            Ok(v) => v,
            Err(reason) => {
                return Err(
                    UrlSignError::NotSet { var: var.clone(), label: label.to_owned(), reason },
                );
            },
        },
        (Some(_), Some(_)) => {
            return Err(UrlSignError::Both { label: label.to_owned() });
        },
        (None, None) => {
            return Err(UrlSignError::Neither { label: label.to_owned() });
        },
    };
    if raw.as_str().is_empty() {
        return Err(UrlSignError::EmptySecret { label: label.to_owned() });
    }
    Ok(bytes_of_text(raw.as_str()))
}

fn resolve_secrets(cfg: &UrlSignConfig, env: &Environment) -> (r: Result<
    ResolvedSecretStore,
    UrlSignError,
>)
    ensures
        match secrets_failure(*cfg, *env) {
            Some(failure) => r is Err && r->Err_0.model() == failure,
            None => r is Ok && stores(r->Ok_0, *cfg, *env),
        },
{
    if let Some(source) = &cfg.secret {
        let bytes = resolve_secret_source(&source.value, &source.env_var, "secret", env)?;
        let store = ResolvedSecretStore { default_key: Some(bytes), keyed: Vec::new() };
        assert(store.by_id() =~= Map::<Seq<char>, Seq<u8>>::empty());
        return Ok(store);
    }
    let mut keyed: Vec<(String, Vec<u8>)> = Vec::new();
    if let Some(list) = &cfg.secrets {
        let mut i: usize = 0;
        while i < list.len()
            invariant
                i <= list@.len(),
                cfg.secret is None,
                cfg.secrets == Some(*list),
                keyed@.len() == i,
                keyed_failure(list@, *env, 0) == keyed_failure(list@, *env, i as int),
                key_map(keyed@, i as int) == keyed_secrets(list@, *env, i as int),
            decreases list@.len() - i,
        {
            let entry = &list[i];
            let label = concat3("secrets[].id='", entry.id.as_str(), "'");
            let bytes = resolve_secret_source(&entry.value, &entry.env_var, label.as_str(), env)?;
            proof {
                lemma_key_map_push(keyed@, (entry.id, bytes), i as int);
            }
            keyed.push((entry.id.clone(), bytes));
            i = i + 1;
        }
    }
    let store = ResolvedSecretStore { default_key: None, keyed };
    assert(store.by_id() == key_map(keyed@, keyed@.len() as int));
    Ok(store)
}

/// Whether a store holds the secrets of a configuration.
pub open spec fn stores(store: ResolvedSecretStore, cfg: UrlSignConfig, env: Environment) -> bool {
    match (cfg.secret, cfg.secrets) {
        (Some(source), _) => {
            &&& store.default_secret() == Some(
                source_secret(source.value, source.env_var, "secret"@, env)->Ok_0,
            )
            &&& store.by_id() == Map::<Seq<char>, Seq<u8>>::empty()
        },
        (None, Some(list)) => {
            &&& store.default_secret() is None
            &&& store.by_id() == keyed_secrets(list@, env, list@.len() as int)
        },
        (None, None) => {
            &&& store.default_secret() is None
            &&& store.by_id() == Map::<Seq<char>, Seq<u8>>::empty()
        },
    }
}

fn validate_config(cfg: &UrlSignConfig) -> (r: Result<(), UrlSignError>)
    ensures
        match config_failure(*cfg) {
            Some(failure) => r is Err && r->Err_0.model() == failure,
            None => r is Ok,
        },
{
    let has_single = cfg.secret.is_some();
    let has_multi = match &cfg.secrets {
        Some(list) => list.len() > 0,
        None => false,
    };
    if has_single == has_multi {
        return Err(UrlSignError::SecretChoice);
    }
    if cfg.placement == Placement::Path {
        match &cfg.path_prefix {
            None => {
                return Err(UrlSignError::PathPrefixRequired);
            },
            Some(prefix) => {
                if !starts_with(prefix.as_str(), "/") {
                    return Err(UrlSignError::PathPrefixSlash);
                }
            },
        }
    }
    Ok(())
}

/// Whether an expiry is still to come at the time `now`, give or take the skew.
pub open spec fn is_current(expires: Seq<char>, skew: u64, now: u64) -> bool {
    parsed(expires, u64::MAX as nat) matches Some(n) && n + skew >= now
}

/// Whether an expiry is still to come at the time `now`, give or take the skew.
pub fn check_expiry(expires: &str, clock_skew_secs: u64, now: u64) -> (r: bool)
    ensures
        r == is_current(expires@, clock_skew_secs, now),
{
    match parse_number(expires, u64::MAX) {
        Some(n) => n.saturating_add(clock_skew_secs) >= now,
        None => false,
    }
}

/// Validates signed URLs. Whatever is not accepted is rejected with 403.
pub struct UrlSignFilter {
    pub secrets: ResolvedSecretStore,
    pub placement: Placement,
    pub signature_param: String,
    pub expires_param: String,
    pub key_id_param: Option<String>,
    pub path_prefix: Option<String>,
    pub expires: ExpiresConfig,
    pub encoding: Encoding,
    pub strip_signature: bool,
    pub canonical: CanonicalConfig,
}

/// A text, or the empty one where there is none.
pub open spec fn or_empty(text: Option<Seq<char>>) -> Seq<char> {
    match text {
        Some(t) => t,
        None => Seq::empty(),
    }
}

impl UrlSignFilter {
    /// Whether the filter is that of a configuration.
    pub open spec fn configured(self, cfg: UrlSignConfig, env: Environment) -> bool {
        &&& stores(self.secrets, cfg, env)
        &&& self.placement == cfg.placement
        &&& self.signature_param == cfg.signature_param
        &&& self.expires_param == cfg.expires_param
        &&& self.key_id_param == cfg.key_id_param
        &&& self.path_prefix == cfg.path_prefix
        &&& self.expires == cfg.expires
        &&& self.encoding == cfg.encoding
        &&& self.strip_signature == cfg.strip_signature
        &&& self.canonical == cfg.canonical
    }

    /// Create the filter from its configuration.
    pub fn from_config(cfg: UrlSignConfig, env: &Environment) -> (r: Result<Self, UrlSignError>)
        ensures
            match config_failure(cfg) {
                Some(failure) => r is Err && r->Err_0.model() == failure,
                None => match secrets_failure(cfg, *env) {
                    Some(failure) => r is Err && r->Err_0.model() == failure,
                    None => r is Ok && r->Ok_0.configured(cfg, *env),
                },
            },
    {
        validate_config(&cfg)?;
        let secrets = resolve_secrets(&cfg, env)?;
        Ok(
            UrlSignFilter {
                secrets,
                placement: cfg.placement,
                signature_param: cfg.signature_param,
                expires_param: cfg.expires_param,
                key_id_param: cfg.key_id_param,
                path_prefix: cfg.path_prefix,
                expires: cfg.expires,
                encoding: cfg.encoding,
                strip_signature: cfg.strip_signature,
                canonical: cfg.canonical,
            },
        )
    }

    /// The filter's name.
    pub fn name(&self) -> (r: &'static str)
        ensures
            r@ == "url_sign"@,
    {
        "url_sign"
    }

    /// What is taken from a request.
    pub open spec fn extracted(self, request: Request) -> Option<Extracted> {
        request_extract(
            request.uri,
            self.placement,
            opt_text(self.path_prefix),
            self.signature_param@,
            self.expires_param@,
            opt_text(self.key_id_param),
            self.encoding,
        )
    }

    /// The text that has to be signed, if the path is acceptable.
    pub open spec fn canonical_of(self, request: Request, x: Extracted) -> Option<Seq<char>> {
        canonical_text(
            self.canonical,
            self.placement,
            self.signature_param@,
            self.expires_param@,
            opt_text(self.key_id_param),
            request.method@,
            request.uri,
            request.lines(),
            or_empty(x.expires),
            x.resource,
        )
    }

    /// Whether the expiry that is taken from a request is in order.
    pub open spec fn expiry_fits(self, x: Extracted, now: u64) -> bool {
        let expires = or_empty(x.expires);
        &&& self.expires.required ==> is_expires(expires)
        &&& expires.len() > 0 ==> is_current(expires, self.expires.clock_skew_secs, now)
    }

    /// Whether what is taken from a request is signed.
    pub open spec fn verifies(self, request: Request, x: Extracted, now: u64) -> bool {
        &&& self.expiry_fits(x, now)
        &&& self.secrets.secret_for(x.key_id) is Some
        &&& self.canonical_of(request, x) is Some
        &&& signature_bytes(x.signature, self.encoding) == Some(
            text_mac(self.secrets.secret_for(x.key_id)->0, self.canonical_of(request, x)->0),
        )
    }

    /// Whether a request is accepted at the time `now`.
    pub open spec fn accepts(self, request: Request, now: u64) -> bool {
        self.extracted(request) matches Some(x) && self.verifies(request, x, now)
    }

    /// The path that an accepted request goes on with, where it is changed: the
    /// decoded one, without expiry and signature.
    pub open spec fn next_path(self, request: Request) -> Option<Seq<char>> {
        if self.placement == Placement::Query || self.strip_signature {
            signed_path(self.placement, request.uri.path@, self.extracted(request)->0.resource)
        } else {
            None
        }
    }

    /// Whether what is taken from a request is signed.
    pub fn verify_request(&self, request: &Request, extracted: &ExtractedSignature, now: u64) -> (r: bool)
        ensures
            r == self.verifies(*request, extracted@, now),
    {
        let empty = String::new();
        assert(empty@ =~= Seq::<char>::empty());
        let expires: &str = match &extracted.expires {
            Some(e) => e.as_str(),
            None => empty.as_str(),
        };
        if self.expires.required && !is_valid_expires(expires) {
            return false;
        }
        if !expires.is_empty() && !check_expiry(expires, self.expires.clock_skew_secs, now) {
            return false;
        }
        let key_id: Option<&str> = match &extracted.key_id {
            Some(k) => Some(k.as_str()),
            None => None,
        };
        let key: Vec<u8> = match self.secrets.resolve_key(key_id) {
            Some(k) => k,
            None => {
                return false;
            },
        };
        let key_id_param: Option<&str> = match &self.key_id_param {
            Some(k) => Some(k.as_str()),
            None => None,
        };
        let resource: Option<&str> = match &extracted.resource_path_raw {
            Some(p) => Some(p.as_str()),
            None => None,
        };
        let inputs = CanonicalInputs {
            method: request.method.as_str(),
            uri: &request.uri,
            headers: &request.headers,
            placement: self.placement,
            canonical: &self.canonical,
            signature_param: self.signature_param.as_str(),
            expires_param: self.expires_param.as_str(),
            key_id_param,
            expires,
            resource_path_raw: resource,
        };
        let canonical: String = match build_canonical_input(&inputs) {
            Some(c) => c,
            None => {
                return false;
            },
        };
        assert(self.canonical_of(*request, extracted@) == Some(canonical@));
        let expected = compute_mac(key.as_slice(), canonical.as_str(), self.encoding);
        signatures_match(expected.as_str(), extracted.signature.as_str(), self.encoding)
    }

    /// Go on with a request that is signed, and reject any other.
    pub fn on_request(&self, ctx: &mut HttpFilterContext<'_>, now: u64) -> (r: FilterAction)
        ensures
            if self.accepts(*old(ctx).request, now) {
                &&& r.model() == Action::Continue
                &&& *final(ctx) == (HttpFilterContext {
                    rewritten_path: final(ctx).rewritten_path,
                    ..*old(ctx)
                })
                &&& match self.next_path(*old(ctx).request) {
                    Some(path) => opt_text(final(ctx).rewritten_path) == Some(path),
                    None => final(ctx).rewritten_path == old(ctx).rewritten_path,
                }
            } else {
                r.model() == rejects(FORBIDDEN) && *final(ctx) == *old(ctx)
            },
    {
        let path_prefix: Option<&str> = match &self.path_prefix {
            Some(p) => Some(p.as_str()),
            None => None,
        };
        let key_id_param: Option<&str> = match &self.key_id_param {
            Some(k) => Some(k.as_str()),
            None => None,
        };
        let extracted = match extract_from_request(
            &ctx.request.uri,
            self.placement,
            path_prefix,
            self.signature_param.as_str(),
            self.expires_param.as_str(),
            key_id_param,
            self.encoding,
        ) {
            Some(x) => x,
            None => {
                return reject(FORBIDDEN);
            },
        };
        assert(self.extracted(*ctx.request) == Some(extracted@));
        if !self.verify_request(ctx.request, &extracted, now) {
            return reject(FORBIDDEN);
        }
        if self.placement == Placement::Query || self.strip_signature {
            let resource: Option<&str> = match &extracted.resource_path_raw {
                Some(p) => Some(p.as_str()),
                None => None,
            };
            let inputs = CanonicalInputs {
                method: ctx.request.method.as_str(),
                uri: &ctx.request.uri,
                headers: &ctx.request.headers,
                placement: self.placement,
                canonical: &self.canonical,
                signature_param: self.signature_param.as_str(),
                expires_param: self.expires_param.as_str(),
                key_id_param,
                expires: "",
                resource_path_raw: resource,
            };
            match canonical_path(&inputs) {
                Some(clean) => {
                    ctx.rewritten_path = Some(clean);
                },
                None => {
                    return reject(FORBIDDEN);
                },
            }
        }
        FilterAction::Continue
    }
}

/// An accepted request carries the signature of its own text under the secret
/// of its key id, and its expiry is in order.
pub proof fn law_accepted_is_signed(filter: UrlSignFilter, request: Request, now: u64)
    requires
        filter.accepts(request, now),
    ensures
        filter.extracted(request) matches Some(x) && signature_bytes(x.signature, filter.encoding)
            == Some(
            text_mac(
                filter.secrets.secret_for(x.key_id)->0,
                filter.canonical_of(request, x)->0,
            ),
        ) && filter.expiry_fits(x, now),
{
}

/// A request that carries the signature of its own text under the secret of its
/// key id is accepted as long as its expiry is in order.
pub proof fn law_signed_is_accepted(filter: UrlSignFilter, request: Request, now: u64)
    requires
        filter.extracted(request) matches Some(x) && filter.secrets.secret_for(x.key_id) matches Some(key)
            && filter.canonical_of(request, x) matches Some(text) && signature_bytes(
            x.signature,
            filter.encoding,
        ) == Some(text_mac(key, text)) && filter.expiry_fits(x, now),
    ensures
        filter.accepts(request, now),
{
}

/// Once a request is too old it stays so.
pub proof fn law_expired_stays_expired(expires: Seq<char>, skew: u64, now: u64, later: u64)
    requires
        !is_current(expires, skew, now),
        now <= later,
    ensures
        !is_current(expires, skew, later),
{
}

/// A request with a key id that is not configured is not accepted.
pub proof fn law_unknown_key_refused(filter: UrlSignFilter, request: Request, now: u64)
    requires
        filter.extracted(request) matches Some(x) && x.key_id matches Some(id)
            && !filter.secrets.by_id().contains_key(id),
    ensures
        !filter.accepts(request, now),
{
}

} // verus!
