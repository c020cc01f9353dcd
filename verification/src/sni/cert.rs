//! Certificate selection by TLS server name.

use vstd::prelude::*;

use crate::sni::matcher::{as_written, build_error, is_wildcard, looked_up, lowered, resolves, SniMatcher, SniMatcherError, WildcardMatch};
use crate::sni::name::SniNameError;
use crate::text::{concat3, copy_text, lower, lower_text, opt_view, same_text, views};

verus! {

/// A configured certificate.
#[derive(Debug)]
pub struct CertKeyPair {
    pub cert_path: String,
    pub key_path: String,
    /// The server names that this certificate is for.
    pub server_names: Vec<String>,
    /// Whether it serves connections that no server name matches.
    pub default: bool,
}

/// Why the certificates of a listener are refused.
#[derive(Debug)]
pub enum TlsError {
    /// Two entries have the same server name. `path` is the later one's.
    DuplicateServerName { path: String, name: String },
    /// A server name is not acceptable.
    InvalidServerName { pattern: String, source: SniNameError },
}

impl TlsError {
    pub open spec fn text(self) -> Seq<char> {
        match self {
            TlsError::DuplicateServerName { path, name } => "duplicate server_name '"@ + name@
                + "' in certificate '"@ + path@ + "'"@,
            TlsError::InvalidServerName { pattern, source } => "server_names '"@ + pattern@ + "': "@
                + source.text(),
        }
    }

    /// The message of this error.
    pub fn message(&self) -> (r: String)
        ensures
            r@ == self.text(),
    {
        match self {
            TlsError::DuplicateServerName { path, name } => {
                let mut out = concat3("duplicate server_name '", name.as_str(), "' in certificate '");
                out.append(path.as_str());
                out.append("'");
                out
            },
            TlsError::InvalidServerName { pattern, source } => {
                let mut out = concat3("server_names '", pattern.as_str(), "': ");
                out.append(source.message());
                out
            },
        }
    }
}

/// The server names of one certificate, each with the certificate's index.
pub open spec fn names_of(cert: CertKeyPair, index: int) -> Seq<(String, usize)> {
    cert.server_names@.map_values(|name: String| (name, index as usize))
}

/// The server names of the first `n` certificates in order, each with the index
/// of its certificate.
pub open spec fn named(certs: Seq<CertKeyPair>, n: int) -> Seq<(String, usize)>
    decreases n,
{
    if n <= 0 {
        Seq::empty()
    } else {
        named(certs, n - 1) + names_of(certs[n - 1], n - 1)
    }
}

/// The last of the first `n` certificates that is marked as the default.
pub open spec fn last_default(certs: Seq<CertKeyPair>, n: int) -> Option<usize>
    decreases n,
{
    if n <= 0 {
        None
    } else if certs[n - 1].default {
        Some((n - 1) as usize)
    } else {
        last_default(certs, n - 1)
    }
}

/// The certificate of the second entry named `target` but for letter case, from
/// entry `i` on, where `seen` tells whether one came before.
pub open spec fn second_holder(
    entries: Seq<(String, usize)>,
    target: Seq<char>,
    i: int,
    seen: bool,
) -> Option<usize>
    decreases entries.len() - i,
{
    if !(0 <= i < entries.len()) {
        None
    } else if lower(entries[i].0@) == lower(target) {
        if seen {
            Some(entries[i].1)
        } else {
            second_holder(entries, target, i + 1, true)
        }
    } else {
        second_holder(entries, target, i + 1, seen)
    }
}

/// The path of the certificate that repeats a server name.
pub open spec fn duplicate_path(certs: Seq<CertKeyPair>, target: Seq<char>) -> Seq<char> {
    match second_holder(named(certs, certs.len() as int), target, 0, false) {
        Some(k) => certs[k as int].cert_path@,
        None => if certs.len() > 0 {
            certs[0].cert_path@
        } else {
            Seq::empty()
        },
    }
}

fn list_names(certificates: &Vec<CertKeyPair>) -> (r: Vec<(String, usize)>)
    ensures
        r@ == named(certificates@, certificates@.len() as int),
        forall|i: int| 0 <= i < r@.len() ==> (#[trigger] r@[i]).1 < certificates@.len(),
{
    let mut out: Vec<(String, usize)> = Vec::new();
    let mut i: usize = 0;
    while i < certificates.len()
        invariant
            i <= certificates@.len(),
            out@ == named(certificates@, i as int),
            forall|k: int| 0 <= k < out@.len() ==> (#[trigger] out@[k]).1 < certificates@.len(),
        decreases certificates@.len() - i,
    {
        let pair = &certificates[i];
        let ghost before = out@;
        let mut j: usize = 0;
        while j < pair.server_names.len()
            invariant
                i < certificates@.len(),
                pair == certificates@[i as int],
                j <= pair.server_names@.len(),
                out@ == before + names_of(*pair, i as int).take(j as int),
                forall|k: int| 0 <= k < out@.len() ==> (#[trigger] out@[k]).1 < certificates@.len(),
            decreases pair.server_names@.len() - j,
        {
            out.push((pair.server_names[j].clone(), i));
            j = j + 1;
        }
        assert(names_of(*pair, i as int).take(j as int) =~= names_of(*pair, i as int));
        i = i + 1;
    }
    out
}

/// The path of the certificate that introduced a duplicate server name: that
/// of the second one to carry it.
fn duplicate_cert_path(certificates: &Vec<CertKeyPair>, pattern: &str) -> (r: String)
    ensures
        r@ == duplicate_path(certificates@, pattern@),
{
    let target = lower_text(pattern);
    let entries = list_names(certificates);
    let mut seen = false;
    let mut i: usize = 0;
    while i < entries.len()
        invariant
            i <= entries@.len(),
            target@ == lower(pattern@),
            entries@ == named(certificates@, certificates@.len() as int),
            forall|k: int| 0 <= k < entries@.len() ==> (#[trigger] entries@[k]).1 < certificates@.len(),
            second_holder(entries@, pattern@, 0, false) == second_holder(
                entries@,
                pattern@,
                i as int,
                seen,
            ),
        decreases entries@.len() - i,
    {
        let name = lower_text(entries[i].0.as_str());
        if same_text(name.as_str(), target.as_str()) {
            if seen {
                return copy_text(certificates[entries[i].1].cert_path.as_str());
            }
            seen = true;
        }
        i = i + 1;
    }
    if certificates.len() > 0 {
        copy_text(certificates[0].cert_path.as_str())
    } else {
        let empty = String::new();
        assert(empty@ =~= Seq::<char>::empty());
        empty
    }
}

/// Selects a certificate by the client's server name.
///
/// A name that no entry matches, and a client that sends none, get the default
/// certificate, if there is one.
pub struct SniCertResolver<C> {
    matcher: SniMatcher<usize>,
    default: Option<usize>,
    keys: Vec<C>,
}

impl<C> SniCertResolver<C> {
    /// The server names with the index of the certificate that each selects.
    pub closed spec fn entries(self) -> Seq<(Seq<char>, usize)> {
        self.matcher.entries()
    }

    /// The server names in order, as written.
    pub closed spec fn patterns(self) -> Seq<Seq<char>> {
        self.matcher.patterns()
    }

    pub closed spec fn fallback(self) -> Option<usize> {
        self.default
    }

    pub closed spec fn keys(self) -> Seq<C> {
        self.keys@
    }

    pub closed spec fn wf(self) -> bool {
        &&& self.matcher.wf()
        &&& self.matcher.policy() == WildcardMatch::SingleLabel
        &&& forall|i: int|
            0 <= i < self.matcher.entries().len() ==> (#[trigger] self.matcher.entries()[i]).1
                < self.keys@.len()
        &&& self.default matches Some(k) ==> k < self.keys@.len()
    }

    /// The fallback as a certificate.
    pub open spec fn fallback_key(self) -> Option<C> {
        match self.fallback() {
            Some(k) => Some(self.keys()[k as int]),
            None => None,
        }
    }

    /// Whether `key` is what a client that sends the name `sni` gets: that of
    /// the entry which is the answer for the name, or else the fallback.
    pub open spec fn selects(self, sni: Option<Seq<char>>, key: Option<C>) -> bool {
        exists|found: Option<usize>|
            {
                &&& #[trigger] self.finds(sni, found)
                &&& key == match found {
                    Some(k) => Some(self.keys()[k as int]),
                    None => self.fallback_key(),
                }
            }
    }

    /// Whether `found` is the index that the server names give for `sni`.
    pub open spec fn finds(self, sni: Option<Seq<char>>, found: Option<usize>) -> bool {
        match sni {
            None => found is None,
            Some(name) => resolves(
                self.entries(),
                WildcardMatch::SingleLabel,
                looked_up(name),
                found,
            ),
        }
    }

    /// The certificate for a client that sends the name `sni`.
    pub fn lookup(&self, sni: Option<&str>) -> (r: Option<&C>)
        requires
            self.wf(),
        ensures
            self.selects(
                opt_view(sni),
                match r {
                    Some(key) => Some(*key),
                    None => None,
                },
            ),
    {
        match sni {
            Some(name) => match self.matcher.lookup(name) {
                Some(k) => {
                    assert(self.finds(opt_view(sni), Some(*k)));
                    assert(*k < self.keys@.len());
                    Some(&self.keys[*k])
                },
                None => {
                    assert(self.finds(opt_view(sni), None));
                    self.fallback_certificate()
                },
            },
            None => {
                assert(self.finds(opt_view(sni), None));
                self.fallback_certificate()
            },
        }
    }

    fn fallback_certificate(&self) -> (r: Option<&C>)
        requires
            self.wf(),
        ensures
            self.fallback_key() == (match r {
                Some(key) => Some(*key),
                None => None,
            }),
    {
        match self.default {
            Some(k) => Some(&self.keys[k]),
            None => None,
        }
    }

    /// The configured exact names, in lowercase.
    pub fn hostnames(&self) -> (r: Vec<String>)
        requires
            self.wf(),
        ensures
            views(r@).no_duplicates(),
            forall|p: Seq<char>|
                #[trigger] views(r@).contains(p) <==> exists|i: int|
                    0 <= i < self.entries().len() && (#[trigger] self.entries()[i]).0 == p
                        && !is_wildcard(p),
    {
        let r = self.matcher.exact_names();
        assert(self.entries() == self.matcher.entries());
        r
    }

    /// The configured wildcard patterns, as written.
    pub fn wildcards(&self) -> (r: Vec<String>)
        requires
            self.wf(),
        ensures
            views(r@).no_duplicates(),
            forall|p: Seq<char>|
                #[trigger] views(r@).contains(p) <==> self.patterns().contains(p) && is_wildcard(p),
    {
        self.matcher.wildcard_patterns()
    }

    /// Whether a default certificate is configured.
    pub fn has_default(&self) -> (r: bool)
        ensures
            r == (self.fallback() is Some),
    {
        self.default.is_some()
    }
}

/// Build the resolver for certificates whose keys, in the same order, are
/// loaded already.
///
/// Where several certificates are marked as the default, the last one is.
pub fn build_sni_resolver<C>(certificates: &Vec<CertKeyPair>, keys: Vec<C>) -> (r: Result<
    SniCertResolver<C>,
    TlsError,
>)
    requires
        certificates@.len() == keys@.len(),
    ensures
        match build_error(
            named(certificates@, certificates@.len() as int),
            WildcardMatch::SingleLabel,
            0,
        ) {
            Some(SniMatcherError::DuplicatePattern { pattern }) => {
                &&& r matches Err(TlsError::DuplicateServerName { path, name })
                &&& name == pattern
                &&& path@ == duplicate_path(certificates@, pattern@)
            },
            Some(SniMatcherError::InvalidPattern { pattern, source }) => r == Err::<
                SniCertResolver<C>,
                TlsError,
            >(TlsError::InvalidServerName { pattern, source }),
            None => {
                &&& r is Ok
                &&& r->Ok_0.wf()
                &&& r->Ok_0.entries() == lowered(named(certificates@, certificates@.len() as int))
                &&& r->Ok_0.patterns() == as_written(named(certificates@, certificates@.len() as int))
                &&& r->Ok_0.fallback() == last_default(certificates@, certificates@.len() as int)
                &&& r->Ok_0.keys() == keys@
            },
        },
{
    let mut default: Option<usize> = None;
    let mut i: usize = 0;
    while i < certificates.len()
        invariant
            i <= certificates@.len(),
            default == last_default(certificates@, i as int),
            default matches Some(k) ==> k < certificates@.len(),
        decreases certificates@.len() - i,
    {
        if certificates[i].default {
            default = Some(i);
        }
        i = i + 1;
    }
    let entries = list_names(certificates);
    match SniMatcher::build(entries, WildcardMatch::SingleLabel) {
        Ok(matcher) => {
            assert forall|k: int| 0 <= k < matcher.entries().len() implies (
            #[trigger] matcher.entries()[k]).1 < keys@.len() by {
                assert(matcher.entries()[k].1 == entries@[k].1);
            }
            Ok(SniCertResolver { matcher, default, keys })
        },
        Err(SniMatcherError::DuplicatePattern { pattern }) => {
            let path = duplicate_cert_path(certificates, pattern.as_str());
            Err(TlsError::DuplicateServerName { path, name: pattern })
        },
        Err(SniMatcherError::InvalidPattern { pattern, source }) => Err(
            TlsError::InvalidServerName { pattern, source },
        ),
    }
}

} // verus!
