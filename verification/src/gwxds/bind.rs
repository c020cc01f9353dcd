//! What Gateway listeners are merged by: port, protocol and TLS material.

use vstd::prelude::*;

use crate::gwxds::hashing::{text_hash, TextHasher};
use crate::gwxds::types::{GwListener, TlsConfig};
use crate::text::{lemma_less_total, lemma_less_transitive, less, same_text, text_less};

verus! {

/// TLS material as mathematical data.
pub struct Material {
    pub cert_pem: Seq<char>,
    pub key_pem: Seq<char>,
    pub ca_pem: Seq<char>,
    pub min_version: Seq<char>,
}

/// What a listener is merged by, as mathematical data.
pub struct Bind {
    pub port: u32,
    pub protocol: i32,
    pub tls: Option<Material>,
}

impl TlsConfig {
    pub open spec fn material(self) -> Material {
        Material {
            cert_pem: self.cert_pem@,
            key_pem: self.key_pem@,
            ca_pem: self.ca_pem@,
            min_version: self.min_version@,
        }
    }
}

/// Whether two listeners have the same port, protocol and TLS material.
pub open spec fn same_bind(a: GwListener, b: GwListener) -> bool {
    &&& a.port == b.port
    &&& a.protocol == b.protocol
    &&& match (a.tls, b.tls) {
        (None, None) => true,
        (Some(s), Some(t)) => s.cert_pem@ == t.cert_pem@ && s.key_pem@ == t.key_pem@ && s.ca_pem@
            == t.ca_pem@ && s.min_version@ == t.min_version@,
        _ => false,
    }
}

/// What a listener is merged by.
pub open spec fn bind_of(listener: GwListener) -> Bind {
    Bind {
        port: listener.port,
        protocol: listener.protocol,
        tls: match listener.tls {
            Some(tls) => Some(tls.material()),
            None => None,
        },
    }
}

/// Listeners are merged by the same port, protocol and TLS material, and by
/// nothing less.
pub proof fn law_same_bind_is_merged(a: GwListener, b: GwListener)
    ensures
        bind_of(a) == bind_of(b) <==> same_bind(a, b),
{
}

/// The hash of TLS material, by which listeners are ordered; zero without TLS.
pub open spec fn tls_hash(tls: Option<Material>) -> u64 {
    match tls {
        Some(m) => text_hash(seq![m.cert_pem, m.key_pem, m.ca_pem, m.min_version]),
        None => 0,
    }
}

/// Whether TLS material comes before other by its texts; none comes first.
pub open spec fn material_less(a: Option<Material>, b: Option<Material>) -> bool {
    match (a, b) {
        (None, Some(_)) => true,
        (Some(x), Some(y)) => less(x.cert_pem, y.cert_pem) || (x.cert_pem == y.cert_pem && (less(
            x.key_pem,
            y.key_pem,
        ) || (x.key_pem == y.key_pem && (less(x.ca_pem, y.ca_pem) || (x.ca_pem == y.ca_pem && less(
            x.min_version,
            y.min_version,
        )))))),
        _ => false,
    }
}

/// Whether a listener comes before another: by port, protocol, hash of the TLS
/// material, and the material itself.
pub open spec fn bind_less(a: Bind, b: Bind) -> bool {
    a.port < b.port || (a.port == b.port && (a.protocol < b.protocol || (a.protocol == b.protocol && (
    tls_hash(a.tls) < tls_hash(b.tls) || (tls_hash(a.tls) == tls_hash(b.tls) && material_less(
        a.tls,
        b.tls,
    ))))))
}

proof fn lemma_material_total(a: Option<Material>, b: Option<Material>)
    ensures
        !material_less(a, a),
        !(material_less(a, b) && material_less(b, a)),
        a == b || material_less(a, b) || material_less(b, a),
{
    if let (Some(x), Some(y)) = (a, b) {
        lemma_less_total(x.cert_pem, y.cert_pem);
        lemma_less_total(x.key_pem, y.key_pem);
        lemma_less_total(x.ca_pem, y.ca_pem);
        lemma_less_total(x.min_version, y.min_version);
    }
    if let Some(x) = a {
        lemma_less_total(x.cert_pem, x.cert_pem);
        lemma_less_total(x.key_pem, x.key_pem);
        lemma_less_total(x.ca_pem, x.ca_pem);
        lemma_less_total(x.min_version, x.min_version);
    }
}

proof fn lemma_less_chain(a: Seq<char>, b: Seq<char>, c: Seq<char>)
    ensures
        less(a, b) && less(b, c) ==> less(a, c),
{
    if less(a, b) && less(b, c) {
        lemma_less_transitive(a, b, c);
    }
}

proof fn lemma_material_transitive(a: Option<Material>, b: Option<Material>, c: Option<Material>)
    requires
        material_less(a, b),
        material_less(b, c),
    ensures
        material_less(a, c),
{
    if let (Some(x), Some(y), Some(z)) = (a, b, c) {
        lemma_less_chain(x.cert_pem, y.cert_pem, z.cert_pem);
        lemma_less_chain(x.key_pem, y.key_pem, z.key_pem);
        lemma_less_chain(x.ca_pem, y.ca_pem, z.ca_pem);
        lemma_less_chain(x.min_version, y.min_version, z.min_version);
    }
}

/// The order of listeners is total, and none comes before itself.
pub proof fn lemma_bind_total(a: Bind, b: Bind)
    ensures
        !bind_less(a, a),
        !(bind_less(a, b) && bind_less(b, a)),
        a == b || bind_less(a, b) || bind_less(b, a),
{
    lemma_material_total(a.tls, b.tls);
}

/// The order of listeners is transitive.
pub proof fn lemma_bind_transitive(a: Bind, b: Bind, c: Bind)
    requires
        bind_less(a, b),
        bind_less(b, c),
    ensures
        bind_less(a, c),
{
    if material_less(a.tls, b.tls) && material_less(b.tls, c.tls) {
        lemma_material_transitive(a.tls, b.tls, c.tls);
    }
}

fn tls_fingerprint(tls: &TlsConfig) -> (r: u64)
    ensures
        r == tls_hash(Some(tls.material())),
{
    let mut h = TextHasher::new();
    h.push(tls.cert_pem.as_str());
    h.push(tls.key_pem.as_str());
    h.push(tls.ca_pem.as_str());
    h.push(tls.min_version.as_str());
    assert(h.texts() =~= seq![tls.cert_pem@, tls.key_pem@, tls.ca_pem@, tls.min_version@]);
    h.finish()
}

/// What a listener is merged by.
#[derive(Clone, Copy, Debug)]
pub struct MergeKey<'a> {
    pub port: u32,
    pub protocol: i32,
    /// Hash of the TLS material; zero without TLS.
    pub tls_fp: u64,
    pub tls: Option<&'a TlsConfig>,
}

/// The material of TLS that may be there.
pub open spec fn material_of(tls: Option<&TlsConfig>) -> Option<Material> {
    match tls {
        Some(t) => Some(t.material()),
        None => None,
    }
}

fn same_material(a: Option<&TlsConfig>, b: Option<&TlsConfig>) -> (r: bool)
    ensures
        r == (material_of(a) == material_of(b)),
{
    match (a, b) {
        (None, None) => true,
        (Some(s), Some(t)) => same_text(s.cert_pem.as_str(), t.cert_pem.as_str()) && same_text(
            s.key_pem.as_str(),
            t.key_pem.as_str(),
        ) && same_text(s.ca_pem.as_str(), t.ca_pem.as_str()) && same_text(
            s.min_version.as_str(),
            t.min_version.as_str(),
        ),
        _ => false,
    }
}

fn material_precedes(a: Option<&TlsConfig>, b: Option<&TlsConfig>) -> (r: bool)
    ensures
        r == material_less(material_of(a), material_of(b)),
{
    match (a, b) {
        (None, Some(_)) => true,
        (Some(s), Some(t)) => {
            if !same_text(s.cert_pem.as_str(), t.cert_pem.as_str()) {
                return text_less(s.cert_pem.as_str(), t.cert_pem.as_str());
            }
            proof {
                lemma_less_total(s.cert_pem@, s.cert_pem@);
                lemma_less_total(s.key_pem@, s.key_pem@);
                lemma_less_total(s.ca_pem@, s.ca_pem@);
            }
            if !same_text(s.key_pem.as_str(), t.key_pem.as_str()) {
                return text_less(s.key_pem.as_str(), t.key_pem.as_str());
            }
            if !same_text(s.ca_pem.as_str(), t.ca_pem.as_str()) {
                return text_less(s.ca_pem.as_str(), t.ca_pem.as_str());
            }
            text_less(s.min_version.as_str(), t.min_version.as_str())
        },
        _ => false,
    }
}

impl<'a> MergeKey<'a> {
    pub open spec fn model(self) -> Bind {
        Bind { port: self.port, protocol: self.protocol, tls: material_of(self.tls) }
    }

    pub open spec fn wf(self) -> bool {
        self.tls_fp == tls_hash(material_of(self.tls))
    }

    /// What a listener is merged by.
    pub fn from_listener(listener: &'a GwListener) -> (r: Self)
        ensures
            r.wf(),
            r.model() == bind_of(*listener),
    {
        match &listener.tls {
            Some(tls) => MergeKey {
                port: listener.port,
                protocol: listener.protocol,
                tls_fp: tls_fingerprint(tls),
                tls: Some(tls),
            },
            None => MergeKey { port: listener.port, protocol: listener.protocol, tls_fp: 0, tls: None },
        }
    }

    /// Whether listeners with these keys are merged.
    pub fn merges_with(&self, other: &MergeKey<'_>) -> (r: bool)
        requires
            self.wf(),
            other.wf(),
        ensures
            r == (self.model() == other.model()),
    {
        self.port == other.port && self.protocol == other.protocol && self.tls_fp == other.tls_fp
            && same_material(self.tls, other.tls)
    }

    /// Whether a listener with this key comes before one with the other.
    pub fn precedes(&self, other: &MergeKey<'_>) -> (r: bool)
        requires
            self.wf(),
            other.wf(),
        ensures
            r == bind_less(self.model(), other.model()),
    {
        if self.port != other.port {
            return self.port < other.port;
        }
        if self.protocol != other.protocol {
            return self.protocol < other.protocol;
        }
        if self.tls_fp != other.tls_fp {
            return self.tls_fp < other.tls_fp;
        }
        material_precedes(self.tls, other.tls)
    }
}

} // verus!
