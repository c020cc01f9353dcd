//! Hostname patterns of listeners and routes, and their intersection.

use vstd::prelude::*;

use crate::gwxds::types::{GwListener, GwRoute};
use crate::text::{concat, ends_with, lower, lower_text, opt_text, same_text, strip_prefix, stripped, to_chars, trim, trim_text};

verus! {

/// A hostname pattern, in lowercase.
#[derive(Debug)]
pub enum HostPattern {
    /// A hostname.
    Exact(String),
    /// What follows `*.`.
    Wildcard(String),
}

/// A hostname pattern as mathematical data.
pub enum HostModel {
    Exact(Seq<char>),
    Wildcard(Seq<char>),
}

impl View for HostPattern {
    type V = HostModel;

    open spec fn view(&self) -> HostModel {
        match self {
            HostPattern::Exact(e) => HostModel::Exact(e@),
            HostPattern::Wildcard(s) => HostModel::Wildcard(s@),
        }
    }
}

/// The pattern that a text writes.
pub open spec fn pattern_of(raw: Seq<char>) -> HostModel {
    match stripped(trim(raw), "*."@) {
        Some(suffix) => HostModel::Wildcard(lower(suffix)),
        None => HostModel::Exact(lower(trim(raw))),
    }
}

/// How a pattern is written.
pub open spec fn pattern_text(p: HostModel) -> Seq<char> {
    match p {
        HostModel::Exact(e) => e,
        HostModel::Wildcard(s) => "*."@ + s,
    }
}

/// Whether a host lies below a domain, at any depth.
pub open spec fn below(host: Seq<char>, domain: Seq<char>) -> bool {
    host.len() > domain.len() + 1 && (seq!['.'] + domain).is_suffix_of(host)
}

/// Whether a wildcard's domain lies below another.
pub open spec fn narrower(a: Seq<char>, b: Seq<char>) -> bool {
    (seq!['.'] + b).is_suffix_of(a)
}

/// The pattern for the hosts that two patterns have in common.
pub open spec fn intersection(a: HostModel, b: HostModel) -> Option<HostModel> {
    match (a, b) {
        (HostModel::Exact(e), HostModel::Wildcard(s)) | (HostModel::Wildcard(s), HostModel::Exact(e)) => if below(
        lower(e), lower(s)) {
            Some(HostModel::Exact(e))
        } else {
            None
        },
        (HostModel::Exact(e1), HostModel::Exact(e2)) => if e1 == e2 {
            Some(a)
        } else {
            None
        },
        (HostModel::Wildcard(s1), HostModel::Wildcard(s2)) => if s1 == s2 || narrower(s1, s2) {
            Some(a)
        } else if narrower(s2, s1) {
            Some(b)
        } else {
            None
        },
    }
}

/// The hostname for what a listener and a route have in common.
pub open spec fn common_host(listener: Seq<char>, route: Seq<char>) -> Option<Seq<char>> {
    match intersection(pattern_of(listener), pattern_of(route)) {
        Some(p) => Some(pattern_text(p)),
        None => None,
    }
}

/// The hostnames of the first `n` route hostnames on a listener: those that they
/// have in common with the listener's, where it has one.
pub open spec fn common_hosts(listener: Seq<char>, hostnames: Seq<String>, n: int) -> Seq<
    Option<Seq<char>>,
>
    decreases n,
{
    if n <= 0 {
        Seq::empty()
    } else {
        let earlier = common_hosts(listener, hostnames, n - 1);
        if listener.len() == 0 {
            earlier.push(Some(hostnames[n - 1]@))
        } else {
            match common_host(listener, hostnames[n - 1]@) {
                Some(host) => earlier.push(Some(host)),
                None => earlier,
            }
        }
    }
}

/// The hostnames that a route serves on a listener; `None` inside for every
/// host, and `None` outside where there are none.
pub open spec fn served_hosts(listener: GwListener, route: GwRoute) -> Option<Seq<Option<Seq<char>>>> {
    let name = trim(listener.hostname@);
    if route.hostnames@.len() == 0 {
        Some(
            if name.len() == 0 {
                seq![None]
            } else {
                seq![Some(name)]
            },
        )
    } else {
        let hosts = common_hosts(name, route.hostnames@, route.hostnames@.len() as int);
        if hosts.len() == 0 {
            None
        } else {
            Some(hosts)
        }
    }
}

fn parse_host_pattern(raw: &str) -> (r: HostPattern)
    ensures
        r@ == pattern_of(raw@),
{
    let h = trim_text(raw);
    match strip_prefix(h.as_str(), "*.") {
        Some(suffix) => HostPattern::Wildcard(lower_text(suffix.as_str())),
        None => HostPattern::Exact(lower_text(h.as_str())),
    }
}

fn pattern_to_host_header(p: &HostPattern) -> (r: String)
    ensures
        r@ == pattern_text(p@),
{
    match p {
        HostPattern::Exact(e) => e.clone(),
        HostPattern::Wildcard(s) => concat("*.", s.as_str()),
    }
}

/// Whether a host lies below a domain, at any depth, ignoring letter case.
fn host_matches_wildcard_suffix_multi(host: &str, domain: &str) -> (r: bool)
    ensures
        r == below(lower(host@), lower(domain@)),
{
    proof {
        reveal_strlit(".");
        assert("."@ =~= seq!['.']);
    }
    let h = lower_text(host);
    let d = lower_text(domain);
    let suffix = concat(".", d.as_str());
    let n: usize = to_chars(h.as_str()).len();
    let m: usize = to_chars(suffix.as_str()).len();
    n > m && ends_with(h.as_str(), suffix.as_str())
}

/// The pattern for the hosts that two patterns have in common.
pub fn patterns_intersect(a: HostPattern, b: HostPattern) -> (r: Option<HostPattern>)
    ensures
        match intersection(a@, b@) {
            Some(p) => r matches Some(q) && q@ == p,
            None => r is None,
        },
{
    match (a, b) {
        (HostPattern::Exact(e), HostPattern::Wildcard(s)) | (
            HostPattern::Wildcard(s),
            HostPattern::Exact(e),
        ) => {
            if host_matches_wildcard_suffix_multi(e.as_str(), s.as_str()) {
                Some(HostPattern::Exact(e))
            } else {
                None
            }
        },
        (HostPattern::Exact(e1), HostPattern::Exact(e2)) => {
            if same_text(e1.as_str(), e2.as_str()) {
                Some(HostPattern::Exact(e1))
            } else {
                None
            }
        },
        (HostPattern::Wildcard(s1), HostPattern::Wildcard(s2)) => {
            proof {
                reveal_strlit(".");
                assert("."@ =~= seq!['.']);
            }
            let dotted1 = concat(".", s1.as_str());
            let dotted2 = concat(".", s2.as_str());
            if same_text(s1.as_str(), s2.as_str()) || ends_with(s1.as_str(), dotted2.as_str()) {
                Some(HostPattern::Wildcard(s1))
            } else if ends_with(s2.as_str(), dotted1.as_str()) {
                Some(HostPattern::Wildcard(s2))
            } else {
                None
            }
        },
    }
}

/// The hostname for what a listener and a route have in common.
pub fn intersect_listener_route_hostname(listener_raw: &str, route_raw: &str) -> (r: Option<String>)
    ensures
        opt_text(r) == common_host(listener_raw@, route_raw@),
{
    let l = parse_host_pattern(listener_raw);
    let r = parse_host_pattern(route_raw);
    match patterns_intersect(l, r) {
        Some(p) => Some(pattern_to_host_header(&p)),
        None => None,
    }
}

/// Hostnames as mathematical data.
pub open spec fn host_views(hosts: Seq<Option<String>>) -> Seq<Option<Seq<char>>> {
    hosts.map_values(|h: Option<String>| opt_text(h))
}

/// The hostnames that a route serves on a listener, narrowed to the hosts of
/// both.
pub fn effective_route_hostnames(listener: &GwListener, route: &GwRoute) -> (r: Option<
    Vec<Option<String>>,
>)
    ensures
        match served_hosts(*listener, *route) {
            Some(hosts) => r matches Some(v) && host_views(v@) == hosts,
            None => r is None,
        },
{
    let name = trim_text(listener.hostname.as_str());
    let mut out: Vec<Option<String>> = Vec::new();
    assert(host_views(out@) =~= Seq::<Option<Seq<char>>>::empty());
    if route.hostnames.len() == 0 {
        if name.as_str().is_empty() {
            out.push(None);
            assert(host_views(out@) =~= seq![None::<Seq<char>>]);
        } else {
            out.push(Some(name));
            assert(host_views(out@) =~= seq![Some(name@)]);
        }
        return Some(out);
    }
    let open = name.as_str().is_empty();
    let mut i: usize = 0;
    while i < route.hostnames.len()
        invariant
            i <= route.hostnames@.len(),
            open == (name@.len() == 0),
            host_views(out@) == common_hosts(name@, route.hostnames@, i as int),
        decreases route.hostnames@.len() - i,
    {
        let ghost earlier = host_views(out@);
        let host = &route.hostnames[i];
        if open {
            out.push(Some(host.clone()));
            assert(host_views(out@) =~= earlier.push(Some(host@)));
        } else {
            match intersect_listener_route_hostname(name.as_str(), host.as_str()) {
                Some(narrowed) => {
                    out.push(Some(narrowed));
                    assert(host_views(out@) =~= earlier.push(Some(narrowed@)));
                },
                None => {},
            }
        }
        i = i + 1;
    }
    assert(host_views(out@).len() == out@.len());
    if out.len() == 0 {
        None
    } else {
        Some(out)
    }
}

/// Whether a pattern covers a host.
pub open spec fn covers(p: HostModel, host: Seq<char>) -> bool {
    match p {
        HostModel::Exact(e) => host == e,
        HostModel::Wildcard(s) => below(host, s),
    }
}

/// Whether a pattern is in lowercase.
pub open spec fn is_lower(p: HostModel) -> bool {
    match p {
        HostModel::Exact(e) => lower(e) == e,
        HostModel::Wildcard(s) => lower(s) == s,
    }
}

proof fn lemma_suffixes(h: Seq<char>, a: Seq<char>, b: Seq<char>)
    requires
        a.is_suffix_of(h),
        b.is_suffix_of(h),
        a.len() <= b.len(),
    ensures
        a.is_suffix_of(b),
{
    assert(b.subrange(b.len() - a.len(), b.len() as int) =~= a);
}

proof fn lemma_suffix_transitive(a: Seq<char>, b: Seq<char>, c: Seq<char>)
    requires
        a.is_suffix_of(b),
        b.is_suffix_of(c),
    ensures
        a.is_suffix_of(c),
{
    assert(c.subrange(c.len() - a.len(), c.len() as int) =~= a);
}

/// The intersection of two patterns covers exactly the hosts that both cover,
/// and where there is none no host is covered by both.
pub proof fn law_intersection_narrows(a: HostModel, b: HostModel, host: Seq<char>)
    requires
        is_lower(a),
        is_lower(b),
    ensures
        match intersection(a, b) {
            Some(p) => covers(p, host) <==> covers(a, host) && covers(b, host),
            None => !(covers(a, host) && covers(b, host)),
        },
{
    match (a, b) {
        (HostModel::Wildcard(s1), HostModel::Wildcard(s2)) => {
            let d1 = seq!['.'] + s1;
            let d2 = seq!['.'] + s2;
            if narrower(s1, s2) {
                assert(s1.is_suffix_of(d1)) by {
                    assert(d1.subrange(1, d1.len() as int) =~= s1);
                }
                lemma_suffix_transitive(d2, s1, d1);
                if below(host, s1) {
                    lemma_suffix_transitive(d2, d1, host);
                }
            } else if narrower(s2, s1) {
                assert(s2.is_suffix_of(d2)) by {
                    assert(d2.subrange(1, d2.len() as int) =~= s2);
                }
                lemma_suffix_transitive(d1, s2, d2);
                if below(host, s2) {
                    lemma_suffix_transitive(d1, d2, host);
                }
            }
            if below(host, s1) && below(host, s2) {
                if s1.len() < s2.len() {
                    lemma_suffixes(host, d1, d2);
                    assert(d1.len() <= s2.len());
                    assert(s2.is_suffix_of(host)) by {
                        assert(d2.subrange(1, d2.len() as int) =~= s2);
                        lemma_suffix_transitive(s2, d2, host);
                    }
                    lemma_suffixes(host, d1, s2);
                } else if s2.len() < s1.len() {
                    assert(s1.is_suffix_of(host)) by {
                        assert(d1.subrange(1, d1.len() as int) =~= s1);
                        lemma_suffix_transitive(s1, d1, host);
                    }
                    lemma_suffixes(host, d2, s1);
                } else {
                    lemma_suffixes(host, d1, d2);
                    assert(d1 =~= d2);
                    assert(s1 =~= d1.skip(1));
                    assert(s2 =~= d2.skip(1));
                }
            }
        },
        _ => {},
    }
}

/// The intersection does not depend on which of the two comes first.
pub proof fn law_intersection_symmetric(a: HostModel, b: HostModel)
    ensures
        intersection(a, b) == intersection(b, a),
{
    match (a, b) {
        (HostModel::Wildcard(s1), HostModel::Wildcard(s2)) => {
            if narrower(s1, s2) && narrower(s2, s1) {
                assert(s1.len() >= s2.len() + 1 && s2.len() >= s1.len() + 1);
            }
        },
        _ => {},
    }
}

/// Patterns are read in lowercase.
pub proof fn law_patterns_are_lower(raw: Seq<char>)
    ensures
        is_lower(pattern_of(raw)),
{
    let t = trim(raw);
    assert(lower(lower(t)) =~= lower(t));
    match stripped(t, "*."@) {
        Some(suffix) => {
            assert(lower(lower(suffix)) =~= lower(suffix));
        },
        None => {},
    }
}

} // verus!
