//! Routing of TLS connections by server name.

use vstd::prelude::*;

use crate::action::{reject, rejects, Action, FilterAction};
use crate::sni::matcher::{build_error, looked_up, lowered, resolves, SniMatcher, SniMatcherError, WildcardMatch};
use crate::sni::name::SniNameError;
use crate::text::{concat3, lower, lower_text, opt_view, strip_prefix, stripped};

verus! {

/// Status for a connection that no upstream serves.
pub const MISDIRECTED: u16 = 421;

/// Configuration of the server name router.
#[derive(Debug)]
pub struct SniRouterConfig {
    /// Upstream where no route matches.
    pub default_upstream: Option<String>,
    pub routes: Vec<SniRouteEntry>,
}

/// Server names and the upstream that serves them.
#[derive(Debug)]
pub struct SniRouteEntry {
    /// Exact names, or wildcards like `*.example.com`.
    pub server_names: Vec<String>,
    pub upstream: String,
}

/// Why a configuration is refused.
#[derive(Debug)]
pub enum SniRouterError {
    /// There is neither a route nor a default upstream.
    NothingToRoute,
    /// A route has no server name.
    NoServerNames,
    /// A server name is not acceptable, or is configured twice.
    BadServerName(SniMatcherError),
}

impl SniRouterError {
    pub open spec fn text(self) -> Seq<char> {
        match self {
            SniRouterError::NothingToRoute => "sni_router: at least one route or a default_upstream is required"@,
            SniRouterError::NoServerNames => "sni_router: route entry has empty server_names list"@,
            SniRouterError::BadServerName(SniMatcherError::DuplicatePattern { pattern }) => match stripped(
                lower(pattern@),
                "*"@,
            ) {
                Some(suffix) => "sni_router: duplicate wildcard pattern '*"@ + suffix + "'"@,
                None => "sni_router: duplicate server name '"@ + lower(pattern@) + "'"@,
            },
            SniRouterError::BadServerName(
                SniMatcherError::InvalidPattern { pattern, source },
            ) => if source == SniNameError::BareWildcard {
                "sni_router: bare wildcard '*' is not allowed; use default_upstream instead"@
            } else {
                "sni_router: server name '"@ + pattern@ + "' "@ + source.text()
            },
        }
    }

    /// The message of this error.
    pub fn message(&self) -> (r: String)
        ensures
            r@ == self.text(),
    {
        match self {
            SniRouterError::NothingToRoute => "sni_router: at least one route or a default_upstream is required".to_owned(),
            SniRouterError::NoServerNames => "sni_router: route entry has empty server_names list".to_owned(),
            SniRouterError::BadServerName(SniMatcherError::DuplicatePattern { pattern }) => {
                let name = lower_text(pattern.as_str());
                match strip_prefix(name.as_str(), "*") {
                    Some(suffix) => concat3(
                        "sni_router: duplicate wildcard pattern '*",
                        suffix.as_str(),
                        "'",
                    ),
                    None => concat3("sni_router: duplicate server name '", name.as_str(), "'"),
                }
            },
            SniRouterError::BadServerName(SniMatcherError::InvalidPattern { pattern, source }) => {
                if *source == SniNameError::BareWildcard {
                    return "sni_router: bare wildcard '*' is not allowed; use default_upstream instead".to_owned();
                }
                let mut out = concat3("sni_router: server name '", pattern.as_str(), "' ");
                out.append(source.message());
                out
            },
        }
    }
}

/// The server names of one route, each with its upstream.
pub open spec fn pairs_of(route: SniRouteEntry) -> Seq<(String, String)> {
    route.server_names@.map_values(|name: String| (name, route.upstream))
}

/// The server names of the first `n` routes in order, each with its upstream.
pub open spec fn pairs(routes: Seq<SniRouteEntry>, n: int) -> Seq<(String, String)>
    decreases n,
{
    if n <= 0 {
        Seq::empty()
    } else {
        pairs(routes, n - 1) + pairs_of(routes[n - 1])
    }
}

/// What is wrong with a configuration.
pub open spec fn config_error(cfg: SniRouterConfig) -> Option<SniRouterError> {
    if cfg.routes@.len() == 0 && cfg.default_upstream is None {
        Some(SniRouterError::NothingToRoute)
    } else if exists|i: int|
        0 <= i < cfg.routes@.len() && (#[trigger] cfg.routes@[i]).server_names@.len() == 0 {
        Some(SniRouterError::NoServerNames)
    } else {
        match build_error(pairs(cfg.routes@, cfg.routes@.len() as int), WildcardMatch::Suffix, 0) {
            Some(err) => Some(SniRouterError::BadServerName(err)),
            None => None,
        }
    }
}

/// Routes TLS connections by server name: exact names first, then the longest
/// wildcard, then the default upstream.
pub struct SniRouterFilter {
    default_upstream: Option<String>,
    matcher: SniMatcher<String>,
}

impl SniRouterFilter {
    /// The server names, in lowercase, with their upstreams.
    pub closed spec fn entries(self) -> Seq<(Seq<char>, String)> {
        self.matcher.entries()
    }

    pub closed spec fn fallback(self) -> Option<String> {
        self.default_upstream
    }

    pub closed spec fn wf(self) -> bool {
        self.matcher.wf() && self.matcher.policy() == WildcardMatch::Suffix
    }

    /// Whether `found` is the upstream that the routes give for the name `sni`.
    pub open spec fn finds(self, sni: Option<Seq<char>>, found: Option<String>) -> bool {
        match sni {
            None => found is None,
            Some(name) => resolves(self.entries(), WildcardMatch::Suffix, looked_up(name), found),
        }
    }

    /// Whether `upstream` serves connections to the name `sni`: that of the
    /// route which is the answer for the name, or else the default.
    pub open spec fn serves(self, sni: Option<Seq<char>>, upstream: Option<String>) -> bool {
        exists|found: Option<String>|
            {
                &&& #[trigger] self.finds(sni, found)
                &&& upstream == match found {
                    Some(_) => found,
                    None => self.fallback(),
                }
            }
    }

    /// Create the filter from its configuration.
    pub fn from_config(cfg: SniRouterConfig) -> (r: Result<Self, SniRouterError>)
        ensures
            match config_error(cfg) {
                Some(err) => r == Err::<Self, SniRouterError>(err),
                None => {
                    &&& r is Ok
                    &&& r->Ok_0.wf()
                    &&& r->Ok_0.entries() == lowered(pairs(cfg.routes@, cfg.routes@.len() as int))
                    &&& r->Ok_0.fallback() == cfg.default_upstream
                },
            },
    {
        if cfg.routes.len() == 0 && cfg.default_upstream.is_none() {
            return Err(SniRouterError::NothingToRoute);
        }
        let mut entries: Vec<(String, String)> = Vec::new();
        let mut i: usize = 0;
        while i < cfg.routes.len()
            invariant
                i <= cfg.routes@.len(),
                !(cfg.routes@.len() == 0 && cfg.default_upstream is None),
                entries@ == pairs(cfg.routes@, i as int),
                forall|k: int| 0 <= k < i ==> (#[trigger] cfg.routes@[k]).server_names@.len() > 0,
            decreases cfg.routes@.len() - i,
        {
            let entry = &cfg.routes[i];
            if entry.server_names.len() == 0 {
                return Err(SniRouterError::NoServerNames);
            }
            let ghost before = entries@;
            let mut j: usize = 0;
            while j < entry.server_names.len()
                invariant
                    j <= entry.server_names@.len(),
                    entries@ == before + pairs_of(*entry).take(j as int),
                decreases entry.server_names@.len() - j,
            {
                entries.push((entry.server_names[j].clone(), entry.upstream.clone()));
                j = j + 1;
            }
            assert(pairs_of(*entry).take(j as int) =~= pairs_of(*entry));
            i = i + 1;
        }
        match SniMatcher::build(entries, WildcardMatch::Suffix) {
            Ok(matcher) => Ok(SniRouterFilter { default_upstream: cfg.default_upstream, matcher }),
            Err(err) => Err(SniRouterError::BadServerName(err)),
        }
    }

    /// The filter's name.
    pub fn name(&self) -> (r: &'static str)
        ensures
            r@ == "sni_router"@,
    {
        "sni_router"
    }

    /// The upstream for a server name.
    fn resolve(&self, sni: Option<&str>) -> (r: Option<String>)
        requires
            self.wf(),
        ensures
            self.serves(
                opt_view(sni),
                r,
            ),
    {
        match sni {
            Some(name) => match self.matcher.lookup(name) {
                Some(upstream) => {
                    assert(self.finds(opt_view(sni), Some(*upstream)));
                    Some(upstream.clone())
                },
                None => {
                    assert(self.finds(opt_view(sni), None));
                    self.fallback_upstream()
                },
            },
            None => {
                assert(self.finds(opt_view(sni), None));
                self.fallback_upstream()
            },
        }
    }

    fn fallback_upstream(&self) -> (r: Option<String>)
        ensures
            r == self.fallback(),
    {
        match &self.default_upstream {
            Some(upstream) => Some(upstream.clone()),
            None => None,
        }
    }

    /// Choose the upstream of a connection: it goes on with one, and is
    /// rejected with 421 where none serves it.
    pub fn on_connect(&self, sni: Option<&str>, upstream_addr: &mut Option<String>) -> (r:
        FilterAction)
        requires
            self.wf(),
        ensures
            exists|upstream: Option<String>|
                {
                    &&& #[trigger] self.serves(
                        opt_view(sni),
                        upstream,
                    )
                    &&& match upstream {
                        Some(_) => r.model() == Action::Continue && *final(upstream_addr) == upstream,
                        None => r.model() == rejects(MISDIRECTED) && *final(upstream_addr) == *old(
                            upstream_addr,
                        ),
                    }
                },
    {
        let found = self.resolve(sni);
        if found.is_some() {
            *upstream_addr = found;
            FilterAction::Continue
        } else {
            reject(MISDIRECTED)
        }
    }
}

} // verus!
