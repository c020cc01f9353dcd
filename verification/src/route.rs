//! Routing rules.

use vstd::prelude::*;

use crate::text_map::TextMap;

verus! {

/// A routing rule that maps requests to a cluster.
///
/// The path is matched by `path_exact` where it is set, else by `path_regex`
/// where that is set, else by `path_prefix`. Prefixes match by whole path
/// segments: `/api` matches `/api` and `/api/v1` but not `/apikeys`, and a
/// trailing slash of the prefix is ignored.
#[derive(Debug)]
pub struct Route {
    /// Path prefix to match. The longest matching prefix wins.
    pub path_prefix: String,
    /// Exact path to match.
    pub path_exact: Option<String>,
    /// Regular expression to match against the request path.
    pub path_regex: Option<String>,
    /// HTTP methods to match. An empty list matches every method.
    pub methods: Option<Vec<String>>,
    /// Host to match: a name, or a wildcard like `*.example.com`.
    pub host: Option<String>,
    /// Request headers that must all be present with these values.
    pub headers: Option<TextMap>,
    /// Query parameters that must all be present with these values.
    pub query_params: Option<TextMap>,
    /// Redirect to answer with in place of forwarding.
    pub redirect: Option<RedirectAction>,
    /// Request header changes after this route matches.
    pub request_header_modifier: Option<RequestHeaderModifier>,
    /// Response header changes after this route matches.
    pub response_header_modifier: Option<RequestHeaderModifier>,
    /// Host to send upstream.
    pub url_rewrite_hostname: Option<String>,
    /// Path to send upstream.
    pub url_rewrite_path_full: Option<String>,
    /// What replaces the matched prefix of the path that is sent upstream.
    pub url_rewrite_path_prefix: Option<String>,
    /// Request timeout in milliseconds; zero is none.
    pub request_timeout_ms: u64,
    /// Backend request timeout in milliseconds; zero is none.
    pub backend_timeout_ms: u64,
    /// Whether the backends of this rule could not be resolved.
    pub invalid_backend_ref: bool,
    /// Whether this rule is for gRPC requests.
    pub grpc_route: bool,
    /// Cross-origin policy of this route. Where it is set, the router answers
    /// preflight requests and sets the cross-origin headers of responses.
    pub cors: Option<RouteCorsPolicy>,
    /// Name of the cluster that serves matched requests.
    pub cluster: String,
}

/// Cross-origin policy of a route.
#[derive(Debug)]
pub struct RouteCorsPolicy {
    /// Allowed origins: exact texts, `*.suffix` wildcards, or `*`.
    pub allow_origins: Vec<String>,
    /// Allowed methods; empty for GET, HEAD and POST.
    pub allow_methods: Vec<String>,
    /// Allowed request headers.
    pub allow_headers: Vec<String>,
    /// Response headers that are exposed to the client.
    pub expose_headers: Vec<String>,
    /// Seconds for which a preflight answer may be cached.
    pub max_age: u32,
    /// Whether credentials are allowed, with the header
    /// `Access-Control-Allow-Credentials: true`.
    pub allow_credentials: bool,
}

/// A redirect: a status and a template of the `Location` header.
#[derive(Debug)]
pub struct RedirectAction {
    /// HTTP redirect status.
    pub status: u16,
    /// Template, with the placeholders `${scheme}`, `${host}`, `${path}`,
    /// `${path_suffix}` and `${query}`.
    pub location: String,
}

/// A header that is set or added.
#[derive(Debug)]
pub struct HeaderNameValue {
    /// Field name, whose letter case is ignored.
    pub name: String,
    /// Field value.
    pub value: String,
}

/// Header changes.
#[derive(Debug)]
pub struct RequestHeaderModifier {
    /// Headers to overwrite.
    pub set: Vec<HeaderNameValue>,
    /// Headers to append.
    pub add: Vec<HeaderNameValue>,
    /// Names of headers to remove.
    pub remove: Vec<String>,
}

impl Route {
    /// Whether nothing but the path prefix and the cluster may be set.
    pub open spec fn is_plain(self) -> bool {
        &&& self.path_exact is None
        &&& self.path_regex is None
        &&& self.methods is None
        &&& self.host is None
        &&& self.headers is None
        &&& self.query_params is None
        &&& self.redirect is None
        &&& self.request_header_modifier is None
        &&& self.response_header_modifier is None
        &&& self.url_rewrite_hostname is None
        &&& self.url_rewrite_path_full is None
        &&& self.url_rewrite_path_prefix is None
        &&& self.request_timeout_ms == 0
        &&& self.backend_timeout_ms == 0
        &&& !self.invalid_backend_ref
        &&& !self.grpc_route
        &&& self.cors is None
    }
}

impl Default for Route {
    fn default() -> (r: Self)
        ensures
            r.is_plain(),
            r.path_prefix@ == Seq::<char>::empty(),
            r.cluster@ == Seq::<char>::empty(),
    {
        let path_prefix = String::new();
        let cluster = String::new();
        assert(path_prefix@ =~= Seq::<char>::empty());
        assert(cluster@ =~= Seq::<char>::empty());
        Route {
            path_prefix,
            path_exact: None,
            path_regex: None,
            methods: None,
            host: None,
            headers: None,
            query_params: None,
            redirect: None,
            request_header_modifier: None,
            response_header_modifier: None,
            url_rewrite_hostname: None,
            url_rewrite_path_full: None,
            url_rewrite_path_prefix: None,
            request_timeout_ms: 0,
            backend_timeout_ms: 0,
            invalid_backend_ref: false,
            grpc_route: false,
            cors: None,
            cluster,
        }
    }
}

/// Header changes as mathematical data.
pub struct HeaderChanges {
    pub set: Seq<(Seq<char>, Seq<char>)>,
    pub add: Seq<(Seq<char>, Seq<char>)>,
    pub remove: Seq<Seq<char>>,
}

/// Names and values of headers.
pub open spec fn named_values(headers: Seq<HeaderNameValue>) -> Seq<(Seq<char>, Seq<char>)> {
    headers.map_values(|h: HeaderNameValue| (h.name@, h.value@))
}

impl View for RequestHeaderModifier {
    type V = HeaderChanges;

    open spec fn view(&self) -> HeaderChanges {
        HeaderChanges {
            set: named_values(self.set@),
            add: named_values(self.add@),
            remove: crate::text::views(self.remove@),
        }
    }
}

/// A copy of a list of headers.
pub fn copy_headers(headers: &Vec<HeaderNameValue>) -> (r: Vec<HeaderNameValue>)
    ensures
        named_values(r@) == named_values(headers@),
{
    let mut out: Vec<HeaderNameValue> = Vec::new();
    let mut i: usize = 0;
    while i < headers.len()
        invariant
            i <= headers@.len(),
            out@.len() == i,
            forall|k: int|
                0 <= k < i ==> (#[trigger] out@[k]).name@ == headers@[k].name@ && out@[k].value@
                    == headers@[k].value@,
        decreases headers@.len() - i,
    {
        out.push(
            HeaderNameValue { name: headers[i].name.clone(), value: headers[i].value.clone() },
        );
        i = i + 1;
    }
    assert(named_values(out@) =~= named_values(headers@));
    out
}

impl RequestHeaderModifier {
    /// A copy of these changes.
    pub fn copy(&self) -> (r: Self)
        ensures
            r@ == self@,
    {
        let remove = crate::text::copy_texts(&self.remove);
        RequestHeaderModifier { set: copy_headers(&self.set), add: copy_headers(&self.add), remove }
    }
}

} // verus!
