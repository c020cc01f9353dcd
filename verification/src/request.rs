//! HTTP requests as the filters see them.

use vstd::prelude::*;

use crate::route::RequestHeaderModifier;
use crate::text::lower;

verus! {

/// `http::HeaderMap`: header values by header name.
#[verifier::external_type_specification]
#[verifier::external_body]
#[verifier::reject_recursive_types(T)]
pub struct ExHeaderMap<T>(http::HeaderMap<T>);

/// `http::HeaderValue`: the bytes of a header value.
#[verifier::external_type_specification]
#[verifier::external_body]
pub struct ExHeaderValue(http::HeaderValue);

/// What an `http::HeaderMap` holds: for each header name that is present, in
/// lowercase, its values in the order in which they were added. A value is
/// given by its text, or `None` where it is not made of visible ASCII
/// characters, spaces and tabs alone.
pub uninterp spec fn header_lines(headers: http::HeaderMap<http::HeaderValue>) -> Map<
    Seq<char>,
    Seq<Option<Seq<char>>>,
>;

/// The values at a header name, whose letter case is ignored.
pub open spec fn values_at(lines: Map<Seq<char>, Seq<Option<Seq<char>>>>, name: Seq<char>) -> Seq<
    Option<Seq<char>>,
> {
    if lines.contains_key(lower(name)) {
        lines[lower(name)]
    } else {
        Seq::empty()
    }
}

/// The text of the first value at a header name, if there is one and it is
/// readable.
pub open spec fn text_at(lines: Map<Seq<char>, Seq<Option<Seq<char>>>>, name: Seq<char>) -> Option<
    Seq<char>,
> {
    if values_at(lines, name).len() > 0 {
        values_at(lines, name)[0]
    } else {
        None
    }
}

pub open spec fn option_views(values: Seq<Option<String>>) -> Seq<Option<Seq<char>>> {
    values.map_values(
        |v: Option<String>|
            match v {
                Some(t) => Some(t@),
                None => None,
            },
    )
}

/// `http::HeaderMap::get_all` with `http::HeaderValue::to_str` on each value:
/// the values at a name, in the order in which they were added.
#[verifier::external_body]
pub(crate) fn header_values(headers: &http::HeaderMap<http::HeaderValue>, name: &str) -> (r: Vec<
    Option<String>,
>)
    ensures
        option_views(r@) == values_at(header_lines(*headers), name@),
{
    headers.get_all(name).iter().map(|v| v.to_str().ok().map(str::to_owned)).collect()
}

/// `http::HeaderMap::get` with `http::HeaderValue::to_str`: the text of the
/// first value at a name.
#[verifier::external_body]
pub(crate) fn header_text(headers: &http::HeaderMap<http::HeaderValue>, name: &str) -> (r: Option<String>)
    ensures
        match r {
            Some(t) => text_at(header_lines(*headers), name@) == Some(t@),
            None => text_at(header_lines(*headers), name@) is None,
        },
{
    headers.get(name).and_then(|v| v.to_str().ok()).map(str::to_owned)
}

/// The URI of a request, in parts.
#[derive(Debug)]
pub struct Uri {
    pub scheme: Option<String>,
    pub authority: Option<String>,
    pub path: String,
    /// What follows the question mark.
    pub query: Option<String>,
}

/// A request.
pub struct Request {
    pub method: String,
    pub uri: Uri,
    pub headers: http::HeaderMap<http::HeaderValue>,
}

impl Request {
    /// What the request's headers hold.
    pub open spec fn lines(self) -> Map<Seq<char>, Seq<Option<Seq<char>>>> {
        header_lines(self.headers)
    }
}

/// A header change that is still to be made on the request.
#[derive(Debug)]
pub enum PendingRequestHeaderOp {
    RemoveHeader(String),
    SetHeader(String, String),
    AddHeader(String, String),
}

/// A request while the filters work on it.
pub struct HttpFilterContext<'a> {
    pub request: &'a Request,
    /// Path to use in place of the request's.
    pub rewritten_path: Option<String>,
    /// Host to send upstream in place of the request's.
    pub rewritten_host: Option<String>,
    /// The cluster that serves the request.
    pub cluster: Option<String>,
    /// Headers to set on the upstream request; an empty value removes.
    pub extra_request_headers: Vec<(String, String)>,
    pub pending_request_header_ops: Vec<PendingRequestHeaderOp>,
    pub response_header_modifier: Option<RequestHeaderModifier>,
    /// Milliseconds from now within which the request has to be done.
    pub request_timeout_ms: Option<u64>,
}

impl<'a> HttpFilterContext<'a> {
    /// The context of a request that no filter has seen.
    pub fn new(request: &'a Request) -> (r: Self)
        ensures
            r.request == request,
            r.rewritten_path is None,
            r.rewritten_host is None,
            r.cluster is None,
            r.extra_request_headers@.len() == 0,
            r.pending_request_header_ops@.len() == 0,
            r.response_header_modifier is None,
            r.request_timeout_ms is None,
    {
        HttpFilterContext {
            request,
            rewritten_path: None,
            rewritten_host: None,
            cluster: None,
            extra_request_headers: Vec::new(),
            pending_request_header_ops: Vec::new(),
            response_header_modifier: None,
            request_timeout_ms: None,
        }
    }
}

} // verus!
