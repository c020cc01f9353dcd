//! Cross-origin policies of routes: preflight answers and response headers.

use vstd::prelude::*;

use crate::action::{header_views, rejects, Action, FilterAction, Rejection};
use crate::number::{decimal, decimal_text};
use crate::request::{header_text, text_at, Request};
use crate::route::RouteCorsPolicy;
use crate::text::{ends_with, join, join_text, same_text, starts_with, strip_prefix, stripped, views};

verus! {

/// Whether an entry of the allowed origins allows an origin: `*` allows every
/// one, `*.suffix` each that ends with `.suffix` behind something else, and any
/// other entry itself.
pub open spec fn entry_allows(entry: Seq<char>, origin: Seq<char>) -> bool {
    ||| entry == "*"@
    ||| entry == origin
    ||| "*."@.is_prefix_of(entry) && (stripped(entry, "*"@) matches Some(tail) && tail.is_suffix_of(
        origin,
    ) && tail.len() < origin.len())
}

/// Whether a policy allows an origin.
pub open spec fn allows_origin(policy: RouteCorsPolicy, origin: Seq<char>) -> bool {
    exists|k: int|
        0 <= k < policy.allow_origins@.len() && entry_allows(
            (#[trigger] policy.allow_origins@[k])@,
            origin,
        )
}

/// Whether a policy allows every origin.
pub open spec fn allows_all(policy: RouteCorsPolicy) -> bool {
    exists|k: int|
        0 <= k < policy.allow_origins@.len() && (#[trigger] policy.allow_origins@[k])@ == "*"@
}

/// The origin that is named to the client. Where every origin is allowed it is
/// `*`, unless credentials are: then it is the client's own.
pub open spec fn named_origin(policy: RouteCorsPolicy, origin: Seq<char>) -> Seq<char> {
    if allows_all(policy) && !policy.allow_credentials {
        "*"@
    } else {
        origin
    }
}

/// One header, or none.
pub open spec fn header_if(given: bool, name: Seq<char>, value: Seq<char>) -> Seq<
    (Seq<char>, Seq<char>),
> {
    if given {
        seq![(name, value)]
    } else {
        Seq::empty()
    }
}

/// The headers that allow a client's origin.
pub open spec fn origin_headers(policy: RouteCorsPolicy, origin: Seq<char>) -> Seq<
    (Seq<char>, Seq<char>),
> {
    header_if(true, "Access-Control-Allow-Origin"@, named_origin(policy, origin)) + header_if(
        policy.allow_credentials,
        "Access-Control-Allow-Credentials"@,
        "true"@,
    )
}

/// The methods that a policy allows.
pub open spec fn allowed_methods(policy: RouteCorsPolicy) -> Seq<char> {
    if policy.allow_methods@.len() == 0 {
        "GET, HEAD, POST"@
    } else {
        join(views(policy.allow_methods@), ", "@)
    }
}

/// The headers of the answer to a preflight request from `origin`.
pub open spec fn preflight_headers(policy: RouteCorsPolicy, origin: Seq<char>) -> Seq<
    (Seq<char>, Seq<char>),
> {
    if allows_origin(policy, origin) {
        origin_headers(policy, origin) + header_if(
            true,
            "Access-Control-Allow-Methods"@,
            allowed_methods(policy),
        ) + header_if(
            policy.allow_headers@.len() > 0,
            "Access-Control-Allow-Headers"@,
            join(views(policy.allow_headers@), ", "@),
        ) + header_if(true, "Access-Control-Max-Age"@, decimal(policy.max_age as nat))
    } else {
        Seq::empty()
    }
}

/// The answer to a preflight request: one with the method OPTIONS, an origin
/// and a method that it asks for.
pub open spec fn preflight(policy: RouteCorsPolicy, request: Request) -> Option<Action> {
    if request.method@ == "OPTIONS"@ && text_at(request.lines(), "access-control-request-method"@) is Some {
        match text_at(request.lines(), "origin"@) {
            Some(origin) => Some(Action::Reject(204, preflight_headers(policy, origin))),
            None => None,
        }
    } else {
        None
    }
}

/// The headers that a policy sets on the response to a request.
pub open spec fn response_headers(policy: RouteCorsPolicy, request: Request) -> Seq<
    (Seq<char>, Seq<char>),
> {
    match text_at(request.lines(), "origin"@) {
        Some(origin) => if allows_origin(policy, origin) {
            origin_headers(policy, origin) + header_if(
                policy.expose_headers@.len() > 0,
                "Access-Control-Expose-Headers"@,
                join(views(policy.expose_headers@), ", "@),
            )
        } else {
            Seq::empty()
        },
        None => Seq::empty(),
    }
}

fn entry_allows_origin(entry: &str, origin: &str) -> (r: bool)
    ensures
        r == entry_allows(entry@, origin@),
{
    if same_text(entry, "*") || same_text(entry, origin) {
        return true;
    }
    if !starts_with(entry, "*.") {
        return false;
    }
    match strip_prefix(entry, "*") {
        Some(tail) => ends_with(origin, tail.as_str()) && tail.as_str().unicode_len()
            < origin.unicode_len(),
        None => false,
    }
}

fn origin_is_allowed(policy: &RouteCorsPolicy, origin: &str) -> (r: bool)
    ensures
        r == allows_origin(*policy, origin@),
{
    let mut i: usize = 0;
    while i < policy.allow_origins.len()
        invariant
            i <= policy.allow_origins@.len(),
            forall|k: int| 0 <= k < i ==> !entry_allows((#[trigger] policy.allow_origins@[k])@, origin@),
        decreases policy.allow_origins@.len() - i,
    {
        if entry_allows_origin(policy.allow_origins[i].as_str(), origin) {
            return true;
        }
        i = i + 1;
    }
    false
}

fn every_origin_is_allowed(policy: &RouteCorsPolicy) -> (r: bool)
    ensures
        r == allows_all(*policy),
{
    let mut i: usize = 0;
    while i < policy.allow_origins.len()
        invariant
            i <= policy.allow_origins@.len(),
            forall|k: int| 0 <= k < i ==> (#[trigger] policy.allow_origins@[k])@ != "*"@,
        decreases policy.allow_origins@.len() - i,
    {
        if same_text(policy.allow_origins[i].as_str(), "*") {
            return true;
        }
        i = i + 1;
    }
    false
}

/// An answer with the headers that allow an origin.
fn allow_origin(policy: &RouteCorsPolicy, origin: &str) -> (r: Rejection)
    ensures
        r.status == 204,
        header_views(r.headers@) == origin_headers(*policy, origin@),
{
    let named: &str = if every_origin_is_allowed(policy) && !policy.allow_credentials {
        "*"
    } else {
        origin
    };
    let mut r = Rejection::with_status(204).with_header("Access-Control-Allow-Origin", named);
    if policy.allow_credentials {
        r = r.with_header("Access-Control-Allow-Credentials", "true");
    }
    assert(header_views(r.headers@) =~= origin_headers(*policy, origin@));
    r
}

/// Answer a preflight request.
pub fn answer_preflight(policy: &RouteCorsPolicy, request: &Request) -> (r: Option<FilterAction>)
    ensures
        match preflight(*policy, *request) {
            Some(answer) => r matches Some(action) && action.model() == answer,
            None => r is None,
        },
{
    if !same_text(request.method.as_str(), "OPTIONS") {
        return None;
    }
    if header_text(&request.headers, "access-control-request-method").is_none() {
        return None;
    }
    let origin: String = match header_text(&request.headers, "origin") {
        Some(origin) => origin,
        None => return None,
    };
    if !origin_is_allowed(policy, origin.as_str()) {
        return Some(FilterAction::Reject(Rejection::with_status(204)));
    }
    let methods: String = if policy.allow_methods.len() == 0 {
        "GET, HEAD, POST".to_owned()
    } else {
        join_text(&policy.allow_methods, ", ")
    };
    let mut r = allow_origin(policy, origin.as_str()).with_header(
        "Access-Control-Allow-Methods",
        methods.as_str(),
    );
    if policy.allow_headers.len() > 0 {
        let names = join_text(&policy.allow_headers, ", ");
        r = r.with_header("Access-Control-Allow-Headers", names.as_str());
    }
    let age = decimal_text(policy.max_age as u64);
    let r = r.with_header("Access-Control-Max-Age", age.as_str());
    assert(header_views(r.headers@) =~= preflight_headers(*policy, origin@));
    Some(FilterAction::Reject(r))
}

/// The headers that a policy sets on the response to a request.
pub fn headers_of_response(policy: &RouteCorsPolicy, request: &Request) -> (r: Vec<(String, String)>)
    ensures
        header_views(r@) == response_headers(*policy, *request),
{
    match header_text(&request.headers, "origin") {
        Some(origin) => if origin_is_allowed(policy, origin.as_str()) {
            let mut r = allow_origin(policy, origin.as_str());
            if policy.expose_headers.len() > 0 {
                let names = join_text(&policy.expose_headers, ", ");
                r = r.with_header("Access-Control-Expose-Headers", names.as_str());
            }
            assert(header_views(r.headers@) =~= response_headers(*policy, *request));
            r.headers
        } else {
            let r: Vec<(String, String)> = Vec::new();
            assert(header_views(r@) =~= Seq::empty());
            r
        },
        None => {
            let r: Vec<(String, String)> = Vec::new();
            assert(header_views(r@) =~= Seq::empty());
            r
        },
    }
}

/// An origin that a policy does not allow gets no cross-origin header.
pub proof fn law_other_origin_gets_no_headers(policy: RouteCorsPolicy, request: Request)
    requires
        text_at(request.lines(), "origin"@) matches Some(origin) && !allows_origin(policy, origin),
    ensures
        response_headers(policy, request) == Seq::<(Seq<char>, Seq<char>)>::empty(),
        preflight(policy, request) matches Some(answer) ==> answer == rejects(204),
{
}

} // verus!
