//! What a filter decides.

use vstd::prelude::*;

verus! {

/// How a filter touches a body.
#[derive(Clone, Copy, Debug, PartialEq, Eq, Structural)]
pub enum BodyAccess {
    NoAccess,
    ReadOnly,
    ReadWrite,
}

/// How a filter gets a body.
#[derive(Clone, Copy, Debug, PartialEq, Eq, Structural)]
pub enum BodyMode {
    /// As it arrives.
    Stream,
    /// Collected up to a number of bytes, and handed over at its end.
    StreamBuffer { max_bytes: Option<usize> },
}

/// An answer that ends a request.
#[derive(Debug)]
pub struct Rejection {
    /// HTTP status.
    pub status: u16,
    /// Response headers, in order.
    pub headers: Vec<(String, String)>,
}

/// What a filter decides about a request.
#[derive(Debug)]
pub enum FilterAction {
    /// Go on with the next filter.
    Continue,
    /// The body needs no further processing by this filter.
    BodyDone,
    /// End the request with this answer.
    Reject(Rejection),
}

/// A decision as mathematical data.
pub enum Action {
    Continue,
    BodyDone,
    Reject(u16, Seq<(Seq<char>, Seq<char>)>),
}

/// Header names and values.
pub open spec fn header_views(headers: Seq<(String, String)>) -> Seq<(Seq<char>, Seq<char>)> {
    headers.map_values(|h: (String, String)| (h.0@, h.1@))
}

impl FilterAction {
    pub open spec fn model(self) -> Action {
        match self {
            FilterAction::Continue => Action::Continue,
            FilterAction::BodyDone => Action::BodyDone,
            FilterAction::Reject(r) => Action::Reject(r.status, header_views(r.headers@)),
        }
    }
}

/// A bare status as a decision.
pub open spec fn rejects(status: u16) -> Action {
    Action::Reject(status, Seq::empty())
}

impl Rejection {
    /// A rejection with `status` and no headers.
    pub fn with_status(status: u16) -> (r: Self)
        ensures
            r.status == status,
            header_views(r.headers@) == Seq::<(Seq<char>, Seq<char>)>::empty(),
    {
        let headers: Vec<(String, String)> = Vec::new();
        assert(header_views(headers@) =~= Seq::<(Seq<char>, Seq<char>)>::empty());
        Rejection { status, headers }
    }

    /// This rejection with one more header.
    pub fn with_header(self, name: &str, value: &str) -> (r: Self)
        ensures
            r.status == self.status,
            header_views(r.headers@) == header_views(self.headers@).push((name@, value@)),
    {
        let mut headers = self.headers;
        let ghost before = headers@;
        headers.push((name.to_owned(), value.to_owned()));
        assert(header_views(headers@) =~= header_views(before).push((name@, value@)));
        Rejection { status: self.status, headers }
    }

    /// This rejection with more headers.
    pub fn with_headers(self, more: &Vec<(String, String)>) -> (r: Self)
        ensures
            r.status == self.status,
            header_views(r.headers@) == header_views(self.headers@) + header_views(more@),
    {
        let ghost first = header_views(self.headers@);
        let ghost lines = header_views(more@);
        let status: u16 = self.status;
        let mut headers = self.headers;
        assert(first + lines.take(0) =~= first);
        let mut i: usize = 0;
        while i < more.len()
            invariant
                i <= more@.len(),
                lines == header_views(more@),
                header_views(headers@) == first + lines.take(i as int),
            decreases more@.len() - i,
        {
            let ghost held = headers@;
            headers.push((more[i].0.clone(), more[i].1.clone()));
            assert(header_views(headers@) =~= header_views(held).push(lines[i as int]));
            assert(first + lines.take(i + 1) =~= (first + lines.take(i as int)).push(lines[i as int]));
            i = i + 1;
        }
        assert(lines.take(lines.len() as int) =~= lines);
        Rejection { status, headers }
    }
}

/// Reject with a bare status.
pub fn reject(status: u16) -> (r: FilterAction)
    ensures
        r.model() == rejects(status),
{
    FilterAction::Reject(Rejection::with_status(status))
}

} // verus!
