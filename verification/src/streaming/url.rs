//! URLs of streaming endpoints.

use vstd::prelude::*;

use crate::number::{parse_number, parsed};
use crate::streaming::StreamingError;
use crate::text::{concat, copy_text, split_at_char, split_once, strip_prefix, stripped};

verus! {

/// The authority and the path of what follows the scheme.
pub open spec fn url_parts(rest: Seq<char>) -> (Seq<char>, Seq<char>) {
    match split_once(rest, '/') {
        Some((authority, path)) => (authority, "/"@ + path),
        None => (rest, "/"@),
    }
}

/// The host and the port of an authority; the port is 80 where none is written.
pub open spec fn host_port(authority: Seq<char>) -> Option<(Seq<char>, nat)> {
    match split_once(authority, ':') {
        Some((host, port)) => match parsed(port, 65535) {
            Some(p) => Some((host, p)),
            None => None,
        },
        None => Some((authority, 80)),
    }
}

/// The ways in which a URL is refused.
pub enum UrlFault {
    /// The URL does not start with `http://`.
    Unsupported,
    /// The port is not a port number.
    BadPort,
}

/// The host, port and path that a URL names, or why it is refused.
pub open spec fn url_target(url: Seq<char>) -> Result<(Seq<char>, nat, Seq<char>), UrlFault> {
    match stripped(url, "http://"@) {
        None => Err(UrlFault::Unsupported),
        Some(rest) => match host_port(url_parts(rest).0) {
            None => Err(UrlFault::BadPort),
            Some((host, port)) => Ok((host, port, url_parts(rest).1)),
        },
    }
}

/// The host, port and path of an `http://` URL.
pub fn parse_http_url(url: &str) -> (r: Result<(String, u16, String), StreamingError>)
    ensures
        match url_target(url@) {
            Ok((host, port, path)) => match r {
                Ok(target) => target.0@ == host && target.1 == port && target.2@ == path,
                Err(_) => false,
            },
            Err(UrlFault::Unsupported) => match r {
                Err(StreamingError::UnsupportedUrl(u)) => u@ == url@,
                _ => false,
            },
            Err(UrlFault::BadPort) => match r {
                Err(StreamingError::BadPort(u)) => u@ == url@,
                _ => false,
            },
        },
{
    let rest = match strip_prefix(url, "http://") {
        Some(rest) => rest,
        None => {
            return Err(StreamingError::UnsupportedUrl(copy_text(url)));
        },
    };
    let (authority, path): (String, String) = match split_at_char(rest.as_str(), '/') {
        Some((a, p)) => (a, concat("/", p.as_str())),
        None => (rest.clone(), "/".to_owned()),
    };
    assert(url_parts(rest@) == (authority@, path@));
    match split_at_char(authority.as_str(), ':') {
        Some((host, port)) => match parse_number(port.as_str(), 65535) {
            Some(p) => Ok((host, p as u16, path)),
            None => Err(StreamingError::BadPort(copy_text(url))),
        },
        None => Ok((authority, 80, path)),
    }
}

} // verus!
