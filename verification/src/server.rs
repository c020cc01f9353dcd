//! Addresses and modes that the environment chooses, and the health server
//! that runs before the proxy does.

use vstd::prelude::*;
use vstd::slice::{slice_subrange, slice_to_vec};
use vstd::utf8::{decode_utf8, encode_utf8, encode_utf8_decode_utf8, encode_utf8_valid_utf8, valid_utf8};

use crate::environment::Environment;
use crate::json_text::utf8_text;
use crate::text::{bytes_of_text, same_text, split, split_text, trim, trim_text};
use crate::text_laws::{law_split_at_separator, law_split_single};

verus! {

/// A variable's value, or a default where it cannot be read.
pub open spec fn value_or(env: Environment, name: Seq<char>, default: Seq<char>) -> Seq<char> {
    match env.value(name) {
        Ok(value) => value,
        Err(_) => default,
    }
}

/// The address of istiod.
pub fn istiod_address(env: &Environment) -> (r: String)
    ensures
        r@ == value_or(*env, "ISTIOD_ADDR"@, "https://istiod.istio-system.svc:15012"@),
{
    match env.var("ISTIOD_ADDR") {
        Ok(address) => address,
        Err(_) => "https://istiod.istio-system.svc:15012".to_owned(),
    }
}

/// The address of the admin and health server.
pub fn admin_address(env: &Environment) -> (r: String)
    ensures
        r@ == value_or(*env, "PRAXIS_ADMIN_ADDR"@, "0.0.0.0:15021"@),
{
    match env.var("PRAXIS_ADMIN_ADDR") {
        Ok(address) => address,
        Err(_) => "0.0.0.0:15021".to_owned(),
    }
}

/// Whether the configuration comes from a Gateway control plane.
pub fn gateway_mode(env: &Environment) -> (r: bool)
    ensures
        r == (env.value("GATEWAY_NAME"@) is Ok),
{
    env.var("GATEWAY_NAME").is_ok()
}

/// The path of the configuration file: that of the command line, or else of the
/// environment.
pub fn config_choice(argument: Option<String>, env: &Environment) -> (r: Option<String>)
    ensures
        match (argument, env.value("PRAXIS_CONFIG"@)) {
            (Some(path), _) => r == Some(path),
            (None, Ok(path)) => r matches Some(p) && p@ == path,
            (None, Err(_)) => r is None,
        },
{
    match argument {
        Some(path) => Some(path),
        None => match env.var("PRAXIS_CONFIG") {
            Ok(path) => Some(path),
            Err(_) => None,
        },
    }
}

/// The place of the first newline, or the end.
pub open spec fn line_end(buf: Seq<u8>, i: int) -> int
    decreases buf.len() - i,
{
    if !(0 <= i < buf.len()) {
        buf.len() as int
    } else if buf[i] == 10 {
        i
    } else {
        line_end(buf, i + 1)
    }
}

/// The first line of a request without surrounding whitespace; empty where it is
/// not valid UTF-8.
pub open spec fn first_line(buf: Seq<u8>) -> Seq<char> {
    let line = buf.take(line_end(buf, 0));
    if valid_utf8(line) {
        trim(decode_utf8(line))
    } else {
        Seq::empty()
    }
}

/// The path of a request: the second word of its first line.
pub open spec fn request_path(buf: Seq<u8>) -> Seq<char> {
    let words = split(first_line(buf), ' ');
    if words.len() >= 2 {
        words[1]
    } else {
        "/"@
    }
}

/// The answer for a path: `/ready` is not yet, and all else is alive.
pub open spec fn preflight_text(path: Seq<char>) -> Seq<char> {
    if path == "/ready"@ {
        "HTTP/1.1 503 Service Unavailable\r\nContent-Type: application/json\r\nContent-Length: 21\r\nConnection: close\r\n\r\n{\"status\":\"starting\"}"@
    } else {
        "HTTP/1.1 200 OK\r\nContent-Type: application/json\r\nContent-Length: 15\r\nConnection: close\r\n\r\n{\"status\":\"ok\"}"@
    }
}

/// The path of a request that starts with `buf`.
pub fn extract_path(buf: &[u8]) -> (r: String)
    ensures
        r@ == request_path(buf@),
{
    let n: usize = buf.len();
    let mut end: usize = 0;
    while end < n && buf[end] != 10
        invariant
            n == buf@.len(),
            end <= n,
            line_end(buf@, 0) == line_end(buf@, end as int),
        decreases n - end,
    {
        end = end + 1;
    }
    let line = slice_subrange(buf, 0, end);
    assert(line@ =~= buf@.take(end as int));
    let text: String = match utf8_text(slice_to_vec(line)) {
        Some(t) => trim_text(t.as_str()),
        None => {
            let empty = String::new();
            assert(empty@ =~= Seq::<char>::empty());
            empty
        },
    };
    assert(text@ == first_line(buf@));
    let words = split_text(text.as_str(), ' ');
    let ghost all = split(text@, ' ');
    assert(all.len() == words@.len());
    if words.len() >= 2 {
        assert(all[1] == words@[1]@);
        words[1].clone()
    } else {
        "/".to_owned()
    }
}

/// The health server's answer to a request that starts with `buf`.
pub fn preflight_response(buf: &[u8]) -> (r: Vec<u8>)
    ensures
        r@ == vstd::utf8::encode_utf8(preflight_text(request_path(buf@))),
{
    let path = extract_path(buf);
    if same_text(path.as_str(), "/ready") {
        bytes_of_text(
            "HTTP/1.1 503 Service Unavailable\r\nContent-Type: application/json\r\nContent-Length: 21\r\nConnection: close\r\n\r\n{\"status\":\"starting\"}",
        )
    } else {
        bytes_of_text(
            "HTTP/1.1 200 OK\r\nContent-Type: application/json\r\nContent-Length: 15\r\nConnection: close\r\n\r\n{\"status\":\"ok\"}",
        )
    }
}

/// The path of a request is the second word of its first line, whatever follows.
pub proof fn law_request_path(line: Seq<char>, rest: Seq<u8>, method: Seq<char>, path: Seq<char>, more: Seq<char>)
    requires
        forall|k: int| 0 <= k < encode_utf8(line).len() ==> #[trigger] encode_utf8(line)[k] != 10,
        trim(line) == method + seq![' '] + path + seq![' '] + more,
        !method.contains(' '),
        !path.contains(' '),
    ensures
        request_path(encode_utf8(line) + seq![10u8] + rest) == path,
        request_path(encode_utf8(line)) == path,
{
    let bytes = encode_utf8(line);
    let all = bytes + seq![10u8] + rest;
    lemma_line_end(bytes, seq![10u8] + rest, 0);
    lemma_line_end(bytes, Seq::empty(), 0);
    assert(all =~= bytes + (seq![10u8] + rest));
    assert(bytes + Seq::<u8>::empty() =~= bytes);
    assert(all.take(bytes.len() as int) =~= bytes);
    assert(bytes.take(bytes.len() as int) =~= bytes);
    encode_utf8_valid_utf8(line);
    encode_utf8_decode_utf8(line);
    law_split_single(method, ' ');
    law_split_single(path, ' ');
    law_split_at_separator(method, ' ', path);
    law_split_at_separator(method + seq![' '] + path, ' ', more);
    let words = split(trim(line), ' ');
    assert(words =~= seq![method, path] + split(more, ' '));
    assert(words[1] == path);
}

proof fn lemma_line_end(bytes: Seq<u8>, rest: Seq<u8>, i: int)
    requires
        0 <= i <= bytes.len(),
        forall|k: int| 0 <= k < bytes.len() ==> #[trigger] bytes[k] != 10,
        rest.len() == 0 || rest[0] == 10,
    ensures
        line_end(bytes + rest, i) == bytes.len(),
    decreases bytes.len() - i,
{
    let all = bytes + rest;
    if i < bytes.len() {
        assert(all[i] == bytes[i]);
        lemma_line_end(bytes, rest, i + 1);
    } else if rest.len() > 0 {
        assert(all[i] == rest[0]);
    }
}

/// Before the proxy runs it is alive and not ready: the answer to a question for
/// readiness is 503, and any other is 200.
pub proof fn law_not_ready_yet(path: Seq<char>)
    ensures
        "HTTP/1.1 503 "@.is_prefix_of(preflight_text("/ready"@)),
        path != "/ready"@ ==> "HTTP/1.1 200 "@.is_prefix_of(preflight_text(path)),
        "{\"status\":\"starting\"}"@.is_suffix_of(preflight_text("/ready"@)),
        path != "/ready"@ ==> "{\"status\":\"ok\"}"@.is_suffix_of(preflight_text(path)),
        "{\"status\":\"starting\"}"@.len() == 21,
        "{\"status\":\"ok\"}"@.len() == 15,
{
    reveal_strlit("HTTP/1.1 503 ");
    reveal_strlit("HTTP/1.1 200 ");
    reveal_strlit("{\"status\":\"starting\"}");
    reveal_strlit("{\"status\":\"ok\"}");
    reveal_strlit("HTTP/1.1 503 Service Unavailable\r\nContent-Type: application/json\r\nContent-Length: 21\r\nConnection: close\r\n\r\n{\"status\":\"starting\"}");
    reveal_strlit("HTTP/1.1 200 OK\r\nContent-Type: application/json\r\nContent-Length: 15\r\nConnection: close\r\n\r\n{\"status\":\"ok\"}");
    let a = preflight_text("/ready"@);
    assert(a.subrange(0, 13) =~= "HTTP/1.1 503 "@);
    assert(a.subrange(a.len() - 21, a.len() as int) =~= "{\"status\":\"starting\"}"@);
    if path != "/ready"@ {
        let b = preflight_text(path);
        assert(b.subrange(0, 13) =~= "HTTP/1.1 200 "@);
        assert(b.subrange(b.len() - 15, b.len() as int) =~= "{\"status\":\"ok\"}"@);
    }
}

/// A value of the environment counts before the default.
pub proof fn law_value_or(env: Environment, name: Seq<char>, default: Seq<char>)
    ensures
        env.value(name) matches Ok(value) ==> value_or(env, name, default) == value,
        env.value(name) is Err ==> value_or(env, name, default) == default,
{
}

} // verus!
