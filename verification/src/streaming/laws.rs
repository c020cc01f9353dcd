//! What streaming endpoints exchange: which URL names them, and what a request,
//! a response and its chunks hold.

use vstd::prelude::*;
use vstd::utf8::{encode_utf8, is_ascii_chars, is_ascii_chars_encode_utf8};

use crate::number::{decimal, digit, is_dec_digit, law_parse_reads_decimal, lemma_decimal_round_trip, parsed};
use crate::streaming::backend::{frame, hex, last_frame, response_head, Connection, ServeEvent, Stage, Step, MAX_REQUEST};
use crate::streaming::client::{is_200, request_head};
use crate::streaming::header::{body_len, ends_head, head_end, lemma_head_end};
use crate::streaming::total;
use crate::streaming::url::{url_target, UrlFault};
use crate::text_laws::{law_cut_at_first, law_stripped};

verus! {

proof fn lemma_digits(n: nat, c: char)
    requires
        !is_dec_digit(c),
    ensures
        !decimal(n).contains(c),
{
    lemma_decimal_round_trip(n);
    let t = decimal(n);
    if t.contains(c) {
        let k = t.index_of(c);
        assert(is_dec_digit(t[k]));
    }
}

/// A URL names a host, a port, which is 80 where none is written, and a path,
/// which is the root where none is written.
pub proof fn law_url(host: Seq<char>, port: nat, path: Seq<char>)
    requires
        !host.contains('/'),
        !host.contains(':'),
        port <= 65535,
    ensures
        url_target("http://"@ + host) == Ok::<(Seq<char>, nat, Seq<char>), UrlFault>((host, 80, seq!['/'])),
        url_target("http://"@ + (host + seq!['/'] + path)) == Ok::<(Seq<char>, nat, Seq<char>), UrlFault>(
            (host, 80, seq!['/'] + path),
        ),
        url_target("http://"@ + (host + seq![':'] + decimal(port))) == Ok::<
            (Seq<char>, nat, Seq<char>),
            UrlFault,
        >((host, port, seq!['/'])),
        url_target("http://"@ + (host + seq![':'] + decimal(port) + seq!['/'] + path)) == Ok::<
            (Seq<char>, nat, Seq<char>),
            UrlFault,
        >((host, port, seq!['/'] + path)),
{
    reveal_strlit("/");
    assert("/"@ =~= seq!['/']);
    let http = "http://"@;
    let digits = decimal(port);
    let with = host + seq![':'] + digits;
    lemma_digits(port, '/');
    law_parse_reads_decimal(port, 65535);
    law_stripped(http + host, http, host);
    law_stripped(http + (host + seq!['/'] + path), http, host + seq!['/'] + path);
    law_stripped(http + with, http, with);
    law_stripped(http + (with + seq!['/'] + path), http, with + seq!['/'] + path);
    law_cut_at_first(host, '/', path);
    law_cut_at_first(host, ':', digits);
    assert(!with.contains('/')) by {
        if with.contains('/') {
            let k = with.index_of('/');
            if k < host.len() {
                assert(host[k] == '/');
            } else if k > host.len() {
                assert(digits[k - host.len() - 1] == '/');
            }
        }
    }
    law_cut_at_first(with, '/', path);
}

/// A URL of another scheme is refused, and so is one whose port is not a number
/// up to 65535.
pub proof fn law_refused_url(url: Seq<char>, host: Seq<char>, port: Seq<char>)
    requires
        !host.contains('/'),
        !host.contains(':'),
        !port.contains('/'),
    ensures
        !"http://"@.is_prefix_of(url) ==> url_target(url) == Err::<(Seq<char>, nat, Seq<char>), UrlFault>(
            UrlFault::Unsupported,
        ),
        parsed(port, 65535) is None ==> url_target("http://"@ + (host + seq![':'] + port)) == Err::<
            (Seq<char>, nat, Seq<char>),
            UrlFault,
        >(UrlFault::BadPort),
{
    let http = "http://"@;
    let with = host + seq![':'] + port;
    law_stripped(http + with, http, with);
    law_cut_at_first(host, ':', port);
    assert(!with.contains('/')) by {
        if with.contains('/') {
            let k = with.index_of('/');
            if k < host.len() {
                assert(host[k] == '/');
            } else if k > host.len() {
                assert(port[k - host.len() - 1] == '/');
            }
        }
    }
    law_cut_at_first(with, '/', Seq::empty());
}

/// A request asks for the path, names host and port, and ends with a blank line.
pub proof fn law_request(host: Seq<char>, port: u16, path: Seq<char>)
    ensures
        ("GET "@ + path + " HTTP/1.1\r\nHost: "@ + host + ":"@ + decimal(port as nat)).is_prefix_of(
            request_head(host, port, path),
        ),
        seq!['\r', '\n', '\r', '\n'].is_suffix_of(request_head(host, port, path)),
{
    reveal_strlit("\r\nConnection: close\r\n\r\n");
    let front = "GET "@ + path + " HTTP/1.1\r\nHost: "@ + host + ":"@ + decimal(port as nat);
    let all = request_head(host, port, path);
    let end = seq!['\r', '\n', '\r', '\n'];
    assert(all =~= front + "\r\nConnection: close\r\n\r\n"@);
    assert(all.subrange(0, front.len() as int) =~= front);
    assert(all.subrange(all.len() - 4, all.len() as int) =~= end);
}

/// The number that hexadecimal digits write.
pub open spec fn hex_number(s: Seq<char>) -> nat
    decreases s.len(),
{
    if s.len() == 0 {
        0
    } else {
        let c = s.last();
        hex_number(s.drop_last()) * 16 + (if c <= '9' {
            (c as int - '0' as int) as nat
        } else {
            (c as int - 'a' as int + 10) as nat
        })
    }
}

proof fn lemma_hex(n: nat)
    ensures
        hex_number(hex(n)) == n,
        hex(n).len() > 0,
        is_ascii_chars(hex(n)),
        n > 0 ==> hex(n)[0] != '0',
    decreases n,
{
    let last = digit((n % 16) as u8);
    if n < 16 {
        assert(hex(n).drop_last() =~= Seq::<char>::empty());
        assert(hex_number(hex(n).drop_last()) == 0);
        assert(hex(n).last() == last);
    } else {
        lemma_hex(n / 16);
        assert(hex(n).drop_last() =~= hex(n / 16));
        assert(hex(n).last() == last);
        assert forall|i: int| 0 <= i < hex(n).len() implies is_ascii_chars(seq![#[trigger] hex(n)[i]]) by {
            if i < hex(n / 16).len() {
                assert(hex(n)[i] == hex(n / 16)[i]);
            }
        }
    }
}

/// A chunk is its size in hexadecimal, a line end, as many bytes, and a line end.
pub proof fn law_frame(size: nat)
    ensures
        hex_number(hex(size)) == size,
        frame(size).len() == hex(size).len() + 2 + size + 2,
        ({
            let n = hex(size).len() as int;
            let f = frame(size);
            &&& forall|k: int| 0 <= k < n ==> #[trigger] f[k] == hex(size)[k] as u8
            &&& f[n] == 13 && f[n + 1] == 10
            &&& f[n + 2 + size] == 13 && f[n + 3 + size] == 10
        }),
{
    reveal_strlit("\r\n");
    lemma_hex(size);
    let line = hex(size) + "\r\n"@;
    assert(is_ascii_chars(line)) by {
        assert forall|i: int| 0 <= i < line.len() implies is_ascii_chars(seq![#[trigger] line[i]]) by {
            if i < hex(size).len() {
                assert(line[i] == hex(size)[i]);
            }
        }
    }
    is_ascii_chars_encode_utf8(line);
    assert(is_ascii_chars("\r\n"@));
    is_ascii_chars_encode_utf8("\r\n"@);
    let n = hex(size).len() as int;
    let f = frame(size);
    let a = encode_utf8(line);
    let b = encode_utf8("\r\n"@);
    assert forall|k: int| 0 <= k < n implies #[trigger] f[k] == hex(size)[k] as u8 by {
        assert(f[k] == a[k]);
        assert(a[k] == line[k] as u8);
    }
    assert(a[n] == line[n] as u8 && a[n + 1] == line[n + 1] as u8);
    assert(b[0] == "\r\n"@[0] as u8 && b[1] == "\r\n"@[1] as u8);
}

/// The end of a body is a chunk of size zero without bytes.
pub proof fn law_last_frame()
    ensures
        last_frame() == seq![48u8, 13u8, 10u8, 13u8, 10u8],
{
    reveal_strlit("0\r\n\r\n");
    let text = "0\r\n\r\n"@;
    assert(is_ascii_chars(text));
    is_ascii_chars_encode_utf8(text);
    let bytes = encode_utf8(text);
    assert(bytes[0] == text[0] as u8 && bytes[1] == text[1] as u8 && bytes[2] == text[2] as u8 && bytes[3]
        == text[3] as u8 && bytes[4] == text[4] as u8);
    assert(last_frame() =~= seq![48u8, 13u8, 10u8, 13u8, 10u8]);
}

/// The body of a message is what follows its first blank line.
pub proof fn law_body_length(head: Seq<u8>, body: Seq<u8>)
    requires
        ({
            let all = head + seq![13u8, 10u8, 13u8, 10u8] + body;
            forall|k: int| 4 <= k < head.len() + 4 ==> !ends_head(all, k)
        }),
    ensures
        ({
            let all = head + seq![13u8, 10u8, 13u8, 10u8] + body;
            &&& head_end(all) == Some(head.len() as int + 4)
            &&& body_len(all) == body.len()
        }),
{
    let all = head + seq![13u8, 10u8, 13u8, 10u8] + body;
    let end = head.len() as int + 4;
    lemma_head_end(all, 4);
    assert(ends_head(all, end));
}

/// A response reports success where its first line does, in either version.
pub proof fn law_success(rest: Seq<u8>)
    ensures
        is_200(encode_utf8("HTTP/1.1 200"@) + rest),
        is_200(encode_utf8("HTTP/1.0 200"@) + rest),
        !is_200(Seq::empty()),
{
    let a = encode_utf8("HTTP/1.1 200"@);
    let b = encode_utf8("HTTP/1.0 200"@);
    assert((a + rest).subrange(0, a.len() as int) =~= a);
    assert((b + rest).subrange(0, b.len() as int) =~= b);
    reveal_strlit("HTTP/1.1 200");
    reveal_strlit("HTTP/1.0 200");
    assert(is_ascii_chars("HTTP/1.1 200"@));
    assert(is_ascii_chars("HTTP/1.0 200"@));
    is_ascii_chars_encode_utf8("HTTP/1.1 200"@);
    is_ascii_chars_encode_utf8("HTTP/1.0 200"@);
    assert(a.len() == 12 && b.len() == 12);
}

/// A request is read until its head ends; then the response starts with all its
/// chunks left. A peer that closes before, or sends too much, is dropped.
pub proof fn law_request_is_read(c: Connection, data: Vec<u8>)
    requires
        c.stage == Stage::Request,
    ensures
        ({
            let (after, step) = c.next(ServeEvent::Read(data));
            let request = c.request + data@;
            &&& data@.len() == 0 ==> step == Step::Stop && after.stage == Stage::Over
            &&& data@.len() > 0 && head_end(request) is Some ==> step == Step::Write(
                encode_utf8(response_head()),
            ) && after.stage == (Stage::Reply { left: c.chunks, paused: false })
            &&& data@.len() > 0 && head_end(request) is None && request.len() <= MAX_REQUEST ==> step
                == Step::Read && after.stage == Stage::Request && after.request == request
            &&& data@.len() > 0 && head_end(request) is None && request.len() > MAX_REQUEST ==> step
                == Step::Stop && after.stage == Stage::Over
            &&& after.chunks == c.chunks && after.chunk_size == c.chunk_size && after.paced == c.paced
        }),
        c.next(ServeEvent::Failed).1 == Step::Stop,
{
}

/// With a pause, each chunk comes after one; without, chunks follow each other.
/// A connection whose body has ended is dropped.
pub proof fn law_chunks_are_paced(c: Connection, left: u32)
    ensures
        ({
            let before = c.at(Stage::Reply { left, paused: false });
            let paused = c.at(Stage::Reply { left, paused: true });
            &&& left > 0 && c.paced ==> before.after_done() == (paused, Step::Sleep)
            &&& left > 0 ==> paused.after_done() == (
                c.at(Stage::Reply { left: (left - 1) as u32, paused: false }),
                Step::Write(frame(c.chunk_size as nat)),
            )
            &&& left > 0 && !c.paced ==> before.after_done().1 == Step::Write(frame(c.chunk_size as nat))
            &&& left == 0 ==> before.after_done().1 == Step::Write(last_frame())
            &&& c.at(Stage::Ending).after_done().1 == Step::Stop
            &&& c.at(Stage::Over).after_done().1 == Step::Stop
        }),
{
}

/// The sum of sizes counts each of them.
pub proof fn law_total(sizes: Seq<u64>, more: u64)
    ensures
        total(Seq::empty()) == 0,
        total(sizes.push(more)) == total(sizes) + more,
{
    assert(sizes.push(more).drop_last() =~= sizes);
}

} // verus!
