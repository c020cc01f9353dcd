//! One request of a client, and the reading of its response.

use vstd::prelude::*;
use vstd::utf8::encode_utf8;

use crate::number::{decimal, decimal_text};
use crate::streaming::header::{body_len, find_header_end, head_end, law_head_stays, lemma_head_end};
use crate::streaming::StreamingError;
use crate::text::{bytes_of_text, concat3};

verus! {

/// The request that is sent.
pub open spec fn request_head(host: Seq<char>, port: u16, path: Seq<char>) -> Seq<char> {
    "GET "@ + path + " HTTP/1.1\r\nHost: "@ + host + ":"@ + decimal(port as nat)
        + "\r\nConnection: close\r\n\r\n"@
}

/// The request that is sent.
pub fn request_text(host: &str, port: u16, path: &str) -> (r: String)
    ensures
        r@ == request_head(host@, port, path@),
{
    let line = concat3("GET ", path, " HTTP/1.1\r\nHost: ");
    let named = concat3(line.as_str(), host, ":");
    let number = decimal_text(port as u64);
    concat3(named.as_str(), number.as_str(), "\r\nConnection: close\r\n\r\n")
}

/// Whether a response reports success.
pub open spec fn is_200(response: Seq<u8>) -> bool {
    ||| encode_utf8("HTTP/1.1 200"@).is_prefix_of(response)
    ||| encode_utf8("HTTP/1.0 200"@).is_prefix_of(response)
}

fn bytes_start_with(buf: &[u8], prefix: &[u8]) -> (r: bool)
    ensures
        r == prefix@.is_prefix_of(buf@),
{
    let n: usize = prefix.len();
    if buf.len() < n {
        return false;
    }
    let mut i: usize = 0;
    while i < n
        invariant
            n == prefix@.len(),
            n <= buf@.len(),
            i <= n,
            forall|k: int| 0 <= k < i ==> buf@[k] == prefix@[k],
        decreases n - i,
    {
        if buf[i] != prefix[i] {
            assert(buf@.subrange(0, n as int)[i as int] != prefix@[i as int]);
            return false;
        }
        i = i + 1;
    }
    assert(prefix@ =~= buf@.subrange(0, n as int));
    true
}

/// A response while it arrives.
pub struct ResponseReader {
    collected: Vec<u8>,
    header_done: bool,
    started: bool,
}

impl ResponseReader {
    /// What has arrived.
    pub closed spec fn received(self) -> Seq<u8> {
        self.collected@
    }

    /// The two flags tell what has arrived.
    pub closed spec fn wf(self) -> bool {
        &&& self.header_done <==> head_end(self.collected@) is Some
        &&& self.started <==> body_len(self.collected@) > 0
    }

    /// A response of which nothing has arrived.
    pub fn new() -> (r: Self)
        ensures
            r.wf(),
            r.received() == Seq::<u8>::empty(),
    {
        ResponseReader { collected: Vec::new(), header_done: false, started: false }
    }

    /// Take in what was read. The answer says whether it brings the first byte of
    /// the body, which is when the time to first byte is taken.
    pub fn receive(&mut self, data: &[u8]) -> (r: bool)
        requires
            old(self).wf(),
        ensures
            final(self).wf(),
            final(self).received() == old(self).received() + data@,
            r == (body_len(old(self).received()) == 0 && body_len(final(self).received()) > 0),
    {
        let ghost before = self.collected@;
        self.collected.extend_from_slice(data);
        assert(self.collected@ =~= before + data@);
        proof {
            lemma_head_end(before, 4);
            lemma_head_end(self.collected@, 4);
            if head_end(before) is Some {
                law_head_stays(before, data@);
            }
        }
        if !self.header_done {
            match find_header_end(self.collected.as_slice()) {
                Some(end) => {
                    self.header_done = true;
                    if self.collected.len() > end {
                        self.started = true;
                        return true;
                    }
                },
                None => {},
            }
            false
        } else if !self.started && data.len() > 0 {
            self.started = true;
            true
        } else {
            false
        }
    }

    /// The size of the body, as far as it was sent, where the response reports
    /// success.
    pub fn finish(&self) -> (r: Result<u64, StreamingError>)
        ensures
            match r {
                Ok(bytes) => is_200(self.received()) && bytes == body_len(self.received()),
                Err(e) => !is_200(self.received()) && e is Not200,
            },
    {
        let start: usize = match find_header_end(self.collected.as_slice()) {
            Some(end) => end,
            None => self.collected.len(),
        };
        let bytes: u64 = (self.collected.len() - start) as u64;
        let new = bytes_of_text("HTTP/1.1 200");
        let old_version = bytes_of_text("HTTP/1.0 200");
        if !bytes_start_with(self.collected.as_slice(), new.as_slice()) && !bytes_start_with(
            self.collected.as_slice(),
            old_version.as_slice(),
        ) {
            return Err(StreamingError::Not200);
        }
        Ok(bytes)
    }
}

} // verus!
