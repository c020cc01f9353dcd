//! Measuring how soon a streamed response starts to arrive.
//!
//! A paced backend answers with a chunked body, and clients note when the first
//! byte of the body reaches them.

pub mod backend;
pub mod client;
pub mod header;
pub mod laws;
pub mod url;

use vstd::prelude::*;

use crate::number::{decimal, decimal_text};
use crate::text::{concat, concat3};

verus! {

/// Configuration of a measurement.
#[derive(Debug, Clone)]
pub struct StreamingConfig {
    /// Number of concurrent clients.
    pub concurrency: u32,
    /// Number of body chunks in a response.
    pub chunks: u32,
    /// Pause before each chunk, in milliseconds.
    pub chunk_delay_ms: u64,
    /// Size of each chunk in bytes.
    pub chunk_size: usize,
    /// How long requests are sent, in milliseconds.
    pub duration_ms: u64,
}

/// Why a measurement fails.
#[derive(Debug)]
pub enum StreamingError {
    /// The URL does not start with `http://`.
    UnsupportedUrl(String),
    /// The URL's port is not a port number.
    BadPort(String),
    /// The response has another status than 200.
    Not200,
    /// No request succeeded; this many failed.
    NoSamples(u64),
}

impl StreamingError {
    /// The reason in words.
    pub open spec fn text(self) -> Seq<char> {
        match self {
            StreamingError::UnsupportedUrl(url) => "unsupported url: "@ + url@,
            StreamingError::BadPort(url) => "bad port in url: "@ + url@,
            StreamingError::Not200 => "non-200 response"@,
            StreamingError::NoSamples(errors) => "no successful samples (errors="@ + decimal(
                errors as nat,
            ) + ")"@,
        }
    }

    /// The reason in words.
    pub fn message(&self) -> (r: String)
        ensures
            r@ == self.text(),
    {
        match self {
            StreamingError::UnsupportedUrl(url) => concat("unsupported url: ", url.as_str()),
            StreamingError::BadPort(url) => concat("bad port in url: ", url.as_str()),
            StreamingError::Not200 => "non-200 response".to_owned(),
            StreamingError::NoSamples(errors) => concat3(
                "no successful samples (errors=",
                decimal_text(*errors).as_str(),
                ")",
            ),
        }
    }
}

/// A measurement counts only where at least one request succeeded.
pub fn check_samples(samples: usize, errors: u64) -> (r: Result<(), StreamingError>)
    ensures
        r is Ok <==> samples > 0,
        r matches Err(e) ==> e == StreamingError::NoSamples(errors),
{
    if samples == 0 {
        Err(StreamingError::NoSamples(errors))
    } else {
        Ok(())
    }
}

/// The sum of the body sizes.
pub open spec fn total(sizes: Seq<u64>) -> nat
    decreases sizes.len(),
{
    if sizes.len() == 0 {
        0
    } else {
        total(sizes.drop_last()) + sizes.last() as nat
    }
}

proof fn lemma_total_grows(sizes: Seq<u64>, n: int)
    requires
        0 <= n <= sizes.len(),
    ensures
        total(sizes.take(n)) <= total(sizes),
    decreases sizes.len(),
{
    if n < sizes.len() {
        lemma_total_grows(sizes.drop_last(), n);
        assert(sizes.drop_last().take(n) =~= sizes.take(n));
    } else {
        assert(sizes.take(n) =~= sizes);
    }
}

/// The sum of the body sizes, or `None` where it is too large to count.
pub fn total_bytes(sizes: &Vec<u64>) -> (r: Option<u64>)
    ensures
        match r {
            Some(sum) => sum == total(sizes@),
            None => total(sizes@) > u64::MAX,
        },
{
    let n: usize = sizes.len();
    let mut i: usize = 0;
    let mut sum: u64 = 0;
    while i < n
        invariant
            n == sizes@.len(),
            i <= n,
            sum == total(sizes@.take(i as int)),
        decreases n - i,
    {
        assert(sizes@.take(i as int + 1).drop_last() =~= sizes@.take(i as int));
        proof {
            lemma_total_grows(sizes@, i as int + 1);
        }
        match sum.checked_add(sizes[i]) {
            Some(more) => {
                sum = more;
            },
            None => {
                return None;
            },
        }
        i = i + 1;
    }
    assert(sizes@.take(n as int) =~= sizes@);
    Some(sum)
}

} // verus!
