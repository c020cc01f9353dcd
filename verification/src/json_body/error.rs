//! Errors and limits shared by the JSON scanner and rewriter.

use vstd::prelude::*;

verus! {

/// Maximum object/array nesting while scanning a document.
pub const MAX_JSON_DEPTH: u32 = 128;

/// Why a document could not be processed.
#[derive(Clone, Copy, Debug, PartialEq, Eq, Structural)]
pub enum RewriteError {
    /// The input is not a single JSON value.
    InvalidJson,
    /// Nesting exceeded [`MAX_JSON_DEPTH`].
    Depth,
}

impl RewriteError {
    /// The reason in words.
    pub open spec fn reason(self) -> Seq<char> {
        match self {
            RewriteError::InvalidJson => "invalid JSON"@,
            RewriteError::Depth => "JSON nesting exceeds maximum depth"@,
        }
    }

    /// Human-readable reason for logs and error results.
    pub fn as_str(self) -> (r: &'static str)
        ensures
            r@ == self.reason(),
    {
        match self {
            RewriteError::InvalidJson => "invalid JSON",
            RewriteError::Depth => "JSON nesting exceeds maximum depth",
        }
    }
}

} // verus!
