//! Signed URLs: signature, expiry and key id in the query or in the path.

pub mod canonical;
pub mod config;
pub mod extract;
pub mod filter;
pub mod laws;
pub mod path;
pub mod percent;
pub mod verify;
