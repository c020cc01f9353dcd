//! Signatures of requests and of links.

pub mod mac;
pub mod secret;
pub mod hmac_verify;
pub mod laws;
pub mod signed_url;
