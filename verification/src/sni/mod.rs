//! TLS server names: validation, matching, certificate selection and routing.

pub mod cert;
pub mod laws;
pub mod matcher;
pub mod name;
pub mod router;
