//! Routing of requests to clusters by path, host, headers, method and query.

pub mod answer_laws;
pub mod cors;
pub mod filter;
pub mod laws;
pub mod matching;
