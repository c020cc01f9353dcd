//! Gateway resources, and their translation into a proxy configuration.

pub mod backend;
pub mod bind;
pub mod chain;
pub mod hashing;
pub mod hostname;
pub mod config_laws;
pub mod laws;
pub mod order;
pub mod routes;
pub mod serving;
pub mod translate;
pub mod types;
