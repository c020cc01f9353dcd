//! JSON bodies: scanning, pointer operations, and their one-pass application.

pub mod arrays;
pub mod capture;
pub mod config;
pub mod error;
pub mod extract;
pub mod filter;
pub mod grammar;
pub mod index;
pub mod laws;
pub mod objects;
pub mod ops;
pub mod output;
pub mod pointer;
pub mod prepass;
pub mod quoted;
pub mod request_ops;
pub mod rewrite;
pub mod scan;
pub mod scan_laws;
pub mod taken;
pub mod tree;
pub mod undo;
pub mod walk;
pub mod walked;
