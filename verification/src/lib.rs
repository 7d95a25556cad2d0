//! Core of a small static file server: lexical resolution of captured URL
//! paths against a serving root, deterministic rendering of directory
//! listings, and synthesis of the response for each resolved target.
//!
//! The crate holds no I/O of its own. Callers probe the filesystem and hand
//! the outcomes in as plain values; every decision made on those values is
//! verified here.

pub mod handler;
pub mod path;
pub mod render;
