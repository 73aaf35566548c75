//! A library for searching the password of an encrypted PKCS#12 archive.
//!
//! Three candidate-generation strategies (dictionary, pattern, brute force)
//! feed a chunked search engine that tests each candidate against the
//! archive and records the first match together with an attempt count.

pub mod args;
pub mod charset;
pub mod container;
pub mod crackers;
pub mod orchestrator;
pub mod text;
pub mod types;
