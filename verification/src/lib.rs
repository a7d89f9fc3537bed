//! A verified core for a `head`-style utility: it resolves command-line
//! tokens into a bounded-copy configuration, and computes the byte- or
//! line-bounded prefix of a source's content, together with the header,
//! warning and diagnostic text that surrounds it.
//!
//! All I/O (reading sources, writing standard output) lives outside this
//! crate; every function here is a total computation on plain values and
//! carries a contract that pins its result down.

pub mod args;
pub mod bytes;
pub mod config;
pub mod lines;
pub mod numerals;
pub mod output;
