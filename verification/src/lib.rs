//! Core of a plain-HTTP forward proxy: a byte-level request parser with
//! in-place host rewriting and re-serialization, the per-connection policy
//! decisions (blacklists and redirects), and a FIFO job queue that models the
//! worker pool's dispatch discipline.
//!
//! All socket, file and thread handling lives outside this crate; the library
//! works on plain byte buffers and owned values, so that every function here
//! carries a verified contract.

pub mod bytes;
pub mod config;
pub mod http;
pub mod laws;
pub mod pool;
pub mod relay;
