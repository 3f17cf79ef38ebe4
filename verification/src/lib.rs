//! A log-structured, single-writer persistent key-value storage engine.
//!
//! The engine keeps an append-only log of framed key/value records, an
//! in-memory index from each live key to the location of its value inside
//! the log, a full-log replay that rebuilds the index from the bytes alone,
//! and a compaction pass that rewrites the log keeping only the latest live
//! value per key.
//!
//! The log itself is a sequence of bytes; reading it from and flushing it to
//! durable storage is the caller's concern.

pub mod datafile;
pub mod error;
pub mod key_dir;
pub mod kv;
pub mod log_entry;
