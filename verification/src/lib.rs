//! A single-process persistent key-value store backed by a write-ahead log.
//!
//! Every mutation is recorded as one binary entry in an append-only log, and
//! the in-memory map is reconstructed by replaying that log from the start.
//! The library holds the log as bytes and hands every record it appends back
//! to the caller, who is responsible for mirroring those bytes to a file.

pub mod codec;
pub mod error;
pub mod kv_store;
pub mod wal;
