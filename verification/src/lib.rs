//! An in-process JSON document store: named collections of documents with
//! secondary equality indexes, an append-only record log that can be replayed,
//! and log compaction.
//!
//! Every operation is a synchronous function on plain values. Reading and
//! writing files, taking locks and measuring time are left to the caller: a
//! mutation hands back the line to append to the log, and creation takes the
//! lines that were read from it.

pub mod assoc;
pub mod codec;
pub mod collection;
pub mod error;
pub mod index;
pub mod json;
pub mod latency;
pub mod laws;
pub mod log;
pub mod order;
pub mod registry;
