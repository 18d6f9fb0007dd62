//! A persistent, log-structured key/value store.
//!
//! Mutations are appended as records to write-ahead segment files; an
//! in-memory key directory points each live key at the record that most
//! recently set it.  Rotation bounds the active segment's size and
//! compaction merges obsolete segments.  A length-prefixed wire protocol
//! carries get/set/delete requests between a client and a server.

pub mod chars;
pub mod client;
pub mod engine;
pub mod error;
pub mod messages;
pub mod record;
pub mod server;
pub mod store;
pub mod wal;

use vstd::prelude::*;

verus! {

/// A command a user can issue, as the command line presents it: read a
/// key, bind a key, delete a key, or compact the log.
#[derive(Debug, Clone, PartialEq, Eq)]
pub enum Command {
    Get { key: String },
    Put { key: String, value: String },
    Del { key: String },
    Compact,
}

} // verus!
