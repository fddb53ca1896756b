//! A log-structured, single-writer key-value store.
//!
//! The store keeps an append-only log of commands, split into segments, and an
//! in-memory index from each key to the location of its most recent live
//! record.  Replaying the log from the first segment onwards rebuilds the
//! index, which is how the store recovers after a restart.  Compaction
//! rewrites the live records into a fresh segment and drops everything stale.
//!
//! The store works on plain bytes: it owns the segment images and leaves the
//! actual file reads and writes to its caller, who persists `snapshot` after
//! each mutation and hands the files back to `open` on the next start.  Every
//! operation is specified against the map the log replays to, and the record
//! format, the index, recovery and compaction are verified against that
//! model.

use vstd::prelude::*;

pub mod codec;
pub mod engine;
pub mod index;
pub mod log;

pub use crate::engine::KvStore;

verus! {

/// The errors the store reports.
///
/// `IoFailure` and `CorruptRecord` describe a log that cannot be read as
/// requested; `KeyNotFound` is the expected answer to removing an absent key;
/// `AlreadyOpen` is reserved for callers that guard a store directory with a
/// lock and find it taken.
#[derive(Clone, Copy, Debug, PartialEq, Eq, Structural)]
pub enum KvError {
    IoFailure,
    CorruptRecord,
    KeyNotFound,
    AlreadyOpen,
}

} // verus!
