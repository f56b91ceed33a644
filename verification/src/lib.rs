//! An embedded key-value storage engine: an ordered, duplicate-key-capable
//! mapping made durable through a write-ahead log and an on-disk sorted
//! store, consolidated by merge-based compaction.
//!
//! The library works on plain values: the contents of the two backing files
//! are handed in and out as byte vectors, so every rule of the engine is
//! verified here while the host application performs the actual reads,
//! writes and syncs.
use vstd::prelude::*;

pub mod btree;
pub mod codec;
pub mod datum;
pub mod merge;
pub mod multi_map;
pub mod record_file;

pub use btree::{BTree, MAX_MEMORY_ITEMS};
pub use datum::{Datum, DatumKind, DatumModel, Record, RecordModel};
pub use multi_map::MultiMap;
pub use record_file::RecordFile;

verus! {

/// The error kinds of the engine.
///
/// `Io` is reserved for the host application, which performs the actual
/// file operations; the verified core itself never fails with it.
#[derive(Clone, Copy, Debug, PartialEq, Eq, Structural)]
pub enum KvError {
    /// Underlying storage unavailable, permission denied, disk full.
    Io,
    /// A file's length or content is inconsistent with the declared widths.
    Corruption,
    /// A key or value's serialized form exceeds the declared byte width.
    Encoding,
    /// A buffer's bytes do not decode to a valid key or value.
    Decoding,
    /// Building the consolidated store failed partway.
    Compaction,
}

} // verus!
