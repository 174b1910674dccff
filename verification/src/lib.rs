//! An authenticated-encrypted key/value store built on a log-structured
//! merge design: an ordered in-memory memtable, an append-only write-ahead
//! log of sealed records, and sorted immutable segment files with a sparse
//! index and a fixed-size footer.
//!
//! Keys and values are byte strings; every value on disk is sealed with
//! AES-256-GCM under a key Argon2 derives from the user's password and a
//! salt, with the record's key as additional authenticated data. The
//! outside crypto and codec calls stand behind trusted wrappers whose
//! results are named by uninterpreted spec functions; everything else is
//! specified and verified against byte-level layout functions. The main
//! theorems: a flushed segment parses back to the table it was built from
//! and the bracketed sparse-index lookup finds exactly what the table
//! holds; across segments the newest write wins; replaying a write-ahead
//! log restores the writes it records, and replaying it twice changes
//! nothing further.

use vstd::prelude::*;

pub mod codec;
pub mod encryption;
pub mod memtable;
pub mod segment;
pub mod store;
pub mod wal;
pub mod wire;

verus! {

/// Number of memtable entries at which a flush is handed to the worker.
pub const MAX_MEMTABLE: usize = 4;

/// Size in bytes of the fixed segment footer: two big-endian `u64` region
/// lengths followed by the 16-byte salt.
pub const FOOTER_SIZE: usize = 32;

/// Sparse-index density: one index entry is written for roughly every
/// `record_count / INDEX_DENSITY`-th record.
pub const INDEX_DENSITY: usize = 2;

/// Largest key accepted by the front end, in bytes.
pub const MAX_KEY_LEN: usize = 255;

/// Largest value accepted by the front end, in bytes.
pub const MAX_VALUE_LEN: usize = 255;

} // verus!
