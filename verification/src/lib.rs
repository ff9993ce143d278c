//! A single-file, append-only key-value store.
//!
//! The log is a sequence of length-prefixed records, each carrying a one-byte
//! liveness flag, a key and a value.  Deletion flips the liveness byte of the
//! record in place; compaction rewrites the log with only the live records.
//! The store engine, the record codec, the command dispatcher and the
//! connection-protocol decisions are all verified; file and socket I/O live
//! outside this crate and hand byte buffers and lines in and out.

use vstd::prelude::*;

pub mod codec;
pub mod handler;
pub mod protocol;
pub mod store;
pub mod text;

verus! {

/// Width in bytes of a record's two length fields.
pub const LEN_SIZE: usize = 4;

/// Bytes of a record that precede the key: liveness byte plus two length fields.
pub const HEADER_SIZE: usize = 1 + LEN_SIZE + LEN_SIZE;

/// Why a store operation failed.
///
/// Lock and socket failures never reach this crate: the code that performs
/// I/O classifies and retries them before or after calling in here.
#[derive(Clone, Copy, PartialEq, Eq, Structural, Debug)]
pub enum StoreError {
    /// The key has no live record in the log.
    NotFound,
    /// The log bytes do not parse as a whole number of records.
    Corruption,
    /// A key or value is longer than a 32-bit length field can say.
    Encoding,
}

} // verus!
