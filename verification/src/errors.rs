//! The error taxonomy of the store.

use vstd::prelude::*;

verus! {

/// Everything that can go wrong inside the engine.
#[derive(Clone, Copy, Debug, PartialEq, Eq, Structural)]
pub enum StoreError {
    /// A write was attempted with a key or value longer than 65 535 bytes,
    /// or with an empty key.
    OversizedField,
    /// A record's length prefix begins exactly at the end of the input:
    /// the clean end of a scan.
    UnexpectedEof,
    /// A record's length prefix or body extends past the end of the input.
    TruncatedRecord,
    /// A table's contents do not parse as a well-formed sequence of records
    /// with strictly ascending, non-empty keys.
    MalformedFile,
    /// A file name is not an eight-digit zero-padded index followed by the
    /// `.sstable` suffix, or the same name was offered twice.
    InvalidFileName,
}

} // verus!
