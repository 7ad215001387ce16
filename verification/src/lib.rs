//! Single-pass aggregation of `<key>;<value>` records: a fixed-point
//! decoder, a fixed-capacity open-addressing hash table keyed by raw bytes,
//! a zero-copy scanner over one contiguous input buffer, and sorted result
//! extraction, each verified against its contract.

use vstd::prelude::*;

pub mod decode;
pub mod extract;
pub mod laws;
pub mod render;
pub mod scan;
pub mod stats;
pub mod text;
pub mod table;

verus! {

/// Errors reported by the aggregation pipeline.
#[derive(Clone, Copy, Debug, PartialEq, Eq, Structural)]
pub enum AggError {
    /// A record does not match `<key>;<value>` with a well-formed value.
    MalformedRecord,
    /// A key exceeds the fixed storage bound of the table.
    KeyTooLong,
    /// A stored key cannot be decoded as text at result extraction.
    KeyNotText,
    /// The number of distinct keys exceeds the table capacity.
    TableFull,
}

/// An error together with the one-based ordinal of the offending item: the
/// record number in input order for scan errors, or the entry number in
/// sorted output order for a key that fails text decoding.
#[derive(Clone, Copy, Debug, PartialEq, Eq, Structural)]
pub struct RecordError {
    pub kind: AggError,
    pub record: u64,
}

} // verus!
