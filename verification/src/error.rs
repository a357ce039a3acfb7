//! Error kinds surfaced by the index engine.

use vstd::prelude::*;

use crate::primary::PrimaryError;

verus! {

/// Everything that can go wrong while opening or using the index.
#[derive(Debug, Clone, Copy, PartialEq, Eq)]
pub enum Error {
    /// The log ends before the bytes that the format announces.
    Io,
    /// A bucket number outside the table was used.
    BucketsOutOfBounds,
    /// The index log was written with another bucket bit size:
    /// holds the size found and the size expected.
    IndexWrongBitSize(u8, u8),
    /// The log or the primary's answer contradicts the index's own format.
    IndexCorrupt,
    /// An error propagated unchanged from the primary storage.
    Primary(PrimaryError),
}

} // verus!
