//! Failure kinds shared by every layer of the metadata engine.

use vstd::prelude::*;

verus! {

/// What can go wrong while reading, decoding or mutating metadata.
///
/// Read errors propagate; a write-side error poisons the batcher and every
/// subsequent operation on it reports `Poisoned`.
#[derive(Clone, Copy, Debug, PartialEq, Eq, Structural)]
pub enum MetadataError {
    /// Stored CRC disagrees with the computed one; carries the block number.
    BadChecksum(u64),
    /// The byte slice is shorter than the fixed on-disk layout demands.
    ShortBuffer,
    /// The block's magic number does not identify the expected schema.
    BadMagic,
    /// The superblock's format version is not the supported one.
    VersionMismatch,
    /// A B-tree lookup reached a leaf that does not hold the key.
    NotFound,
    /// The space map holds no block with reference count zero.
    OutOfSpace,
    /// The I/O layer reported a failure for this block.
    IoError,
    /// A structural invariant of the on-disk data does not hold.
    Corrupt,
    /// A previous write failure; the batcher refuses further work.
    Poisoned,
}

} // verus!
