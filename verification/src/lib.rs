//! Manifest-generation engine for an OS release tree.
//!
//! Three size oracles recover the decompressed size of an artifact by parsing
//! container metadata instead of running the codec to completion: an xz
//! backward-index walker, a gzip trailer reader with 32-bit wraparound
//! compensation, and a SquashFs inode-table walker.  Around them sit a
//! filename classifier, a per-file scan step, an incremental planner that
//! reuses results from a previous manifest, and the assembly of the flat
//! inventory into a versioned manifest grouped by distribution variant.
//!
//! All parsing works over in-memory byte buffers through a bounds-checked
//! little-endian cursor; reading files, mapping them into memory and
//! serializing the finished manifest belong to the callers.
use vstd::prelude::*;

pub mod cursor;
pub mod gz;
pub mod parser;
pub mod redirect;
pub mod scan;
pub mod sqfs;
pub mod xz;
pub mod xz_law;

verus! {

/// Why a binary container was rejected by one of the size oracles.
#[derive(Clone, Copy, Debug, PartialEq, Eq, Structural)]
pub enum FormatError {
    /// The stream length is not a multiple of four (xz streams are 4-byte aligned).
    Misaligned,
    /// The stream is too short to hold the smallest valid container.
    TooSmall,
    /// A read would run past the end of the buffer.
    Truncated,
    /// A base-128 varint would shift past the 64-bit limit.
    BadVarint,
    /// The backward-size field points outside the stream.
    BadBackwardHeader,
    /// The 6-byte xz stream header magic did not match.
    BadStreamHeader,
    /// The SquashFs superblock magic did not match.
    BadMagic,
    /// The SquashFs block size is not two to the power of its block log.
    CorruptBlockSize,
    /// Only SquashFs format version 4.0 is supported.
    UnsupportedVersion,
    /// The declared total byte length exceeds the file's actual length.
    CorruptLength,
    /// A metadata block or inode record was malformed.
    BadRecord,
    /// An accumulated size does not fit the result type.
    Oversize,
}

} // verus!
