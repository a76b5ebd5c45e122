//! Size oracle for gzip streams: reads the ISIZE trailer and compensates for
//! 32-bit wraparound.
use vstd::prelude::*;

use crate::cursor::le_at;
use crate::cursor::lemma_le_at_bound;
use crate::cursor::lemma_pow256_words;
use crate::cursor::read_u32_le_at;
use crate::FormatError;

verus! {

/// The ISIZE field of a gzip stream: its last four bytes, little-endian.
/// gzip records the original size modulo `2^32`.
pub open spec fn spec_gz_isize(data: Seq<u8>) -> int
    recommends
        data.len() >= 4,
{
    le_at(data, data.len() - 4, 4)
}

/// The size the gzip oracle reports for `data`: the decoded ISIZE value,
/// plus one wraparound of `2^32` when the compressed length itself shows the
/// original cannot have fit in 32 bits (compression never doubles the size).
pub open spec fn spec_gz_size(data: Seq<u8>) -> int
    recommends
        data.len() >= 18,
{
    let isize_val = spec_gz_isize(data);
    let footer_pos = data.len() - 4;
    if 2 * footer_pos > isize_val {
        isize_val
    } else {
        isize_val + 0x1_0000_0000
    }
}

/// Recovers the decompressed size of the gzip stream `data` from its trailer.
/// A stream shorter than a minimal gzip member is rejected.
pub fn calculate_gz_decompressed_size(data: &[u8]) -> (r: Result<u64, FormatError>)
    ensures
        data@.len() < 18 ==> r == Err::<u64, FormatError>(FormatError::TooSmall),
        data@.len() >= 18 ==> r == Ok::<u64, FormatError>(spec_gz_size(data@) as u64),
{
    let n = data.len();
    if n < 18 {
        return Err(FormatError::TooSmall);
    }
    proof {
        lemma_pow256_words();
        lemma_le_at_bound(data@, n - 4, 4);
    }
    let isize_val = read_u32_le_at(data, n - 4) as u64;
    let footer_pos = (n - 4) as u64;
    if footer_pos >= 0x1_0000_0000 || footer_pos * 2 > isize_val {
        Ok(isize_val)
    } else {
        Ok(isize_val + 0x1_0000_0000)
    }
}

} // verus!
