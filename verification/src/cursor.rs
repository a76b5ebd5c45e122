//! Bounds-checked little-endian typed reads over an in-memory byte buffer.
use vstd::prelude::*;

use crate::FormatError;

verus! {

/// Little-endian value of the `n` bytes of `s` starting at `off`.
pub open spec fn le_at(s: Seq<u8>, off: int, n: nat) -> int
    decreases n,
{
    if n == 0 {
        0
    } else {
        s[off] + 256 * le_at(s, off + 1, (n - 1) as nat)
    }
}

/// `256^n`, the number of values `n` bytes can take.
pub open spec fn pow256(n: nat) -> int
    decreases n,
{
    if n == 0 {
        1
    } else {
        256 * pow256((n - 1) as nat)
    }
}

/// The little-endian value of `n` in-bounds bytes is nonnegative and below `256^n`.
pub proof fn lemma_le_at_bound(s: Seq<u8>, off: int, n: nat)
    requires
        0 <= off,
        off + n <= s.len(),
    ensures
        0 <= le_at(s, off, n) < pow256(n),
    decreases n,
{
    if n > 0 {
        lemma_le_at_bound(s, off + 1, (n - 1) as nat);
    }
}

/// The byte-count bounds the word-sized reads rely on.
pub proof fn lemma_pow256_words()
    ensures
        pow256(2) == 0x1_0000,
        pow256(4) == 0x1_0000_0000,
        pow256(8) == 0x1_0000_0000_0000_0000,
{
    assert(pow256(0) == 1);
    assert(pow256(1) == 256);
    assert(pow256(2) == 0x1_0000);
    assert(pow256(3) == 0x100_0000);
    assert(pow256(4) == 0x1_0000_0000);
    assert(pow256(5) == 0x100_0000_0000);
    assert(pow256(6) == 0x1_0000_0000_0000);
    assert(pow256(7) == 0x100_0000_0000_0000);
    assert(pow256(8) == 0x1_0000_0000_0000_0000);
}

/// Reads the little-endian `u16` at `off`.
pub fn read_u16_le_at(data: &[u8], off: usize) -> (r: u16)
    requires
        off + 2 <= data@.len(),
    ensures
        r == le_at(data@, off as int, 2),
{
    proof {
        lemma_pow256_words();
        lemma_le_at_bound(data@, off as int, 2);
        reveal_with_fuel(le_at, 3);
    }
    let b0 = data[off] as u16;
    let b1 = data[off + 1] as u16;
    b0 + 256 * b1
}

/// Reads the little-endian `u32` at `off`.
pub fn read_u32_le_at(data: &[u8], off: usize) -> (r: u32)
    requires
        off + 4 <= data@.len(),
    ensures
        r == le_at(data@, off as int, 4),
{
    proof {
        lemma_pow256_words();
        lemma_le_at_bound(data@, off as int, 4);
        reveal_with_fuel(le_at, 5);
    }
    let b0 = data[off] as u32;
    let b1 = data[off + 1] as u32;
    let b2 = data[off + 2] as u32;
    let b3 = data[off + 3] as u32;
    b0 + 256 * (b1 + 256 * (b2 + 256 * b3))
}

/// Reads the little-endian `u64` at `off`.
pub fn read_u64_le_at(data: &[u8], off: usize) -> (r: u64)
    requires
        off + 8 <= data@.len(),
    ensures
        r == le_at(data@, off as int, 8),
{
    proof {
        lemma_pow256_words();
        lemma_le_at_bound(data@, off as int, 8);
        reveal_with_fuel(le_at, 9);
    }
    let b0 = data[off] as u64;
    let b1 = data[off + 1] as u64;
    let b2 = data[off + 2] as u64;
    let b3 = data[off + 3] as u64;
    let b4 = data[off + 4] as u64;
    let b5 = data[off + 5] as u64;
    let b6 = data[off + 6] as u64;
    let b7 = data[off + 7] as u64;
    b0 + 256 * (b1 + 256 * (b2 + 256 * (b3 + 256 * (b4 + 256 * (b5 + 256 * (b6 + 256 * b7))))))
}

/// A typed little-endian reader over a borrowed byte buffer.  Every read is
/// bounds-checked and fails with `FormatError::Truncated` instead of reading
/// out of bounds; a successful read advances the position.
pub struct BinaryCursor<'a> {
    pub data: &'a [u8],
    pub pos: usize,
}

impl<'a> BinaryCursor<'a> {
    /// The cursor never points past the end of its buffer.
    pub open spec fn wf(self) -> bool {
        self.pos <= self.data@.len()
    }

    /// Starts a cursor at the given offset, which must be within the buffer.
    pub fn new(data: &'a [u8], pos: usize) -> (r: Self)
        requires
            pos <= data@.len(),
        ensures
            r.wf(),
            r.data@ == data@,
            r.pos == pos,
    {
        BinaryCursor { data, pos }
    }

    /// Reads the little-endian `u16` at the current position and advances by two.
    pub fn read_u16(&mut self) -> (r: Result<u16, FormatError>)
        requires
            old(self).wf(),
        ensures
            final(self).wf(),
            final(self).data@ == old(self).data@,
            old(self).pos + 2 <= old(self).data@.len() ==> r == Ok::<u16, FormatError>(
                le_at(old(self).data@, old(self).pos as int, 2) as u16,
            ) && final(self).pos == old(self).pos + 2,
            old(self).pos + 2 > old(self).data@.len() ==> r == Err::<u16, FormatError>(
                FormatError::Truncated,
            ) && final(self).pos == old(self).pos,
    {
        if self.data.len() - self.pos < 2 {
            return Err(FormatError::Truncated);
        }
        proof {
            lemma_pow256_words();
            lemma_le_at_bound(self.data@, self.pos as int, 2);
        }
        let r = read_u16_le_at(self.data, self.pos);
        self.pos = self.pos + 2;
        Ok(r)
    }

    /// Reads the little-endian `u32` at the current position and advances by four.
    pub fn read_u32(&mut self) -> (r: Result<u32, FormatError>)
        requires
            old(self).wf(),
        ensures
            final(self).wf(),
            final(self).data@ == old(self).data@,
            old(self).pos + 4 <= old(self).data@.len() ==> r == Ok::<u32, FormatError>(
                le_at(old(self).data@, old(self).pos as int, 4) as u32,
            ) && final(self).pos == old(self).pos + 4,
            old(self).pos + 4 > old(self).data@.len() ==> r == Err::<u32, FormatError>(
                FormatError::Truncated,
            ) && final(self).pos == old(self).pos,
    {
        if self.data.len() - self.pos < 4 {
            return Err(FormatError::Truncated);
        }
        proof {
            lemma_pow256_words();
            lemma_le_at_bound(self.data@, self.pos as int, 4);
        }
        let r = read_u32_le_at(self.data, self.pos);
        self.pos = self.pos + 4;
        Ok(r)
    }

    /// Reads the little-endian `u64` at the current position and advances by eight.
    pub fn read_u64(&mut self) -> (r: Result<u64, FormatError>)
        requires
            old(self).wf(),
        ensures
            final(self).wf(),
            final(self).data@ == old(self).data@,
            old(self).pos + 8 <= old(self).data@.len() ==> r == Ok::<u64, FormatError>(
                le_at(old(self).data@, old(self).pos as int, 8) as u64,
            ) && final(self).pos == old(self).pos + 8,
            old(self).pos + 8 > old(self).data@.len() ==> r == Err::<u64, FormatError>(
                FormatError::Truncated,
            ) && final(self).pos == old(self).pos,
    {
        if self.data.len() - self.pos < 8 {
            return Err(FormatError::Truncated);
        }
        proof {
            lemma_pow256_words();
            lemma_le_at_bound(self.data@, self.pos as int, 8);
        }
        let r = read_u64_le_at(self.data, self.pos);
        self.pos = self.pos + 8;
        Ok(r)
    }
}

} // verus!
