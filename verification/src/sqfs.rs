//! Size oracle for SquashFs images: parses the superblock, decompresses the
//! inode metadata table block by block, and walks the inode records to sum
//! the sizes of all regular files.
use vstd::prelude::*;

use crate::cursor::le_at;
use crate::cursor::lemma_le_at_bound;
use crate::cursor::lemma_pow256_words;
use crate::cursor::read_u16_le_at;
use crate::cursor::read_u32_le_at;
use crate::cursor::read_u64_le_at;
use crate::cursor::BinaryCursor;
use crate::FormatError;

verus! {

/// The fixed-layout SquashFs superblock.
#[derive(Debug, Copy, Clone)]
pub struct SqsSuper {
    pub magic: u32,
    pub inode: u32,
    pub mtime: u32,
    pub blksize: u32,
    pub frag: u32,
    pub compression: u16,
    pub blklog: u16,
    pub flags: u16,
    pub ids: u16,
    pub ver_major: u16,
    pub ver_minor: u16,
    pub root_inode: u64,
    pub bytes: u64,
    pub id_tbl: u64,
    pub xattrs_tbl: u64,
    pub inode_tbl: u64,
    pub dir_tbl: u64,
    pub frag_tbl: u64,
    pub export_tbl: u64,
}

/// The superblock encoded in the first 96 bytes of `s`.
pub open spec fn spec_superblock(s: Seq<u8>) -> SqsSuper {
    SqsSuper {
        magic: le_at(s, 0, 4) as u32,
        inode: le_at(s, 4, 4) as u32,
        mtime: le_at(s, 8, 4) as u32,
        blksize: le_at(s, 12, 4) as u32,
        frag: le_at(s, 16, 4) as u32,
        compression: le_at(s, 20, 2) as u16,
        blklog: le_at(s, 22, 2) as u16,
        flags: le_at(s, 24, 2) as u16,
        ids: le_at(s, 26, 2) as u16,
        ver_major: le_at(s, 28, 2) as u16,
        ver_minor: le_at(s, 30, 2) as u16,
        root_inode: le_at(s, 32, 8) as u64,
        bytes: le_at(s, 40, 8) as u64,
        id_tbl: le_at(s, 48, 8) as u64,
        xattrs_tbl: le_at(s, 56, 8) as u64,
        inode_tbl: le_at(s, 64, 8) as u64,
        dir_tbl: le_at(s, 72, 8) as u64,
        frag_tbl: le_at(s, 80, 8) as u64,
        export_tbl: le_at(s, 88, 8) as u64,
    }
}

/// What parsing the superblock of `s` yields: the decoded header after the
/// structural checks, or the first failed check.  The magic must match,
/// the block size must be two to the power of the block log, only format
/// version 4.0 is supported, and the declared total byte length must not
/// exceed the actual length.
pub open spec fn spec_parse_super(s: Seq<u8>) -> Result<SqsSuper, FormatError> {
    if s.len() < 128 {
        Err(FormatError::TooSmall)
    } else {
        let sb = spec_superblock(s);
        if sb.magic != 0x73717368 {
            Err(FormatError::BadMagic)
        } else if !(sb.blklog < 32 && sb.blksize == (1u32 << sb.blklog)) {
            Err(FormatError::CorruptBlockSize)
        } else if sb.ver_major != 4 || sb.ver_minor != 0 {
            Err(FormatError::UnsupportedVersion)
        } else if sb.bytes > s.len() {
            Err(FormatError::CorruptLength)
        } else {
            Ok(sb)
        }
    }
}

/// Parses and validates the fixed-size superblock at the start of `data`.
pub fn parse_super_block(data: &[u8]) -> (r: Result<SqsSuper, FormatError>)
    ensures
        r == spec_parse_super(data@),
{
    if data.len() < 128 {
        return Err(FormatError::TooSmall);
    }
    proof {
        lemma_pow256_words();
        lemma_le_at_bound(data@, 0, 4);
        lemma_le_at_bound(data@, 12, 4);
        lemma_le_at_bound(data@, 22, 2);
        lemma_le_at_bound(data@, 28, 2);
        lemma_le_at_bound(data@, 30, 2);
        lemma_le_at_bound(data@, 40, 8);
    }
    let mut cur = BinaryCursor::new(data, 0);
    let sb = SqsSuper {
        magic: cur.read_u32()?,
        inode: cur.read_u32()?,
        mtime: cur.read_u32()?,
        blksize: cur.read_u32()?,
        frag: cur.read_u32()?,
        compression: cur.read_u16()?,
        blklog: cur.read_u16()?,
        flags: cur.read_u16()?,
        ids: cur.read_u16()?,
        ver_major: cur.read_u16()?,
        ver_minor: cur.read_u16()?,
        root_inode: cur.read_u64()?,
        bytes: cur.read_u64()?,
        id_tbl: cur.read_u64()?,
        xattrs_tbl: cur.read_u64()?,
        inode_tbl: cur.read_u64()?,
        dir_tbl: cur.read_u64()?,
        frag_tbl: cur.read_u64()?,
        export_tbl: cur.read_u64()?,
    };
    if sb.magic != 0x73717368 {
        return Err(FormatError::BadMagic);
    }
    if !(sb.blklog < 32) {
        return Err(FormatError::CorruptBlockSize);
    }
    if sb.blksize != (1u32 << sb.blklog) {
        return Err(FormatError::CorruptBlockSize);
    }
    if sb.ver_major != 4 || sb.ver_minor != 0 {
        return Err(FormatError::UnsupportedVersion);
    }
    if sb.bytes > data.len() as u64 {
        return Err(FormatError::CorruptLength);
    }
    Ok(sb)
}

/// The body of a basic file inode record.
#[derive(Debug, Copy, Clone)]
pub struct FileInodeHeader {
    pub start: u32,
    pub frag_index: u32,
    pub offset: u32,
    pub size: u32,
}

/// The body of an extended file inode record.
#[derive(Debug, Copy, Clone)]
pub struct ExtendedFileInodeHeader {
    pub start: u64,
    pub size: u64,
    pub sparse: u64,
    pub links: u32,
    pub frag_index: u32,
    pub offset: u32,
    pub xattr: u32,
}

/// The body of a symlink inode record.
#[derive(Debug, Copy, Clone)]
pub struct SymlinkInodeHeader {
    pub count: u32,
    pub size: u32,
}

/// Data blocks a file of `size` bytes occupies: one per whole block, plus a
/// tail block when the file has no tail fragment (`frag == 0xFFFF_FFFF`)
/// and its size does not divide evenly.
pub open spec fn spec_block_count(size: int, frag: int, block_size: int) -> int
    recommends
        block_size >= 1,
{
    let base = size / block_size;
    if frag == 0xFFFF_FFFF && size % block_size > 0 {
        base + 1
    } else {
        base
    }
}

impl FileInodeHeader {
    /// Number of data blocks this file occupies.
    pub fn block_count(&self, block_size: u32) -> (r: u32)
        requires
            block_size >= 1,
        ensures
            r == spec_block_count(self.size as int, self.frag_index as int, block_size as int),
    {
        proof {
            assert(self.size as int / block_size as int <= self.size as int / 1int
                && self.size as int % block_size as int >= 0) by (nonlinear_arith)
                requires
                    block_size >= 1,
            ;
        }
        let base_count = self.size / block_size;
        if self.frag_index == 0xFFFF_FFFF {
            if self.size % block_size > 0 {
                proof {
                    if block_size == 1 {
                        assert(self.size as int % block_size as int == 0) by (nonlinear_arith)
                            requires
                                block_size == 1,
                        ;
                    } else {
                        assert(self.size as int / block_size as int <= self.size as int / 2int)
                            by (nonlinear_arith)
                            requires
                                block_size >= 2,
                        ;
                    }
                }
                base_count + 1
            } else {
                base_count
            }
        } else {
            base_count
        }
    }
}

impl ExtendedFileInodeHeader {
    /// Number of data blocks this file occupies.
    pub fn block_count(&self, block_size: u32) -> (r: u64)
        requires
            block_size >= 1,
        ensures
            r == spec_block_count(self.size as int, self.frag_index as int, block_size as int),
    {
        let bs = block_size as u64;
        proof {
            assert(self.size as int / bs as int <= self.size as int / 1int
                && self.size as int % bs as int >= 0) by (nonlinear_arith)
                requires
                    bs >= 1,
            ;
        }
        let base_count = self.size / bs;
        if self.frag_index == 0xFFFF_FFFF {
            if self.size % bs > 0 {
                proof {
                    if bs == 1 {
                        assert(self.size as int % bs as int == 0) by (nonlinear_arith)
                            requires
                                bs == 1,
                        ;
                    } else {
                        assert(self.size as int / bs as int <= self.size as int / 2int)
                            by (nonlinear_arith)
                            requires
                                bs >= 2,
                        ;
                    }
                }
                base_count + 1
            } else {
                base_count
            }
        } else {
            base_count
        }
    }
}

impl SymlinkInodeHeader {
    /// Length in bytes of the symlink's target path.
    pub fn byte_count(&self) -> (r: u32)
        ensures
            r == self.size,
    {
        self.size
    }
}

/// Extension bytes (beyond the 16-byte common header) of the fixed-size
/// inode record types: directories, devices, fifos, sockets and the
/// extended device, fifo and socket variants.
pub open spec fn spec_record_ext_size(t: int) -> int {
    if t == 1 {
        16
    } else if t == 4 || t == 5 {
        8
    } else if t == 6 || t == 7 {
        4
    } else if t == 11 || t == 12 {
        12
    } else {
        8
    }
}

fn record_ext_size(t: u16) -> (r: u64)
    requires
        t == 1 || (4 <= t && t <= 7) || (11 <= t && t <= 14),
    ensures
        r == spec_record_ext_size(t as int),
{
    if t == 1 {
        16
    } else if t == 4 || t == 5 {
        8
    } else if t == 6 || t == 7 {
        4
    } else if t == 11 || t == 12 {
        12
    } else {
        8
    }
}

/// Total length of `count` directory-index entries starting at `pos`, added
/// to `acc`: each entry records one less than its name length in the 4-byte
/// field at its byte 8 and occupies that length plus 13 bytes in all.
pub open spec fn spec_ext_dir_size(s: Seq<u8>, pos: int, count: nat, acc: int) -> Option<int>
    decreases count,
{
    if count == 0 {
        Some(acc)
    } else if pos < 0 || pos + 12 > s.len() {
        None
    } else {
        let sz = le_at(s, pos + 8, 4) + 1;
        spec_ext_dir_size(s, pos + sz + 12, (count - 1) as nat, acc + sz + 12)
    }
}

#[verifier::loop_isolation(false)]
fn ext_dir_size(data: &[u8], start: usize, count: u16) -> (r: Result<u64, FormatError>)
    ensures
        match r {
            Ok(v) => spec_ext_dir_size(data@, start as int, count as nat, 0) == Some(v as int),
            Err(_) => spec_ext_dir_size(data@, start as int, count as nat, 0) is None,
        },
{
    let n: u64 = data.len() as u64;
    let mut pu: u64 = start as u64;
    let mut acc: u64 = 0;
    let mut i: u16 = 0;
    while i < count
        invariant
            i <= count,
            acc <= i as int * 0x1_0000_000d,
            spec_ext_dir_size(data@, start as int, count as nat, 0) == spec_ext_dir_size(
                data@,
                pu as int,
                (count - i) as nat,
                acc as int,
            ),
        decreases count - i,
    {
        if n < 12 || pu > n - 12 {
            return Err(FormatError::BadRecord);
        }
        proof {
            lemma_le_at_bound(data@, pu + 8, 4);
            lemma_pow256_words();
        }
        let sz = read_u32_le_at(data, pu as usize + 8) as u64 + 1;
        let step = sz + 12;
        acc = acc + step;
        i = i + 1;
        if step > n - pu {
            // The walk steps just past the buffer: legal only for the last
            // entry, whose end is not read.
            if i < count {
                assert(spec_ext_dir_size(
                    data@,
                    pu + step,
                    (count - i) as nat,
                    acc as int,
                ) is None);
                return Err(FormatError::BadRecord);
            }
            assert(spec_ext_dir_size(data@, pu + step, 0, acc as int) == Some(acc as int));
            return Ok(acc);
        }
        pu = pu + step;
    }
    Ok(acc)
}

/// Serialized length contribution of the inode record at `pos` and its
/// contribution to the total content size: the pair `(size, advance)` where
/// the record occupies `advance + 16` bytes and only file records carry a
/// nonzero size.  A record that is truncated, of unknown type, or whose
/// advance would not fit alongside the walk is reported as `(0, 0)`, which
/// the walker treats as corrupt.
pub open spec fn spec_sizeof_inode(s: Seq<u8>, pos: int, block_size: int) -> (int, int)
    recommends
        block_size >= 1,
{
    if pos < 0 || pos + 16 > s.len() {
        (0, 0)
    } else {
        let t = le_at(s, pos, 2);
        if t == 1 || (4 <= t && t <= 7) || (11 <= t && t <= 14) {
            (0, spec_record_ext_size(t))
        } else if t == 2 {
            if pos + 32 > s.len() {
                (0, 0)
            } else {
                let frag = le_at(s, pos + 20, 4);
                let size = le_at(s, pos + 28, 4);
                (size, spec_block_count(size, frag, block_size) * 4 + 16)
            }
        } else if t == 3 {
            if pos + 24 > s.len() {
                (0, 0)
            } else {
                (0, le_at(s, pos + 20, 4) + 8)
            }
        } else if t == 8 {
            if pos + 34 > s.len() {
                (0, 0)
            } else {
                let cnt = le_at(s, pos + 32, 2);
                if cnt > 0 {
                    match spec_ext_dir_size(s, pos + 40, cnt as nat, 0) {
                        None => (0, 0),
                        Some(sz) => (0, 24 + sz),
                    }
                } else {
                    (0, 24)
                }
            }
        } else if t == 9 {
            if pos + 56 > s.len() {
                (0, 0)
            } else {
                let size = le_at(s, pos + 24, 8);
                let frag = le_at(s, pos + 44, 4);
                let bc = spec_block_count(size, frag, block_size);
                if 4 * bc + 56 > u64::MAX {
                    (0, 0)
                } else {
                    (size, bc * 4 + 40)
                }
            }
        } else {
            (0, 0)
        }
    }
}

/// Measures the inode record at `pos` in the decoded table, dispatching on
/// its type tag.
#[verifier::loop_isolation(false)]
pub fn sizeof_inode(data: &[u8], pos: usize, block_size: u32) -> (r: (u64, u64))
    requires
        block_size >= 1,
    ensures
        r.0 == spec_sizeof_inode(data@, pos as int, block_size as int).0,
        r.1 == spec_sizeof_inode(data@, pos as int, block_size as int).1,
        r.1 <= u64::MAX - 16,
{
    if data.len() < 16 || pos > data.len() - 16 {
        return (0, 0);
    }
    proof {
        lemma_le_at_bound(data@, pos as int, 2);
        lemma_pow256_words();
    }
    let t = read_u16_le_at(data, pos);
    if t == 1 || (4 <= t && t <= 7) || (11 <= t && t <= 14) {
        return (0, record_ext_size(t));
    }
    if t == 2 {
        if data.len() < 32 || pos > data.len() - 32 {
            return (0, 0);
        }
        proof {
            lemma_le_at_bound(data@, pos + 20, 4);
            lemma_le_at_bound(data@, pos + 28, 4);
        }
        let record = FileInodeHeader {
            start: read_u32_le_at(data, pos + 16),
            frag_index: read_u32_le_at(data, pos + 20),
            offset: read_u32_le_at(data, pos + 24),
            size: read_u32_le_at(data, pos + 28),
        };
        let bc = record.block_count(block_size);
        return (record.size as u64, bc as u64 * 4 + 16);
    }
    if t == 3 {
        if data.len() < 24 || pos > data.len() - 24 {
            return (0, 0);
        }
        proof {
            lemma_le_at_bound(data@, pos + 20, 4);
        }
        let record = SymlinkInodeHeader {
            count: read_u32_le_at(data, pos + 16),
            size: read_u32_le_at(data, pos + 20),
        };
        return (0, record.byte_count() as u64 + 8);
    }
    if t == 8 {
        if data.len() < 34 || pos > data.len() - 34 {
            return (0, 0);
        }
        let cnt = read_u16_le_at(data, pos + 32);
        if cnt > 0 {
            if pos > usize::MAX - 52 {
                // The first index entry would end beyond any addressable
                // buffer, so the walk cannot succeed.
                assert(spec_ext_dir_size(data@, pos + 40, cnt as nat, 0) is None);
                return (0, 0);
            }
            match ext_dir_size(data, pos + 40, cnt) {
                Err(_) => {
                    return (0, 0);
                },
                Ok(sz) => {
                    proof {
                        lemma_ext_dir_size_bound(data@, pos + 40, cnt as nat, 0);
                    }
                    return (0, 24 + sz);
                },
            }
        }
        return (0, 24);
    }
    if t == 9 {
        if data.len() < 56 || pos > data.len() - 56 {
            return (0, 0);
        }
        proof {
            lemma_le_at_bound(data@, pos + 24, 8);
            lemma_le_at_bound(data@, pos + 44, 4);
        }
        let record = ExtendedFileInodeHeader {
            start: read_u64_le_at(data, pos + 16),
            size: read_u64_le_at(data, pos + 24),
            sparse: read_u64_le_at(data, pos + 32),
            links: read_u32_le_at(data, pos + 40),
            frag_index: read_u32_le_at(data, pos + 44),
            offset: read_u32_le_at(data, pos + 48),
            xattr: read_u32_le_at(data, pos + 52),
        };
        let bc = record.block_count(block_size);
        if bc > (u64::MAX - 56) / 4 {
            return (0, 0);
        }
        return (record.size, bc * 4 + 40);
    }
    (0, 0)
}

/// A directory-index walk that succeeds is bounded by its entry count.
proof fn lemma_ext_dir_size_bound(s: Seq<u8>, pos: int, count: nat, acc: int)
    requires
        acc >= 0,
    ensures
        spec_ext_dir_size(s, pos, count, acc) matches Some(v) ==> acc <= v <= acc + count
            * 0x1_0000_000d,
    decreases count,
{
    if count > 0 && pos >= 0 && pos + 12 <= s.len() {
        lemma_le_at_bound(s, pos + 8, 4);
        lemma_pow256_words();
        let sz = le_at(s, pos + 8, 4) + 1;
        lemma_ext_dir_size_bound(s, pos + sz + 12, (count - 1) as nat, acc + sz + 12);
    }
}

/// Content size accumulated by walking inode records from `pos` to the end
/// of the decoded table, on top of `total`: a record that reports a zero
/// advance marks a corrupt table, and the sum must stay within `u64`.
pub open spec fn spec_inodes_size_from(s: Seq<u8>, pos: int, block_size: int, total: int) -> Result<
    int,
    FormatError,
>
    decreases (if pos < 0 || pos >= s.len() { 0 } else { s.len() - pos }),
{
    if pos >= s.len() {
        Ok(total)
    } else {
        let szoff = spec_sizeof_inode(s, pos, block_size);
        if szoff.1 < 1 {
            Err(FormatError::BadRecord)
        } else if total + szoff.0 > u64::MAX {
            Err(FormatError::Oversize)
        } else {
            spec_inodes_size_from(s, pos + szoff.1 + 16, block_size, total + szoff.0)
        }
    }
}

/// The size contribution of a single record is never negative.
proof fn lemma_sizeof_inode_nonneg(s: Seq<u8>, pos: int, bs: int)
    ensures
        spec_sizeof_inode(s, pos, bs).0 >= 0,
{
    if 0 <= pos && pos + 16 <= s.len() {
        let t = le_at(s, pos, 2);
        if t == 2 && pos + 32 <= s.len() {
            lemma_le_at_bound(s, pos + 28, 4);
        }
        if t == 9 && pos + 56 <= s.len() {
            lemma_le_at_bound(s, pos + 24, 8);
        }
    }
}

/// A completed walk reports a total within `u64`.
pub proof fn lemma_inodes_size_bounds(s: Seq<u8>, pos: int, bs: int, total: int)
    requires
        0 <= total <= u64::MAX,
    ensures
        spec_inodes_size_from(s, pos, bs, total) matches Ok(t) ==> 0 <= t <= u64::MAX,
    decreases (if pos < 0 || pos >= s.len() { 0 } else { s.len() - pos }),
{
    if 0 <= pos < s.len() {
        let szoff = spec_sizeof_inode(s, pos, bs);
        if szoff.1 >= 1 && total + szoff.0 <= u64::MAX {
            lemma_sizeof_inode_nonneg(s, pos, bs);
            lemma_inodes_size_bounds(s, pos + szoff.1 + 16, bs, total + szoff.0);
        }
    } else if pos < 0 && pos < s.len() {
        let szoff = spec_sizeof_inode(s, pos, bs);
        assert(szoff.1 == 0);
    }
}

/// Walks the decoded inode table and sums the sizes of all regular files.
/// Fails on a record that does not advance the walk or on a sum that does
/// not fit in 64 bits.
#[verifier::loop_isolation(false)]
pub fn collect_inodes_size(decoded: &[u8], block_size: u32) -> (r: Result<u64, FormatError>)
    requires
        block_size >= 1,
    ensures
        r == (match spec_inodes_size_from(decoded@, 0, block_size as int, 0) {
            Ok(t) => Ok::<u64, FormatError>(t as u64),
            Err(e) => Err::<u64, FormatError>(e),
        }),
{
    let n = decoded.len();
    let mut pos: usize = 0;
    let mut total: u64 = 0;
    while pos < n
        invariant
            pos <= n,
            spec_inodes_size_from(decoded@, 0, block_size as int, 0) == spec_inodes_size_from(
                decoded@,
                pos as int,
                block_size as int,
                total as int,
            ),
        decreases n - pos,
    {
        let (sz, off) = sizeof_inode(decoded, pos, block_size);
        if off < 1 {
            assert(spec_inodes_size_from(decoded@, pos as int, block_size as int, total as int)
                == Err::<int, FormatError>(FormatError::BadRecord));
            return Err(FormatError::BadRecord);
        }
        if sz > u64::MAX - total {
            assert(spec_inodes_size_from(decoded@, pos as int, block_size as int, total as int)
                == Err::<int, FormatError>(FormatError::Oversize));
            return Err(FormatError::Oversize);
        }
        total = total + sz;
        if off + 16 >= (n - pos) as u64 {
            assert(spec_inodes_size_from(
                decoded@,
                pos + off + 16,
                block_size as int,
                total as int,
            ) == Ok::<int, FormatError>(total as int));
            pos = n;
        } else {
            pos = pos + (off as usize + 16);
        }
    }
    Ok(total)
}

/// The inode metadata region decoded block by block, appended to `acc`:
/// each block starts with a 2-byte header whose high bit flags "stored
/// uncompressed" and whose low 15 bits give the on-disk length; compressed
/// blocks are inflated, stored blocks copied verbatim.
pub open spec fn spec_inode_table_from(s: Seq<u8>, pos: int, acc: Seq<u8>) -> Option<Seq<u8>>
    decreases (if pos < 0 || pos >= s.len() { 0 } else { s.len() - pos }),
{
    if pos >= s.len() {
        Some(acc)
    } else if pos < 0 || pos + 2 > s.len() {
        None
    } else {
        let h = le_at(s, pos, 2);
        let csize = if h < 0x8000 { h } else { h - 0x8000 };
        let bend = pos + 2 + (if csize > 0 { csize } else { 0 });
        if bend > s.len() {
            None
        } else {
            let block = s.subrange(pos + 2, bend);
            if h < 0x8000 && !crate::xz::spec_xz_ok(block) {
                None
            } else {
                let piece = if h < 0x8000 { crate::xz::spec_xz_extract(block) } else { block };
                spec_inode_table_from(s, bend, acc + piece)
            }
        }
    }
}

/// The error the table decoder reports where decoding from `pos` fails: a
/// block that runs past the region is a truncation; a compressed block the
/// decompressor rejects is a bad record.
pub open spec fn spec_inode_table_err(s: Seq<u8>, pos: int) -> FormatError
    decreases (if pos < 0 || pos >= s.len() { 0 } else { s.len() - pos }),
{
    if pos >= s.len() {
        FormatError::Truncated
    } else if pos < 0 || pos + 2 > s.len() {
        FormatError::Truncated
    } else {
        let h = le_at(s, pos, 2);
        let csize = if h < 0x8000 { h } else { h - 0x8000 };
        let bend = pos + 2 + (if csize > 0 { csize } else { 0 });
        if bend > s.len() {
            FormatError::Truncated
        } else {
            let block = s.subrange(pos + 2, bend);
            if h < 0x8000 && !crate::xz::spec_xz_ok(block) {
                FormatError::BadRecord
            } else {
                spec_inode_table_err(s, bend)
            }
        }
    }
}

fn push_slice(dst: &mut Vec<u8>, src: &[u8])
    ensures
        final(dst)@ == old(dst)@ + src@,
{
    let mut i: usize = 0;
    while i < src.len()
        invariant
            i <= src@.len(),
            dst@ == old(dst)@ + src@.subrange(0, i as int),
        decreases src@.len() - i,
    {
        dst.push(src[i]);
        i = i + 1;
    }
    assert(src@.subrange(0, src@.len() as int) =~= src@);
    assert(dst@ =~= old(dst)@ + src@);
}

/// Decodes the inode metadata region into one contiguous buffer, block by
/// block.
#[verifier::loop_isolation(false)]
pub fn collect_inodes_table(data: &[u8]) -> (r: Result<Vec<u8>, FormatError>)
    ensures
        r matches Ok(v) ==> spec_inode_table_from(data@, 0, Seq::empty()) == Some(v@),
        r is Ok <==> spec_inode_table_from(data@, 0, Seq::empty()) is Some,
        r matches Err(e) ==> e == spec_inode_table_err(data@, 0),
{
    let mut buffer: Vec<u8> = Vec::new();
    let mut pos: usize = 0;
    while pos < data.len()
        invariant
            pos <= data@.len(),
            spec_inode_table_from(data@, 0, Seq::empty()) == spec_inode_table_from(
                data@,
                pos as int,
                buffer@,
            ),
            spec_inode_table_err(data@, 0) == spec_inode_table_err(data@, pos as int),
        decreases data@.len() - pos,
    {
        if data.len() - pos < 2 {
            return Err(FormatError::Truncated);
        }
        proof {
            lemma_le_at_bound(data@, pos as int, 2);
            lemma_pow256_words();
        }
        let h = read_u16_le_at(data, pos);
        let csize: u16 = if h < 0x8000 {
            h
        } else {
            h - 0x8000
        };
        if csize as usize > data.len() - pos - 2 {
            return Err(FormatError::Truncated);
        }
        let bend = pos + 2 + csize as usize;
        let block = &data[pos + 2..bend];
        if h < 0x8000 {
            let piece = match crate::xz::xz_decompress(block) {
                Ok(v) => v,
                Err(e) => {
                    assert(spec_inode_table_from(data@, pos as int, buffer@) is None);
                    assert(spec_inode_table_err(data@, pos as int) == FormatError::BadRecord);
                    return Err(e);
                },
            };
            push_slice(&mut buffer, piece.as_slice());
        } else {
            push_slice(&mut buffer, block);
        }
        pos = bend;
    }
    Ok(buffer)
}

/// What the whole oracle yields on an image: the first structural failure,
/// or the summed content size beside the superblock's inode count.
pub open spec fn spec_squashfs_result(s: Seq<u8>) -> Result<(int, int), FormatError> {
    match spec_parse_super(s) {
        Err(e) => Err(e),
        Ok(sb) => {
            if !(sb.inode_tbl <= sb.dir_tbl <= s.len()) {
                Err(FormatError::Truncated)
            } else {
                let region = s.subrange(sb.inode_tbl as int, sb.dir_tbl as int);
                match spec_inode_table_from(region, 0, Seq::empty()) {
                    None => Err(spec_inode_table_err(region, 0)),
                    Some(t) => {
                        match spec_inodes_size_from(t, 0, sb.blksize as int, 0) {
                            Err(e) => Err(e),
                            Ok(v) => Ok((v, sb.inode as int)),
                        }
                    },
                }
            }
        },
    }
}

/// A successful oracle result is within the wire types: the summed size
/// fits an unsigned 64-bit count and the inode count a 32-bit one.
pub proof fn lemma_squashfs_result_bounds(s: Seq<u8>)
    ensures
        spec_squashfs_result(s) matches Ok(p) ==> 0 <= p.0 <= u64::MAX && 0 <= p.1
            < 0x1_0000_0000,
{
    if let Ok(sb) = spec_parse_super(s) {
        if sb.inode_tbl <= sb.dir_tbl <= s.len() {
            let region = s.subrange(sb.inode_tbl as int, sb.dir_tbl as int);
            if let Some(t) = spec_inode_table_from(region, 0, Seq::empty()) {
                lemma_inodes_size_bounds(t, 0, sb.blksize as int, 0);
            }
        }
    }
}

/// Recovers, from a whole SquashFs image, the total content size of its
/// regular files and the inode count declared in the superblock.  Fails on
/// any structural violation of the image.
#[verifier::loop_isolation(false)]
pub fn collect_squashfs_size_and_inodes(data: &[u8]) -> (r: Result<(u64, u32), FormatError>)
    ensures
        r == (match spec_squashfs_result(data@) {
            Ok(p) => Ok::<(u64, u32), FormatError>((p.0 as u64, p.1 as u32)),
            Err(e) => Err::<(u64, u32), FormatError>(e),
        }),
{
    let sb = match parse_super_block(data) {
        Ok(v) => v,
        Err(e) => {
            return Err(e);
        },
    };
    if !(sb.inode_tbl <= sb.dir_tbl && sb.dir_tbl <= data.len() as u64) {
        return Err(FormatError::Truncated);
    }
    proof {
        let bl = sb.blklog;
        assert((1u32 << bl) >= 1) by (bit_vector)
            requires
                bl < 32,
        ;
    }
    let inode_tbl = &data[sb.inode_tbl as usize..sb.dir_tbl as usize];
    let table = match collect_inodes_table(inode_tbl) {
        Ok(v) => v,
        Err(e) => {
            return Err(e);
        },
    };
    proof {
        lemma_inodes_size_bounds(table@, 0, sb.blksize as int, 0);
    }
    let full_size = match collect_inodes_size(table.as_slice(), sb.blksize) {
        Ok(v) => v,
        Err(e) => {
            return Err(e);
        },
    };
    Ok((full_size, sb.inode))
}

} // verus!
