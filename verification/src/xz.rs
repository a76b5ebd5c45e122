//! Size oracle for xz streams: walks the backward index of each concatenated
//! stream and sums the recorded uncompressed block sizes, without running the
//! decompressor.
use vstd::prelude::*;

use crate::cursor::le_at;
use crate::cursor::lemma_le_at_bound;
use crate::cursor::lemma_pow256_words;
use crate::cursor::read_u32_le_at;
use crate::FormatError;

verus! {

/// `128^n`, the number of values `n` varint payload groups can take.
pub open spec fn pow128(n: nat) -> int
    decreases n,
{
    if n == 0 {
        1
    } else {
        128 * pow128((n - 1) as nat)
    }
}

pub proof fn lemma_pow128_words()
    ensures
        pow128(8) == 0x100_0000_0000_0000,
        pow128(9) == 0x8000_0000_0000_0000,
{
    assert(pow128(0) == 1);
    assert(pow128(1) == 128);
    assert(pow128(2) == 0x4000);
    assert(pow128(3) == 0x20_0000);
    assert(pow128(4) == 0x1000_0000);
    assert(pow128(5) == 0x8_0000_0000);
    assert(pow128(6) == 0x400_0000_0000);
    assert(pow128(7) == 0x2_0000_0000_0000);
    assert(pow128(8) == 0x100_0000_0000_0000);
    assert(pow128(9) == 0x8000_0000_0000_0000);
}

proof fn lemma_pow128_pos(n: nat)
    ensures
        pow128(n) >= 1,
    decreases n,
{
    if n > 0 {
        lemma_pow128_pos((n - 1) as nat);
    }
}

proof fn lemma_pow128_mono(a: nat, b: nat)
    requires
        a <= b,
    ensures
        pow128(a) <= pow128(b),
    decreases b,
{
    if a < b && b > 0 {
        lemma_pow128_mono(a, (b - 1) as nat);
        lemma_pow128_pos((b - 1) as nat);
    }
}

/// The base-128 varint starting at `pos`: little-endian groups of seven
/// payload bits, the high bit of a byte flagging continuation.  `rounds`
/// bytes may still be consumed; the decoder rejects a varint that would
/// shift past 63 payload bits, so it starts with nine rounds.
pub open spec fn spec_varint_at(s: Seq<u8>, pos: int, rounds: nat) -> Option<(int, int)>
    decreases rounds,
{
    if rounds == 0 || pos < 0 || pos >= s.len() {
        None
    } else if s[pos] < 128 {
        Some((s[pos] as int, pos + 1))
    } else {
        match spec_varint_at(s, pos + 1, (rounds - 1) as nat) {
            None => None,
            Some((v, end)) => Some((s[pos] - 128 + 128 * v, end)),
        }
    }
}

/// The error the varint decoder reports when decoding at `pos` fails:
/// running out of buffer is a truncation, running out of shift room is a
/// malformed varint.
pub open spec fn spec_varint_err(s: Seq<u8>, pos: int, rounds: nat) -> FormatError
    decreases rounds,
{
    if rounds == 0 {
        FormatError::BadVarint
    } else if pos < 0 || pos >= s.len() {
        FormatError::Truncated
    } else if s[pos] < 128 {
        FormatError::Truncated
    } else {
        spec_varint_err(s, pos + 1, (rounds - 1) as nat)
    }
}

/// A decoded varint is bounded by `128^rounds` and ends within the buffer.
pub proof fn lemma_varint_bound(s: Seq<u8>, pos: int, rounds: nat)
    ensures
        spec_varint_at(s, pos, rounds) matches Some(ve) ==> {
            &&& 0 <= ve.0 < pow128(rounds)
            &&& pos < ve.1 <= pos + rounds
            &&& ve.1 <= s.len()
        },
    decreases rounds,
{
    if rounds > 0 {
        lemma_pow128_pos((rounds - 1) as nat);
        if 0 <= pos < s.len() && s[pos] >= 128 {
            lemma_varint_bound(s, pos + 1, (rounds - 1) as nat);
        }
    }
}

fn read_varint_rec(data: &[u8], pos: usize, rounds: u32) -> (r: Result<(u64, usize), FormatError>)
    requires
        rounds <= 9,
    ensures
        match r {
            Ok(ve) => spec_varint_at(data@, pos as int, rounds as nat) == Some(
                (ve.0 as int, ve.1 as int),
            ),
            Err(e) => spec_varint_at(data@, pos as int, rounds as nat) is None && e
                == spec_varint_err(data@, pos as int, rounds as nat),
        },
    decreases rounds,
{
    if rounds == 0 {
        return Err(FormatError::BadVarint);
    }
    if pos >= data.len() {
        return Err(FormatError::Truncated);
    }
    let d = data[pos];
    if d < 128 {
        return Ok((d as u64, pos + 1));
    }
    match read_varint_rec(data, pos + 1, rounds - 1) {
        Err(e) => Err(e),
        Ok((v, end)) => {
            proof {
                lemma_varint_bound(data@, pos + 1, (rounds - 1) as nat);
                lemma_pow128_mono((rounds - 1) as nat, 8);
                lemma_pow128_words();
            }
            Ok(((d - 128) as u64 + 128 * v, end))
        },
    }
}

/// Decodes the base-128 varint at `pos`, returning its value and the
/// position just past it.  Rejects a varint that does not terminate within
/// nine bytes (63 payload bits) or runs past the end of the buffer.
pub fn read_varint(data: &[u8], pos: usize) -> (r: Result<(u64, usize), FormatError>)
    ensures
        match r {
            Ok(ve) => spec_varint_at(data@, pos as int, 9) == Some((ve.0 as int, ve.1 as int)),
            Err(e) => spec_varint_at(data@, pos as int, 9) is None && e == spec_varint_err(
                data@,
                pos as int,
                9,
            ),
        },
{
    read_varint_rec(data, pos, 9)
}

/// What the xz decompressor inflates a complete stream of bytes to; the
/// result is a function of the input bytes alone.
pub uninterp spec fn spec_xz_extract(block: Seq<u8>) -> Seq<u8>;

/// Whether the xz decompressor accepts the stream of bytes: the decoder is
/// deterministic, so its success too is a function of the input alone.
pub uninterp spec fn spec_xz_ok(block: Seq<u8>) -> bool;

/// Relies on `xz2::read::XzDecoder` (through `Read::read_to_end`): decodes
/// the xz stream held in `block` into its decompressed bytes.  The decoder
/// is deterministic, so whether it accepts the stream and what it inflates
/// it to depend on the bytes alone.
#[verifier::external_body]
pub(crate) fn xz_decompress(block: &[u8]) -> (r: Result<Vec<u8>, FormatError>)
    ensures
        r matches Ok(v) ==> spec_xz_ok(block@) && v@ == spec_xz_extract(block@),
        r matches Err(e) ==> !spec_xz_ok(block@) && e == FormatError::BadRecord,
{
    let mut decoder = xz2::read::XzDecoder::new(block);
    let mut out = Vec::new();
    match std::io::Read::read_to_end(&mut decoder, &mut out) {
        Ok(_) => Ok(out),
        Err(_) => Err(FormatError::BadRecord),
    }
}

/// Relies on `xz2::read::XzDecoder` (through `Read::read` and `total_out`):
/// streams the single xz stream in `data` through the same deterministic
/// decoder and reports how many bytes came out, without keeping them.  It
/// accepts and produces exactly what decoding the bytes in one piece does.
#[verifier::external_body]
pub(crate) fn xz_stream_total_out(data: &[u8]) -> (r: Result<u64, FormatError>)
    ensures
        r matches Ok(v) ==> spec_xz_ok(data@) && v == spec_xz_extract(data@).len(),
        r matches Err(e) ==> !spec_xz_ok(data@) && e == FormatError::BadRecord,
{
    let mut decoder = xz2::read::XzDecoder::new(data);
    let mut buffer = [0u8; 4096];
    loop {
        match std::io::Read::read(&mut decoder, &mut buffer) {
            Ok(0) => return Ok(decoder.total_out()),
            Ok(_) => (),
            Err(_) => return Err(FormatError::BadRecord),
        }
    }
}

/// Position of the stream footer found by scanning backward from `pos` in
/// 4-byte steps for the 2-byte footer magic `"YZ"`; the scan fails before
/// reaching a position where no whole stream could fit below it.
pub open spec fn spec_find_footer(s: Seq<u8>, pos: int) -> Option<int>
    decreases (if pos < 32 { 0 } else { pos }),
{
    if pos < 32 {
        None
    } else if s[pos - 2] == 0x59 && s[pos - 1] == 0x5a {
        Some(pos - 4)
    } else {
        spec_find_footer(s, pos - 4)
    }
}

/// A found footer lies at least 28 bytes in and wholly below the scan start.
pub proof fn lemma_find_footer_bounds(s: Seq<u8>, pos: int)
    ensures
        spec_find_footer(s, pos) matches Some(f) ==> 28 <= f && f + 4 <= pos,
    decreases (if pos < 32 { 0 } else { pos }),
{
    if pos >= 32 && !(s[pos - 2] == 0x59 && s[pos - 1] == 0x5a) {
        lemma_find_footer_bounds(s, pos - 4);
    }
}

/// The 6-byte xz stream header magic `FD 37 7A 58 5A 00` at `h`.
pub open spec fn spec_xz_magic_at(s: Seq<u8>, h: int) -> bool {
    &&& s[h] == 0xfd
    &&& s[h + 1] == 0x37
    &&& s[h + 2] == 0x7a
    &&& s[h + 3] == 0x58
    &&& s[h + 4] == 0x5a
    &&& s[h + 5] == 0x00
}

/// Folds `n` index records: each reads an unpadded size (stepping the block
/// cursor backward by that size rounded up to a multiple of four) and an
/// uncompressed size (accumulated into the running total, which must stay
/// within `u64`).  Returns the read cursor, block cursor and total after all
/// records.
pub open spec fn spec_records(s: Seq<u8>, rp: int, pos: int, n: nat, total: int) -> Option<
    (int, int, int),
>
    decreases n,
{
    if n == 0 {
        Some((rp, pos, total))
    } else {
        match spec_varint_at(s, rp, 9) {
            None => None,
            Some((unpadded, rp1)) => {
                let padded = ((unpadded + 3) / 4) * 4;
                if padded > pos {
                    None
                } else {
                    match spec_varint_at(s, rp1, 9) {
                        None => None,
                        Some((uncomp, rp2)) => {
                            if total + uncomp > u64::MAX {
                                None
                            } else {
                                spec_records(s, rp2, (pos - padded) as int, (n - 1) as nat, total + uncomp)
                            }
                        },
                    }
                }
            },
        }
    }
}

/// Folding records never moves the block cursor forward.
pub proof fn lemma_records_pos(s: Seq<u8>, rp: int, pos: int, n: nat, total: int)
    ensures
        spec_records(s, rp, pos, n, total) matches Some(rpt) ==> rpt.1 <= pos,
    decreases n,
{
    if n > 0 {
        if let Some((unpadded, rp1)) = spec_varint_at(s, rp, 9) {
            let padded = ((unpadded + 3) / 4) * 4;
            if padded <= pos {
                if let Some((uncomp, rp2)) = spec_varint_at(s, rp1, 9) {
                    if total + uncomp <= u64::MAX {
                        lemma_varint_bound(s, rp, 9);
                        lemma_records_pos(s, rp2, (pos - padded) as int, (n - 1) as nat, total + uncomp);
                    }
                }
            }
        }
    }
}

/// Parses one stream backward from `pos`: finds the footer, reads the
/// 4-byte backward-size field to locate the index, decodes the record count
/// and folds the records, then steps to the stream header, which must carry
/// the xz magic.  Returns the header position and the new running total.
pub open spec fn spec_stream_step(s: Seq<u8>, pos: int, total: int) -> Option<(int, int)> {
    match spec_find_footer(s, pos) {
        None => None,
        Some(f) => {
            let bsize = le_at(s, f - 4, 4);
            let istart = f - (bsize + 1) * 4 - 8;
            if istart < 0 {
                None
            } else {
                match spec_varint_at(s, istart + 1, 9) {
                    None => None,
                    Some((records, rp0)) => {
                        if records < 0 {
                            None
                        } else {
                            match spec_records(s, rp0, istart, records as nat, total) {
                                None => None,
                                Some((rp_end, pos_after, total2)) => {
                                    let hpos = pos_after - 12;
                                    if hpos < 0 {
                                        None
                                    } else if spec_xz_magic_at(s, hpos) {
                                        Some((hpos, total2))
                                    } else {
                                        None
                                    }
                                },
                            }
                        }
                    },
                }
            }
        },
    }
}

/// One stream step lands strictly below the scan start.
pub proof fn lemma_stream_step_bounds(s: Seq<u8>, pos: int, total: int)
    requires
        pos <= s.len(),
    ensures
        spec_stream_step(s, pos, total) matches Some(pt) ==> 0 <= pt.0 && pt.0 + 28 <= pos,
{
    if let Some(f) = spec_find_footer(s, pos) {
        lemma_find_footer_bounds(s, pos);
        let bsize = le_at(s, f - 4, 4);
        lemma_le_at_bound(s, f - 4, 4);
        let istart = f - (bsize + 1) * 4 - 8;
        if istart >= 0 {
            if let Some((records, rp0)) = spec_varint_at(s, istart + 1, 9) {
                if records >= 0 {
                    lemma_records_pos(s, rp0, istart, records as nat, total);
                }
            }
        }
    }
}

/// Total uncompressed size of the concatenated streams that end at `pos`,
/// accumulated onto `total`: stream steps repeat until one lands exactly at
/// position zero.
pub open spec fn spec_xz_total_from(s: Seq<u8>, pos: int, total: int) -> Option<int>
    decreases (if pos < 0 { 0 } else { pos }),
{
    match spec_stream_step(s, pos, total) {
        None => None,
        Some((p2, t2)) => {
            if p2 == 0 {
                Some(t2)
            } else if 0 < p2 < pos {
                spec_xz_total_from(s, p2, t2)
            } else {
                None
            }
        },
    }
}

/// Total uncompressed size recovered from the backward indexes of `s`, which
/// must be 4-byte aligned and hold nothing but whole xz streams.
pub open spec fn spec_xz_total(s: Seq<u8>) -> Option<int> {
    if s.len() % 4 != 0 {
        None
    } else {
        spec_xz_total_from(s, s.len() as int, 0)
    }
}

/// Scans backward from `start` in 4-byte steps for the stream footer
/// magic, failing once too little room is left for a whole stream.
#[verifier::loop_isolation(false)]
fn find_footer(data: &[u8], start: usize) -> (r: Result<usize, FormatError>)
    requires
        start <= data@.len(),
    ensures
        match r {
            Ok(f) => spec_find_footer(data@, start as int) == Some(f as int) && 28 <= f && f + 4
                <= start,
            Err(e) => spec_find_footer(data@, start as int) is None && e == FormatError::TooSmall,
        },
{
    let mut pos = start;
    loop
        invariant
            pos <= start,
            spec_find_footer(data@, start as int) == spec_find_footer(data@, pos as int),
        decreases pos,
    {
        if pos < 32 {
            return Err(FormatError::TooSmall);
        }
        let p = pos - 4;
        if data[p + 2] == 0x59 && data[p + 3] == 0x5a {
            proof {
                lemma_find_footer_bounds(data@, pos as int);
            }
            return Ok(p);
        }
        pos = p;
    }
}

/// Recovers the total uncompressed size of the one or more concatenated xz
/// streams in `data` by walking their backward indexes, with O(blocks) work
/// and no decompression.  A stream that is misaligned, truncated, or has a
/// corrupted backward header is rejected with a `FormatError`.
#[verifier::loop_isolation(false)]
pub fn calculate_xz_decompressed_size(data: &[u8]) -> (r: Result<u64, FormatError>)
    ensures
        data@.len() % 4 != 0 ==> r == Err::<u64, FormatError>(FormatError::Misaligned),
        data@.len() % 4 == 0 && data@.len() < 32 ==> r == Err::<u64, FormatError>(
            FormatError::TooSmall,
        ),
        match r {
            Ok(v) => spec_xz_total(data@) == Some(v as int),
            Err(_) => spec_xz_total(data@) is None,
        },
{
    let n = data.len();
    if n % 4 != 0 {
        return Err(FormatError::Misaligned);
    }
    if n < 32 {
        return Err(FormatError::TooSmall);
    }
    let mut pos: usize = n;
    let mut total: u64 = 0;
    loop
        invariant
            1 <= pos <= n,
            spec_xz_total_from(data@, pos as int, total as int) == spec_xz_total_from(
                data@,
                n as int,
                0,
            ),
        decreases pos,
    {
        let ghost pos0 = pos as int;
        let ghost total0 = total as int;
        // Scan backward in 4-byte steps for the 2-byte footer magic.
        pos = match find_footer(data, pos) {
            Ok(f) => f,
            Err(e) => {
                assert(spec_xz_total_from(data@, pos0, total0) is None);
                return Err(e);
            },
        };
        // The 4-byte little-endian backward-size field sits just below the
        // footer magic and locates the index start.
        let bsize = read_u32_le_at(data, pos - 4) as u64;
        proof {
            lemma_le_at_bound(data@, pos - 4, 4);
            lemma_pow256_words();
        }
        let back = (bsize + 1) * 4 + 8;
        if back > pos as u64 {
            assert(spec_stream_step(data@, pos0, total0) is None);
            return Err(FormatError::BadBackwardHeader);
        }
        assert(back <= usize::MAX as u64);
        let istart: usize = pos - back as usize;
        // Record count, then the per-record (unpadded, uncompressed) pairs.
        let (records, mut rp) = match read_varint(data, istart + 1) {
            Ok(ve) => ve,
            Err(e) => {
                assert(spec_stream_step(data@, pos0, total0) is None);
                return Err(e);
            },
        };
        let ghost rp0 = rp as int;
        pos = istart;
        let mut i: u64 = 0;
        while i < records
            invariant
                i <= records,
                pos <= istart,
                spec_records(data@, rp0, istart as int, records as nat, total0) == spec_records(
                    data@,
                    rp as int,
                    pos as int,
                    (records - i) as nat,
                    total as int,
                ),
            decreases records - i,
        {
            let (unpadded, rp1) = match read_varint(data, rp) {
                Ok(ve) => ve,
                Err(_) => {
                    assert(spec_records(
                        data@,
                        rp as int,
                        pos as int,
                        (records - i) as nat,
                        total as int,
                    ) is None);
                    assert(spec_stream_step(data@, pos0, total0) is None);
                    return Err(FormatError::BadBackwardHeader);
                },
            };
            proof {
                lemma_varint_bound(data@, rp as int, 9);
                lemma_pow128_words();
            }
            let padded = ((unpadded + 3) / 4) * 4;
            if padded > pos as u64 {
                assert(spec_records(
                    data@,
                    rp as int,
                    pos as int,
                    (records - i) as nat,
                    total as int,
                ) is None);
                assert(spec_stream_step(data@, pos0, total0) is None);
                return Err(FormatError::BadBackwardHeader);
            }
            let (uncomp, rp2) = match read_varint(data, rp1) {
                Ok(ve) => ve,
                Err(_) => {
                    assert(spec_records(
                        data@,
                        rp as int,
                        pos as int,
                        (records - i) as nat,
                        total as int,
                    ) is None);
                    assert(spec_stream_step(data@, pos0, total0) is None);
                    return Err(FormatError::BadBackwardHeader);
                },
            };
            if uncomp > u64::MAX - total {
                assert(spec_records(
                    data@,
                    rp as int,
                    pos as int,
                    (records - i) as nat,
                    total as int,
                ) is None);
                assert(spec_stream_step(data@, pos0, total0) is None);
                return Err(FormatError::Oversize);
            }
            pos = pos - padded as usize;
            total = total + uncomp;
            rp = rp2;
            i = i + 1;
        }
        // Step to the stream header and verify the 6-byte magic.
        if pos < 12 {
            assert(spec_stream_step(data@, pos0, total0) is None);
            return Err(FormatError::BadBackwardHeader);
        }
        pos = pos - 12;
        assert(pos + 6 <= n);
        if !(data[pos] == 0xfd && data[pos + 1] == 0x37 && data[pos + 2] == 0x7a && data[pos + 3]
            == 0x58 && data[pos + 4] == 0x5a && data[pos + 5] == 0x00) {
            assert(!spec_xz_magic_at(data@, pos as int));
            assert(spec_stream_step(data@, pos0, total0) is None);
            return Err(FormatError::BadStreamHeader);
        }
        assert(spec_stream_step(data@, pos0, total0) == Some((pos as int, total as int)));
        proof {
            lemma_stream_step_bounds(data@, pos0, total0);
        }
        if pos < 1 {
            assert(spec_xz_total_from(data@, pos0, total0) == Some(total as int));
            return Ok(total);
        }
    }
}

} // verus!
