//! The xz oracle recovers exact sizes: a byte-level builder for whole xz
//! streams with known per-block uncompressed sizes, and the proof that the
//! backward-index walk returns exactly their sum.
use vstd::prelude::*;

use crate::cursor::le_at;
use crate::xz::pow128;
use crate::xz::spec_find_footer;
use crate::xz::spec_records;
use crate::xz::spec_stream_step;
use crate::xz::spec_varint_at;
use crate::xz::spec_xz_magic_at;
use crate::xz::spec_xz_total;
use crate::xz::spec_xz_total_from;

verus! {

/// Base-128 varint encoding of `v`: little-endian groups of seven bits,
/// the high bit flagging continuation.
pub open spec fn spec_varint_enc(v: nat) -> Seq<u8>
    decreases v,
{
    if v < 128 {
        seq![v as u8]
    } else {
        seq![(v % 128 + 128) as u8] + spec_varint_enc(v / 128)
    }
}

/// An encoded value below `128^k` takes at most `k` bytes.
proof fn lemma_varint_enc_len(v: nat, k: nat)
    requires
        v < pow128(k),
        k >= 1,
    ensures
        1 <= spec_varint_enc(v).len() <= k,
    decreases v,
{
    if v >= 128 {
        assert(pow128(k) == 128 * pow128((k - 1) as nat));
        assert(v / 128 < pow128((k - 1) as nat)) by (nonlinear_arith)
            requires
                v < 128 * pow128((k - 1) as nat),
                v >= 128,
        ;
        lemma_varint_enc_len(v / 128, (k - 1) as nat);
    }
}

/// Decoding an encoded varint embedded in `s` yields the value back and
/// lands just past it.
proof fn lemma_varint_roundtrip(s: Seq<u8>, pos: int, v: nat, rounds: nat)
    requires
        0 <= pos,
        pos + spec_varint_enc(v).len() <= s.len(),
        s.subrange(pos, pos + spec_varint_enc(v).len()) == spec_varint_enc(v),
        spec_varint_enc(v).len() <= rounds,
    ensures
        spec_varint_at(s, pos, rounds) == Some((v as int, pos + spec_varint_enc(v).len())),
    decreases v,
{
    let e = spec_varint_enc(v);
    assert(s[pos] == s.subrange(pos, pos + e.len())[0]);
    if v < 128 {
        assert(s[pos] == v as u8);
    } else {
        assert(s[pos] == (v % 128 + 128) as u8);
        let e1 = spec_varint_enc(v / 128);
        assert(e == seq![(v % 128 + 128) as u8] + e1);
        assert(s.subrange(pos + 1, pos + 1 + e1.len()) =~= e1) by {
            assert forall|i: int| 0 <= i < e1.len() implies s.subrange(
                pos + 1,
                pos + 1 + e1.len(),
            )[i] == e1[i] by {
                assert(s.subrange(pos, pos + e.len())[i + 1] == e[i + 1]);
            }
        }
        lemma_varint_roundtrip(s, pos + 1, v / 128, (rounds - 1) as nat);
        assert(v % 128 + 128 * (v / 128) == v) by (nonlinear_arith);
        assert(s[pos] >= 128);
        assert(s[pos] - 128 + 128 * ((v / 128) as int) == v);
    }
}

/// `n` zero bytes.
pub open spec fn spec_zeros(n: nat) -> Seq<u8> {
    Seq::new(n, |i: int| 0u8)
}

/// `n` rounded up to a multiple of four.
pub open spec fn spec_pad4(n: nat) -> nat {
    (((n + 3) / 4) * 4) as nat
}

/// The 4-byte little-endian encoding of `v`.
pub open spec fn spec_le4(v: nat) -> Seq<u8> {
    seq![
        (v % 256) as u8,
        ((v / 256) % 256) as u8,
        ((v / 0x1_0000) % 256) as u8,
        ((v / 0x100_0000) % 256) as u8,
    ]
}

/// Reading back a 4-byte little-endian encoding embedded in `s`.
proof fn lemma_le4_roundtrip(s: Seq<u8>, pos: int, v: nat)
    requires
        0 <= pos,
        pos + 4 <= s.len(),
        v < 0x1_0000_0000,
        s.subrange(pos, pos + 4) == spec_le4(v),
    ensures
        le_at(s, pos, 4) == v,
{
    let e = spec_le4(v);
    assert(s[pos] == s.subrange(pos, pos + 4)[0]);
    assert(s[pos + 1] == s.subrange(pos, pos + 4)[1]);
    assert(s[pos + 2] == s.subrange(pos, pos + 4)[2]);
    assert(s[pos + 3] == s.subrange(pos, pos + 4)[3]);
    reveal_with_fuel(le_at, 5);
    assert(v % 256 + 256 * ((v / 256) % 256 + 256 * ((v / 0x1_0000) % 256 + 256 * ((v
        / 0x100_0000) % 256))) == v) by (nonlinear_arith)
        requires
            v < 0x1_0000_0000,
    ;
}

/// The index records of the blocks `(unpadded, uncompressed)`, encoded in
/// order.
pub open spec fn spec_records_enc(blocks: Seq<(nat, nat)>) -> Seq<u8>
    decreases blocks.len(),
{
    if blocks.len() == 0 {
        Seq::empty()
    } else {
        spec_varint_enc(blocks[0].0) + spec_varint_enc(blocks[0].1) + spec_records_enc(
            blocks.drop_first(),
        )
    }
}

/// The padded sizes of the blocks, summed: how many bytes the block region
/// of the stream occupies.
pub open spec fn spec_padded_sum(blocks: Seq<(nat, nat)>) -> nat
    decreases blocks.len(),
{
    if blocks.len() == 0 {
        0
    } else {
        spec_pad4(blocks[0].0) + spec_padded_sum(blocks.drop_first())
    }
}

/// The uncompressed sizes of the blocks, summed.
pub open spec fn spec_uncomp_sum(blocks: Seq<(nat, nat)>) -> nat
    decreases blocks.len(),
{
    if blocks.len() == 0 {
        0
    } else {
        blocks[0].1 + spec_uncomp_sum(blocks.drop_first())
    }
}

/// The index of a stream: the indicator byte, the record count, the
/// records, and zero padding up to 4-byte alignment.
pub open spec fn spec_index_enc(blocks: Seq<(nat, nat)>) -> Seq<u8> {
    let body = seq![0u8] + spec_varint_enc(blocks.len()) + spec_records_enc(blocks);
    body + spec_zeros((spec_pad4(body.len()) - body.len()) as nat)
}

/// The 12-byte stream header: the xz magic and fixed flag/checksum filler.
pub open spec fn spec_header_enc() -> Seq<u8> {
    seq![0xfdu8, 0x37u8, 0x7au8, 0x58u8, 0x5au8, 0x00u8, 0x00u8, 0x01u8, 0x69u8, 0x22u8, 0xdeu8, 0x36u8]
}

/// The 12-byte stream footer: checksum filler, the backward-size field,
/// flag filler, and the `YZ` magic.
pub open spec fn spec_footer_enc(blocks: Seq<(nat, nat)>) -> Seq<u8> {
    spec_zeros(4) + spec_le4((spec_index_enc(blocks).len() / 4 - 1) as nat) + seq![
        0x00u8,
        0x01u8,
        0x59u8,
        0x5au8,
    ]
}

/// One whole synthetic xz stream over the given blocks: header, zeroed
/// block region of the declared padded length, index, footer.
pub open spec fn spec_stream_enc(blocks: Seq<(nat, nat)>) -> Seq<u8> {
    spec_header_enc() + spec_zeros(spec_padded_sum(blocks)) + spec_index_enc(blocks)
        + spec_footer_enc(blocks)
}

/// Whether one stream's blocks keep every field in the range its encoding
/// carries: at least one block, sizes within the 63-bit varint range, and
/// a nonempty block region.
pub open spec fn spec_stream_ok(blocks: Seq<(nat, nat)>) -> bool {
    &&& 1 <= blocks.len() < 0x8000_0000_0000_0000
    &&& spec_padded_sum(blocks) >= 4
    &&& spec_index_enc(blocks).len() < 0x4_0000_0000
    &&& forall|i: int|
        0 <= i < blocks.len() ==> (#[trigger] blocks[i]).0 < 0x8000_0000_0000_0000 && blocks[i].1
            < 0x8000_0000_0000_0000
}

/// A whole synthetic file: the streams concatenated in order.
pub open spec fn spec_streams_enc(streams: Seq<Seq<(nat, nat)>>) -> Seq<u8>
    decreases streams.len(),
{
    if streams.len() == 0 {
        Seq::empty()
    } else {
        spec_streams_enc(streams.drop_last()) + spec_stream_enc(streams.last())
    }
}

/// The total uncompressed size a synthetic file declares.
pub open spec fn spec_streams_sum(streams: Seq<Seq<(nat, nat)>>) -> nat
    decreases streams.len(),
{
    if streams.len() == 0 {
        0
    } else {
        spec_streams_sum(streams.drop_last()) + spec_uncomp_sum(streams.last())
    }
}

/// A piece of an embedded encoding is itself embedded at its offset.
proof fn lemma_subrange_embed(s: Seq<u8>, base: int, whole: Seq<u8>, off: int, part: Seq<u8>)
    requires
        0 <= base,
        base + whole.len() <= s.len(),
        s.subrange(base, base + whole.len()) == whole,
        0 <= off,
        off + part.len() <= whole.len(),
        whole.subrange(off, off + part.len()) == part,
    ensures
        s.subrange(base + off, base + off + part.len()) == part,
{
    assert(s.subrange(base + off, base + off + part.len()) =~= part) by {
        assert forall|i: int| 0 <= i < part.len() implies s.subrange(
            base + off,
            base + off + part.len(),
        )[i] == part[i] by {
            assert(s.subrange(base, base + whole.len())[off + i] == whole[off + i]);
            assert(whole.subrange(off, off + part.len())[i] == part[i]);
        }
    }
}

/// Folding the index records of an embedded encoding steps the block
/// cursor back by the padded sizes and accumulates the uncompressed sizes.
proof fn lemma_records_fold(s: Seq<u8>, rp: int, pos: int, blocks: Seq<(nat, nat)>, total: int)
    requires
        0 <= rp,
        rp + spec_records_enc(blocks).len() <= s.len(),
        s.subrange(rp, rp + spec_records_enc(blocks).len()) == spec_records_enc(blocks),
        forall|i: int|
            0 <= i < blocks.len() ==> (#[trigger] blocks[i]).0 < 0x8000_0000_0000_0000
                && blocks[i].1 < 0x8000_0000_0000_0000,
        spec_padded_sum(blocks) <= pos,
        0 <= total,
        total + spec_uncomp_sum(blocks) <= u64::MAX,
    ensures
        spec_records(s, rp, pos, blocks.len(), total) == Some(
            (
                rp + spec_records_enc(blocks).len(),
                pos - spec_padded_sum(blocks),
                total + spec_uncomp_sum(blocks),
            ),
        ),
    decreases blocks.len(),
{
    crate::xz::lemma_pow128_words();
    if blocks.len() > 0 {
        let u0 = blocks[0].0;
        let c0 = blocks[0].1;
        let e_u = spec_varint_enc(u0);
        let e_c = spec_varint_enc(c0);
        let rest = spec_records_enc(blocks.drop_first());
        let whole = spec_records_enc(blocks);
        assert(whole == e_u + e_c + rest);
        lemma_varint_enc_len(u0, 9);
        lemma_varint_enc_len(c0, 9);
        assert(whole.subrange(0, e_u.len() as int) =~= e_u);
        lemma_subrange_embed(s, rp, whole, 0, e_u);
        lemma_varint_roundtrip(s, rp, u0, 9);
        let rp1 = rp + e_u.len();
        assert(whole.subrange(e_u.len() as int, (e_u.len() + e_c.len()) as int) =~= e_c);
        lemma_subrange_embed(s, rp, whole, e_u.len() as int, e_c);
        lemma_varint_roundtrip(s, rp1, c0, 9);
        let rp2 = rp1 + e_c.len();
        let padded = spec_pad4(u0);
        assert(padded == ((u0 + 3) / 4) * 4);
        assert(padded <= spec_padded_sum(blocks));
        assert(c0 <= spec_uncomp_sum(blocks));
        assert(whole.subrange(
            (e_u.len() + e_c.len()) as int,
            (e_u.len() + e_c.len() + rest.len()) as int,
        ) =~= rest);
        lemma_subrange_embed(s, rp, whole, (e_u.len() + e_c.len()) as int, rest);
        lemma_records_fold(s, rp2, pos - padded, blocks.drop_first(), total + c0);
        assert(blocks.drop_first().len() == blocks.len() - 1);
    }
}

/// The concatenated encodings below position `base` never change what one
/// embedded stream's backward step yields: it lands at the stream's own
/// start, with the stream's uncompressed sizes added to the total.
proof fn lemma_stream_step_enc(s: Seq<u8>, base: int, blocks: Seq<(nat, nat)>, total: int)
    requires
        spec_stream_ok(blocks),
        0 <= base,
        base + spec_stream_enc(blocks).len() <= s.len(),
        s.subrange(base, base + spec_stream_enc(blocks).len()) == spec_stream_enc(blocks),
        0 <= total,
        total + spec_uncomp_sum(blocks) <= u64::MAX,
    ensures
        spec_stream_step(s, base + spec_stream_enc(blocks).len(), total) == Some(
            (base, total + spec_uncomp_sum(blocks)),
        ),
{
    let hdr = spec_header_enc();
    let pp = spec_padded_sum(blocks);
    let zs = spec_zeros(pp);
    let idx = spec_index_enc(blocks);
    let ftr = spec_footer_enc(blocks);
    let enc = spec_stream_enc(blocks);
    let count = blocks.len();
    let e_n = spec_varint_enc(count);
    let recs = spec_records_enc(blocks);
    let body = seq![0u8] + e_n + recs;
    assert(enc == hdr + zs + idx + ftr);
    assert(hdr.len() == 12);
    assert(ftr.len() == 12);
    assert(idx.len() >= body.len() >= 2);
    assert(idx.len() % 4 == 0 && idx.len() >= 4) by {
        let b = body.len() as int;
        assert(idx.len() == ((b + 3) / 4) * 4);
        assert((((b + 3) / 4) * 4) % 4 == 0) by (nonlinear_arith);
        assert(((b + 3) / 4) * 4 >= b) by (nonlinear_arith)
            requires
                b >= 0,
        ;
        assert(((2int + 3) / 4) * 4 == 4);
        assert((b + 3) / 4 >= 1) by (nonlinear_arith)
            requires
                b >= 2,
        ;
        assert(((b + 3) / 4) * 4 >= 4) by (nonlinear_arith)
            requires
                (b + 3) / 4 >= 1,
        ;
    }
    let pos = base + enc.len();
    assert(enc.len() == 24 + pp + idx.len());
    assert(pos >= 32);

    // The footer magic sits at the very end, so the backward scan hits it
    // on its first probe.
    assert(s[pos - 2] == 0x59 && s[pos - 1] == 0x5a) by {
        assert(s.subrange(base, base + enc.len())[enc.len() - 2] == enc[enc.len() - 2]);
        assert(s.subrange(base, base + enc.len())[enc.len() - 1] == enc[enc.len() - 1]);
        assert(enc[enc.len() - 2] == ftr[10]);
        assert(enc[enc.len() - 1] == ftr[11]);
        assert(ftr[10] == 0x59 && ftr[11] == 0x5a);
    }
    assert(spec_find_footer(s, pos) == Some(pos - 4));
    let f = pos - 4;

    // The backward-size field encodes the index length.
    let bsize = (idx.len() / 4 - 1) as nat;
    assert(le_at(s, f - 4, 4) == bsize) by {
        assert(ftr.subrange(4, 8) =~= spec_le4(bsize));
        assert(enc.subrange((12 + pp + idx.len() + 4) as int, (12 + pp + idx.len() + 8) as int)
            =~= ftr.subrange(4, 8));
        lemma_subrange_embed(s, base, enc, (12 + pp + idx.len() + 4) as int, spec_le4(bsize));
        lemma_le4_roundtrip(s, base + 12 + pp + idx.len() + 4, bsize);
    }
    assert((bsize + 1) * 4 == idx.len()) by (nonlinear_arith)
        requires
            bsize == idx.len() / 4 - 1,
            idx.len() % 4 == 0,
            idx.len() >= 4,
    ;
    let istart = f - (bsize + 1) * 4 - 8;
    assert(istart == base + 12 + pp);

    // The record count follows the indicator byte at the index start.
    crate::xz::lemma_pow128_words();
    lemma_varint_enc_len(count, 9);
    assert(spec_varint_at(s, istart + 1, 9) == Some((count as int, istart + 1 + e_n.len()))) by {
        assert(idx.subrange(1, 1 + e_n.len() as int) =~= e_n);
        assert(enc.subrange((12 + pp + 1) as int, (12 + pp + 1 + e_n.len()) as int)
            =~= idx.subrange(1, 1 + e_n.len() as int));
        lemma_subrange_embed(s, base, enc, (12 + pp + 1) as int, e_n);
        lemma_varint_roundtrip(s, istart + 1, count, 9);
    }
    let rp0 = istart + 1 + e_n.len();

    // Folding the records consumes the block region and sums the sizes.
    assert(idx.subrange((1 + e_n.len()) as int, (1 + e_n.len() + recs.len()) as int) =~= recs);
    assert(enc.subrange(
        (12 + pp + 1 + e_n.len()) as int,
        (12 + pp + 1 + e_n.len() + recs.len()) as int,
    ) =~= idx.subrange((1 + e_n.len()) as int, (1 + e_n.len() + recs.len()) as int));
    lemma_subrange_embed(s, base, enc, (12 + pp + 1 + e_n.len()) as int, recs);
    lemma_records_fold(s, rp0, istart, blocks, total);
    assert(spec_records(s, rp0, istart, count, total) == Some(
        (rp0 + recs.len(), istart - pp, total + spec_uncomp_sum(blocks)),
    ));
    let pos_after = istart - pp;
    assert(pos_after == base + 12);
    let hpos = pos_after - 12;
    assert(hpos == base);

    // The stream header magic opens the stream.
    assert(spec_xz_magic_at(s, base)) by {
        assert forall|i: int| 0 <= i < 6 implies s[base + i] == hdr[i] by {
            assert(s.subrange(base, base + enc.len())[i] == enc[i]);
            assert(enc[i] == hdr[i]);
        }
        assert(s[base] == 0xfd);
        assert(s[base + 1] == 0x37);
        assert(s[base + 2] == 0x7a);
        assert(s[base + 3] == 0x58);
        assert(s[base + 4] == 0x5a);
        assert(s[base + 5] == 0x00);
    }
}

/// Walking every embedded stream backward accumulates all their sizes.
proof fn lemma_streams_walk(s: Seq<u8>, streams: Seq<Seq<(nat, nat)>>, total: int)
    requires
        streams.len() >= 1,
        forall|i: int| 0 <= i < streams.len() ==> spec_stream_ok(#[trigger] streams[i]),
        spec_streams_enc(streams).len() <= s.len(),
        s.subrange(0, spec_streams_enc(streams).len() as int) == spec_streams_enc(streams),
        0 <= total,
        total + spec_streams_sum(streams) <= u64::MAX,
    ensures
        spec_xz_total_from(s, spec_streams_enc(streams).len() as int, total) == Some(
            total + spec_streams_sum(streams),
        ),
    decreases streams.len(),
{
    let last = streams.last();
    let prefix = streams.drop_last();
    let whole = spec_streams_enc(streams);
    let plen = spec_streams_enc(prefix).len() as int;
    let end = whole.len() as int;
    assert(streams[streams.len() - 1] == last);
    assert(whole == spec_streams_enc(prefix) + spec_stream_enc(last));
    assert(end - plen == spec_stream_enc(last).len());
    assert(whole.subrange(plen, end) =~= spec_stream_enc(last));
    lemma_subrange_embed(s, 0, whole, plen, spec_stream_enc(last));
    lemma_stream_step_enc(s, plen, last, total);
    assert(spec_stream_step(s, end, total) == Some((plen, total + spec_uncomp_sum(last))));
    assert(spec_stream_enc(last).len() >= 32);
    if plen == 0 {
        assert(spec_xz_total_from(s, end, total) == Some(total + spec_uncomp_sum(last)));
        assert(spec_streams_sum(streams) == spec_streams_sum(prefix) + spec_uncomp_sum(last));
        assert(prefix.len() == 0);
        assert(spec_streams_sum(prefix) == 0);
    } else {
        assert(prefix.len() >= 1) by {
            if prefix.len() == 0 {
                assert(spec_streams_enc(prefix).len() == 0);
            }
        }
        assert(forall|i: int|
            0 <= i < prefix.len() ==> spec_stream_ok(#[trigger] prefix[i])) by {
            assert(forall|i: int| 0 <= i < prefix.len() ==> prefix[i] == streams[i]);
        }
        assert(s.subrange(0, plen) =~= spec_streams_enc(prefix)) by {
            assert forall|i: int| 0 <= i < plen implies s.subrange(0, plen)[i]
                == spec_streams_enc(prefix)[i] by {
                assert(s.subrange(0, end)[i] == whole[i]);
            }
        }
        lemma_streams_walk(s, prefix, total + spec_uncomp_sum(last));
        assert(0 < plen < end);
    }
}

/// The per-stream length is a multiple of four, and so is the whole file.
proof fn lemma_streams_enc_mod4(streams: Seq<Seq<(nat, nat)>>)
    requires
        forall|i: int| 0 <= i < streams.len() ==> spec_stream_ok(#[trigger] streams[i]),
    ensures
        spec_streams_enc(streams).len() % 4 == 0,
    decreases streams.len(),
{
    if streams.len() > 0 {
        let last = streams.last();
        assert(streams[streams.len() - 1] == last);
        assert(forall|i: int|
            0 <= i < streams.drop_last().len() ==> streams.drop_last()[i] == streams[i]);
        lemma_streams_enc_mod4(streams.drop_last());
        lemma_padded_sum_mod4(last);
        let body = (seq![0u8] + spec_varint_enc(last.len()) + spec_records_enc(last)).len() as int;
        assert(spec_index_enc(last).len() == ((body + 3) / 4) * 4);
        assert((((body + 3) / 4) * 4) % 4 == 0) by (nonlinear_arith);
        assert(spec_stream_enc(last).len() == 24 + spec_padded_sum(last) + spec_index_enc(
            last,
        ).len());
        assert((spec_streams_enc(streams.drop_last()).len() + spec_stream_enc(last).len()) % 4
            == 0);
    }
}

proof fn lemma_padded_sum_mod4(blocks: Seq<(nat, nat)>)
    ensures
        spec_padded_sum(blocks) % 4 == 0,
    decreases blocks.len(),
{
    if blocks.len() > 0 {
        lemma_padded_sum_mod4(blocks.drop_first());
        let u = blocks[0].0 as int;
        assert((((u + 3) / 4) * 4) % 4 == 0) by (nonlinear_arith);
    }
}

/// For every synthetically constructed xz file — one or more whole streams
/// with known per-block uncompressed sizes, each within the format's
/// ranges — the backward-index walk recovers exactly the sum of those
/// sizes.  The oracle's own contract then carries this to its result.
pub proof fn lemma_xz_oracle_exact(streams: Seq<Seq<(nat, nat)>>)
    requires
        streams.len() >= 1,
        forall|i: int| 0 <= i < streams.len() ==> spec_stream_ok(#[trigger] streams[i]),
        spec_streams_sum(streams) <= u64::MAX,
    ensures
        spec_xz_total(spec_streams_enc(streams)) == Some(spec_streams_sum(streams) as int),
{
    let s = spec_streams_enc(streams);
    lemma_streams_enc_mod4(streams);
    assert(s.subrange(0, s.len() as int) =~= s);
    lemma_streams_walk(s, streams, 0);
}

} // verus!
