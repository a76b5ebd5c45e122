use repo_manifest::gz::calculate_gz_decompressed_size;
use repo_manifest::sqfs::collect_squashfs_size_and_inodes;
use repo_manifest::sqfs::parse_super_block;
use repo_manifest::xz::calculate_xz_decompressed_size;
use repo_manifest::FormatError;

fn push_varint(out: &mut Vec<u8>, mut v: u64) {
    loop {
        let byte = (v & 0x7f) as u8;
        v >>= 7;
        if v == 0 {
            out.push(byte);
            break;
        }
        out.push(byte | 0x80);
    }
}

/// Builds one synthetic xz stream whose backward index declares the given
/// (unpadded, uncompressed) block sizes.
fn xz_stream(blocks: &[(u64, u64)]) -> Vec<u8> {
    let mut v = vec![0xFD, 0x37, 0x7A, 0x58, 0x5A, 0x00, 0x00, 0x01, 0x69, 0x22, 0xDE, 0x36];
    for &(u, _) in blocks {
        let padded = (u + 3) & !3;
        v.extend(std::iter::repeat(0u8).take(padded as usize));
    }
    let mut idx = vec![0u8];
    push_varint(&mut idx, blocks.len() as u64);
    for &(u, c) in blocks {
        push_varint(&mut idx, u);
        push_varint(&mut idx, c);
    }
    while idx.len() % 4 != 0 {
        idx.push(0);
    }
    let bsize = (idx.len() as u32) / 4 - 1;
    v.extend(idx);
    v.extend([0u8; 4]);
    v.extend(bsize.to_le_bytes());
    v.extend([0x00, 0x01]);
    v.extend([b'Y', b'Z']);
    v
}

#[test]
fn xz_single_stream_exact_sum() {
    let data = xz_stream(&[(5, 100), (8, 50)]);
    assert_eq!(calculate_xz_decompressed_size(&data), Ok(150));
}

#[test]
fn xz_multibyte_varints() {
    let data = xz_stream(&[(300, 1_000_000), (1000, 123_456_789)]);
    assert_eq!(calculate_xz_decompressed_size(&data), Ok(124_456_789));
}

#[test]
fn xz_concatenated_streams_sum() {
    let mut data = xz_stream(&[(5, 100), (8, 50)]);
    data.extend(xz_stream(&[(4, 7)]));
    data.extend(xz_stream(&[(16, 4096), (12, 2048)]));
    assert_eq!(calculate_xz_decompressed_size(&data), Ok(6301));
}

#[test]
fn xz_misaligned_stream_rejected() {
    let mut data = xz_stream(&[(4, 10)]);
    data.push(0);
    assert_eq!(calculate_xz_decompressed_size(&data), Err(FormatError::Misaligned));
}

#[test]
fn xz_truncated_stream_rejected() {
    let data = vec![0u8; 16];
    assert_eq!(calculate_xz_decompressed_size(&data), Err(FormatError::TooSmall));
    assert_eq!(calculate_xz_decompressed_size(&[]), Err(FormatError::TooSmall));
}

#[test]
fn xz_bad_stream_header_rejected() {
    let mut data = xz_stream(&[(4, 10)]);
    data[0] = 0x00;
    assert_eq!(calculate_xz_decompressed_size(&data), Err(FormatError::BadStreamHeader));
}

#[test]
fn xz_real_encoder_output_parses() {
    let payload: Vec<u8> = (0u32..40_000).map(|i| (i % 251) as u8).collect();
    let mut compressed = Vec::new();
    let mut enc = xz2::read::XzEncoder::new(payload.as_slice(), 6);
    std::io::Read::read_to_end(&mut enc, &mut compressed).unwrap();
    assert_eq!(calculate_xz_decompressed_size(&compressed), Ok(payload.len() as u64));
}

#[test]
fn xz_slow_path_counts_decoded_bytes() {
    let payload: Vec<u8> = (0u32..10_000).map(|i| (i % 13) as u8).collect();
    let mut compressed = Vec::new();
    let mut enc = xz2::read::XzEncoder::new(payload.as_slice(), 6);
    std::io::Read::read_to_end(&mut enc, &mut compressed).unwrap();
    let slow =
        repo_manifest::scan::calculate_tarball_decompressed_size(&compressed, false).unwrap();
    let fast = repo_manifest::scan::calculate_tarball_decompressed_size(&compressed, true).unwrap();
    assert_eq!(slow, payload.len() as u64);
    assert_eq!(fast, payload.len() as u64);
}

#[test]
fn xz_unterminated_varint_rejected() {
    // A record count varint that carries on for nine bytes overruns the
    // 63-bit shift limit.
    let mut data = vec![0xFD, 0x37, 0x7A, 0x58, 0x5A, 0x00, 0x00, 0x01, 0x69, 0x22, 0xDE, 0x36];
    let idx: Vec<u8> = vec![0, 0x80, 0x80, 0x80, 0x80, 0x80, 0x80, 0x80, 0x80, 0x80, 0x80, 0];
    let bsize = (idx.len() as u32) / 4 - 1;
    data.extend(idx);
    data.extend([0u8; 4]);
    data.extend(bsize.to_le_bytes());
    data.extend([0x00, 0x01]);
    data.extend([b'Y', b'Z']);
    assert_eq!(calculate_xz_decompressed_size(&data), Err(FormatError::BadVarint));
}

#[test]
fn xz_backward_size_out_of_range_rejected() {
    let mut data = xz_stream(&[(4, 10)]);
    let n = data.len();
    // Point the backward-size field far outside the stream.
    data[n - 8..n - 4].copy_from_slice(&0xFFFF_0000u32.to_le_bytes());
    assert_eq!(calculate_xz_decompressed_size(&data), Err(FormatError::BadBackwardHeader));
}

#[test]
fn xz_size_overflow_rejected() {
    let huge = u64::MAX / 2;
    let data = xz_stream(&[(0, huge), (0, huge), (0, huge)]);
    assert_eq!(calculate_xz_decompressed_size(&data), Err(FormatError::Oversize));
}

#[test]
fn gz_trailer_without_wraparound() {
    // Compressed length 1000 puts the trailer at 996; 996 * 2 = 1992
    // exceeds the decoded value 100, so no wraparound is assumed.
    let mut data = vec![0u8; 1000];
    data[996..].copy_from_slice(&100u32.to_le_bytes());
    assert_eq!(calculate_gz_decompressed_size(&data), Ok(100));
}

#[test]
fn gz_trailer_with_wraparound() {
    // An 18-byte stream puts the trailer at 14; 14 * 2 = 28 does not
    // exceed the decoded value 50, so one wraparound of 2^32 is assumed.
    let mut data = vec![0u8; 18];
    data[14..].copy_from_slice(&50u32.to_le_bytes());
    assert_eq!(calculate_gz_decompressed_size(&data), Ok(50 + (1u64 << 32)));
}

#[test]
fn gz_short_stream_rejected() {
    let data = vec![0u8; 17];
    assert_eq!(calculate_gz_decompressed_size(&data), Err(FormatError::TooSmall));
}

fn le16(v: u16) -> [u8; 2] {
    v.to_le_bytes()
}

/// Builds a minimal SquashFs image: a version 4.0 superblock and an inode
/// metadata region holding `inodes` records, stored or xz-compressed.
fn sqfs_image(inode_count: u32, inode_region: &[u8], compress: bool) -> Vec<u8> {
    let mut block = Vec::new();
    if compress {
        let mut compressed = Vec::new();
        let mut enc = xz2::read::XzEncoder::new(inode_region, 6);
        std::io::Read::read_to_end(&mut enc, &mut compressed).unwrap();
        assert!(compressed.len() < 0x8000);
        block.extend(le16(compressed.len() as u16));
        block.extend(&compressed);
    } else {
        block.extend(le16(0x8000 | inode_region.len() as u16));
        block.extend(inode_region);
    }
    let inode_tbl: u64 = 128;
    let dir_tbl: u64 = inode_tbl + block.len() as u64;
    let total = dir_tbl;
    let mut v = Vec::new();
    v.extend(0x73717368u32.to_le_bytes()); // magic
    v.extend(inode_count.to_le_bytes()); // inode count
    v.extend(0u32.to_le_bytes()); // mtime
    v.extend(4096u32.to_le_bytes()); // block size
    v.extend(0u32.to_le_bytes()); // fragment count
    v.extend(le16(4)); // compression: xz
    v.extend(le16(12)); // block log
    v.extend(le16(0)); // flags
    v.extend(le16(1)); // id count
    v.extend(le16(4)); // version major
    v.extend(le16(0)); // version minor
    v.extend(0u64.to_le_bytes()); // root inode
    v.extend(total.to_le_bytes()); // bytes used
    v.extend(0u64.to_le_bytes()); // id table
    v.extend(u64::MAX.to_le_bytes()); // xattr table
    v.extend(inode_tbl.to_le_bytes()); // inode table
    v.extend(dir_tbl.to_le_bytes()); // directory table
    v.extend(u64::MAX.to_le_bytes()); // fragment table
    v.extend(u64::MAX.to_le_bytes()); // export table
    while v.len() < 128 {
        v.push(0);
    }
    v.extend(block);
    v
}

/// One basic file inode record of the given size, with a tail fragment.
fn file_inode(size: u32) -> Vec<u8> {
    let mut r = Vec::new();
    r.extend(le16(2)); // type: basic file
    r.extend(le16(0o644)); // permissions
    r.extend(le16(0)); // uid
    r.extend(le16(0)); // gid
    r.extend(0u32.to_le_bytes()); // mtime
    r.extend(1u32.to_le_bytes()); // inode number
    r.extend(0u32.to_le_bytes()); // block start
    r.extend(0u32.to_le_bytes()); // fragment index
    r.extend(0u32.to_le_bytes()); // fragment offset
    r.extend(size.to_le_bytes()); // file size
    // one 4-byte block-size entry per whole data block
    r.extend(vec![0u8; 4 * (size as usize / 4096)]);
    r
}

#[test]
fn sqfs_three_files_summed_with_inode_count() {
    let mut region = Vec::new();
    region.extend(file_inode(10));
    region.extend(file_inode(20));
    region.extend(file_inode(30));
    let image = sqfs_image(5, &region, false);
    assert_eq!(collect_squashfs_size_and_inodes(&image), Ok((60, 5)));
}

#[test]
fn sqfs_compressed_metadata_block_decoded() {
    let mut region = Vec::new();
    region.extend(file_inode(10));
    region.extend(file_inode(20));
    region.extend(file_inode(30));
    let image = sqfs_image(5, &region, true);
    assert_eq!(collect_squashfs_size_and_inodes(&image), Ok((60, 5)));
}

#[test]
fn sqfs_mixed_inode_types() {
    let mut region = Vec::new();
    // One basic directory record: 16-byte header + 16 extension bytes.
    region.extend(le16(1));
    region.extend(vec![0u8; 30]);
    region.extend(file_inode(4096 + 1)); // one whole block and a fragment
    // A symlink with a 3-byte target: 16 + 8 + 3 bytes.
    region.extend(le16(3));
    region.extend(vec![0u8; 14]);
    region.extend(1u32.to_le_bytes()); // link count
    region.extend(3u32.to_le_bytes()); // target length
    region.extend(b"abc");
    let image = sqfs_image(3, &region, false);
    assert_eq!(collect_squashfs_size_and_inodes(&image), Ok((4097, 3)));
}

#[test]
fn sqfs_file_without_tail_fragment_rounds_up() {
    // With no tail fragment (index 0xFFFFFFFF) a non-dividing size claims
    // one extra data block, lengthening the record's block-size list.
    let mut r = Vec::new();
    r.extend(le16(2)); // type: basic file
    r.extend(vec![0u8; 14]);
    r.extend(0u32.to_le_bytes()); // block start
    r.extend(u32::MAX.to_le_bytes()); // fragment index: none
    r.extend(0u32.to_le_bytes()); // fragment offset
    r.extend(5000u32.to_le_bytes()); // file size: 1 whole block + remainder
    r.extend(vec![0u8; 8]); // two block-size entries
    let image = sqfs_image(1, &r, false);
    assert_eq!(collect_squashfs_size_and_inodes(&image), Ok((5000, 1)));
}

#[test]
fn sqfs_extended_directory_with_index() {
    let mut region = Vec::new();
    region.extend(le16(8)); // type: extended directory
    region.extend(vec![0u8; 14]);
    region.extend(vec![0u8; 16]); // link count, file size, block index, parent
    region.extend(le16(1)); // directory index count
    region.extend(le16(0)); // block offset
    region.extend(0u32.to_le_bytes()); // xattr index
    // One index entry: position, start, one less than the name length,
    // then the name itself.
    region.extend(0u32.to_le_bytes());
    region.extend(0u32.to_le_bytes());
    region.extend(3u32.to_le_bytes());
    region.extend(b"abcd");
    region.extend(file_inode(7));
    let image = sqfs_image(2, &region, false);
    assert_eq!(collect_squashfs_size_and_inodes(&image), Ok((7, 2)));
}

#[test]
fn sqfs_superblock_rejections() {
    let region = file_inode(1);
    let good = sqfs_image(1, &region, false);

    let mut bad_magic = good.clone();
    bad_magic[0] = 0;
    assert_eq!(parse_super_block(&bad_magic).unwrap_err(), FormatError::BadMagic);

    let mut bad_version = good.clone();
    bad_version[28] = 3;
    assert_eq!(parse_super_block(&bad_version).unwrap_err(), FormatError::UnsupportedVersion);

    let mut bad_blksize = good.clone();
    bad_blksize[12..16].copy_from_slice(&4095u32.to_le_bytes());
    assert_eq!(parse_super_block(&bad_blksize).unwrap_err(), FormatError::CorruptBlockSize);

    let mut bad_bytes = good.clone();
    bad_bytes[40..48].copy_from_slice(&u64::MAX.to_le_bytes());
    assert_eq!(parse_super_block(&bad_bytes).unwrap_err(), FormatError::CorruptLength);

    assert_eq!(parse_super_block(&good[..100]).unwrap_err(), FormatError::TooSmall);
    assert!(parse_super_block(&good).is_ok());
}

#[test]
fn sqfs_truncated_metadata_block_rejected() {
    let region = file_inode(1);
    let mut image = sqfs_image(1, &region, false);
    // Claim a metadata block longer than the region holds.
    let len = image.len();
    image[128..130].copy_from_slice(&(0x8000u16 | 0x7000).to_le_bytes());
    assert_eq!(collect_squashfs_size_and_inodes(&image[..len]), Err(FormatError::Truncated));
}

#[test]
fn scan_file_too_large_size_rejected() {
    // A declared content size beyond i64 cannot be represented in the
    // manifest.
    let mut region = Vec::new();
    region.extend(le16(9)); // type: extended file
    region.extend(vec![0u8; 14]);
    region.extend(0u64.to_le_bytes()); // block start
    region.extend((1u64 << 63).to_le_bytes()); // file size
    region.extend(0u64.to_le_bytes()); // sparse
    region.extend(1u32.to_le_bytes()); // link count
    region.extend(0u32.to_le_bytes()); // fragment index
    region.extend(0u32.to_le_bytes()); // fragment offset
    region.extend(0u32.to_le_bytes()); // xattr index
    let image = sqfs_image(1, &region, false);
    assert_eq!(collect_squashfs_size_and_inodes(&image), Ok((1u64 << 63, 1)));
    assert_eq!(
        repo_manifest::scan::scan_file("a_b_c_d.squashfs", &image, false, true),
        Err(repo_manifest::scan::ScanError::TooLarge)
    );
}

#[test]
fn sqfs_corrupt_compressed_block_rejected() {
    // A metadata block marked compressed but holding garbage is refused by
    // the decompressor and fails the artifact.
    let garbage = vec![0x55u8; 24];
    let mut block = Vec::new();
    block.extend((garbage.len() as u16).to_le_bytes());
    block.extend(&garbage);
    let region_placeholder = file_inode(1);
    let mut image = sqfs_image(1, &region_placeholder, false);
    image.truncate(128);
    let dir_tbl: u64 = 128 + block.len() as u64;
    image[40..48].copy_from_slice(&dir_tbl.to_le_bytes()); // bytes used
    image[72..80].copy_from_slice(&dir_tbl.to_le_bytes()); // directory table
    image.extend(block);
    assert_eq!(collect_squashfs_size_and_inodes(&image), Err(FormatError::BadRecord));
}

#[test]
fn xz_slow_path_rejects_garbage() {
    let garbage = vec![0x13u8; 64];
    assert_eq!(
        repo_manifest::scan::calculate_tarball_decompressed_size(&garbage, false),
        Err(FormatError::BadRecord)
    );
}

#[test]
fn sqfs_zero_advance_is_fatal() {
    // An unknown inode type yields a zero advance, which must be reported
    // as a corrupt table rather than looping.
    let mut region = Vec::new();
    region.extend(le16(15));
    region.extend(vec![0u8; 30]);
    let image = sqfs_image(1, &region, false);
    assert_eq!(collect_squashfs_size_and_inodes(&image), Err(FormatError::BadRecord));
}
