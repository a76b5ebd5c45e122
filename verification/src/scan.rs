//! The per-file scan step and the incremental scan planner: classify a
//! candidate by name and magic bytes, pick the matching size oracle, hash
//! the content, and reuse entries of a previous manifest for files whose
//! paths are unchanged.
use vstd::prelude::*;
use vstd::string::*;

use crate::parser::contains_str;
use crate::parser::get_splitted_name;
use crate::parser::spec_contains_str;
use crate::parser::spec_name_arch;
use crate::parser::spec_name_date;
use crate::parser::spec_name_ext;
use crate::parser::spec_name_variant;
use crate::parser::spec_split_name_ok;
use crate::parser::spec_tier_contains;
use crate::parser::str_eq;
use crate::parser::RootFSType;
use crate::parser::Tarball;
use crate::parser::UserConfig;
use crate::parser::UserVariantConfig;
use crate::sqfs::collect_squashfs_size_and_inodes;
use crate::sqfs::spec_squashfs_result;
use crate::xz::calculate_xz_decompressed_size;
use crate::xz::spec_xz_extract;
use crate::xz::spec_xz_ok;
use crate::xz::spec_xz_total;
use crate::xz::xz_stream_total_out;
use crate::FormatError;

verus! {

/// Why one candidate file was dropped from the scan.
#[derive(Clone, Copy, Debug, PartialEq, Eq, Structural)]
pub enum ScanError {
    /// The filename does not match the artifact naming grammar.
    BadFileName,
    /// The file is too short to probe for magic bytes.
    TooSmall,
    /// The matching size oracle rejected the artifact.
    Format(FormatError),
    /// A size does not fit the signed 64-bit manifest representation.
    TooLarge,
}

// ---------------------------------------------------------------------------
// Classifier
// ---------------------------------------------------------------------------

/// Whether `s` ends with `suffix`.
pub open spec fn spec_ends_with(s: Seq<char>, suffix: Seq<char>) -> bool {
    s.len() >= suffix.len() && s.subrange(s.len() - suffix.len(), s.len() as int) == suffix
}

/// Whether `s` starts with `prefix`.
pub open spec fn spec_starts_with(s: Seq<char>, prefix: Seq<char>) -> bool {
    s.len() >= prefix.len() && s.subrange(0, prefix.len() as int) == prefix
}

/// Whether `s` ends with the characters of `suffix`.
#[verifier::loop_isolation(false)]
pub fn ends_with(s: &str, suffix: &str) -> (r: bool)
    ensures
        r == spec_ends_with(s@, suffix@),
{
    let ls = s.unicode_len();
    let lx = suffix.unicode_len();
    if ls < lx {
        return false;
    }
    let mut i: usize = 0;
    while i < lx
        invariant
            i <= lx,
            forall|k: int| 0 <= k < i ==> s@[ls - lx + k] == suffix@[k],
        decreases lx - i,
    {
        if s.get_char(ls - lx + i) != suffix.get_char(i) {
            assert(s@.subrange(s@.len() - lx, s@.len() as int)[i as int] != suffix@[i as int]);
            return false;
        }
        i = i + 1;
    }
    proof {
        assert(s@.subrange(s@.len() - lx, s@.len() as int) =~= suffix@);
    }
    true
}

/// Whether `s` starts with the characters of `prefix`.
#[verifier::loop_isolation(false)]
pub fn starts_with(s: &str, prefix: &str) -> (r: bool)
    ensures
        r == spec_starts_with(s@, prefix@),
{
    let ls = s.unicode_len();
    let lx = prefix.unicode_len();
    if ls < lx {
        return false;
    }
    let mut i: usize = 0;
    while i < lx
        invariant
            i <= lx,
            forall|k: int| 0 <= k < i ==> s@[k] == prefix@[k],
        decreases lx - i,
    {
        if s.get_char(i) != prefix.get_char(i) {
            assert(s@.subrange(0, lx as int)[i as int] != prefix@[i as int]);
            return false;
        }
        i = i + 1;
    }
    proof {
        assert(s@.subrange(0, lx as int) =~= prefix@);
    }
    true
}

/// Whether a filename names an xz tarball.
pub fn is_tarball(name: &str) -> (r: bool)
    ensures
        r == spec_ends_with(name@, ".tar.xz"@),
{
    ends_with(name, ".tar.xz")
}

/// Whether a filename names an ISO image.
pub fn is_iso(name: &str) -> (r: bool)
    ensures
        r == spec_ends_with(name@, ".iso"@),
{
    ends_with(name, ".iso")
}

/// Whether a probed header starts with the SquashFs magic `hsqs`.
pub open spec fn spec_is_squashfs(header: Seq<u8>) -> bool {
    header.len() >= 4 && header[0] == 0x68 && header[1] == 0x73 && header[2] == 0x71 && header[3]
        == 0x73
}

/// Whether the probed first bytes of a file carry the SquashFs magic.
pub fn is_squashfs(header: &[u8]) -> (r: bool)
    ensures
        r == spec_is_squashfs(header@),
{
    header.len() >= 4 && header[0] == 0x68 && header[1] == 0x73 && header[2] == 0x71 && header[3]
        == 0x73
}

/// The artifact kind an extension maps to: `iso`, `img` and anything under
/// `tar.` are tarballs; `squashfs` and `sfs` are SquashFs images; anything
/// else is unknown.
pub open spec fn spec_kind_for_ext(e: Seq<char>) -> Option<RootFSType> {
    if e == "iso"@ || e == "img"@ {
        Some(RootFSType::Tarball)
    } else if spec_starts_with(e, "tar."@) {
        Some(RootFSType::Tarball)
    } else if e == "squashfs"@ || e == "sfs"@ {
        Some(RootFSType::SquashFs)
    } else {
        None
    }
}

/// Maps a filename extension to the artifact kind it declares.
pub fn kind_for_ext(e: &str) -> (r: Option<RootFSType>)
    ensures
        r == spec_kind_for_ext(e@),
{
    if str_eq(e, "iso") || str_eq(e, "img") {
        Some(RootFSType::Tarball)
    } else if starts_with(e, "tar.") {
        Some(RootFSType::Tarball)
    } else if str_eq(e, "squashfs") || str_eq(e, "sfs") {
        Some(RootFSType::SquashFs)
    } else {
        None
    }
}

// ---------------------------------------------------------------------------
// Paths
// ---------------------------------------------------------------------------

/// Index of the last slash among the first `n` characters of `s`, or -1.
pub open spec fn spec_last_slash_up_to(s: Seq<char>, n: int) -> int
    decreases (if n < 0 { 0 } else { n }),
{
    if n <= 0 || n > s.len() {
        -1
    } else if s[n - 1] == '/' {
        n - 1
    } else {
        spec_last_slash_up_to(s, n - 1)
    }
}

/// The file name of a path: everything after its last slash.
pub open spec fn spec_file_name(s: Seq<char>) -> Seq<char> {
    s.subrange(spec_last_slash_up_to(s, s.len() as int) + 1, s.len() as int)
}

/// Splits off the file name of a slash-separated path: everything after
/// the last slash, or the whole path when it has none.
#[verifier::loop_isolation(false)]
pub fn file_name_of<'a>(path: &'a str) -> (r: &'a str)
    ensures
        r@ == spec_file_name(path@),
{
    let len = path.unicode_len();
    let mut n = len;
    while n > 0
        invariant
            n <= len,
            spec_last_slash_up_to(path@, len as int) == spec_last_slash_up_to(path@, n as int),
        decreases n,
    {
        if path.get_char(n - 1) == '/' {
            return path.substring_char(n, len);
        }
        n = n - 1;
    }
    path.substring_char(0, len)
}

// ---------------------------------------------------------------------------
// Hashing
// ---------------------------------------------------------------------------

/// What the SHA-256 digest of a byte sequence is; a function of the bytes
/// alone, 32 bytes long.
pub uninterp spec fn spec_sha256_of(data: Seq<u8>) -> Seq<u8>;

/// Relies on sha2::Sha256 through the Digest trait: the 32-byte SHA-256
/// digest of `data`, a function of the bytes alone.
#[verifier::external_body]
fn sha256_digest(data: &[u8]) -> (r: Vec<u8>)
    ensures
        r@ == spec_sha256_of(data@),
        r@.len() == 32,
{
    let digest = <sha2::Sha256 as sha2::Digest>::digest(data);
    digest.as_slice().to_vec()
}

/// The sixteen lowercase hex digits, indexed by value.
pub open spec fn spec_hex_digit(v: int) -> char {
    seq!['0', '1', '2', '3', '4', '5', '6', '7', '8', '9', 'a', 'b', 'c', 'd', 'e', 'f'][v]
}

/// Lowercase hex encoding: two digits per byte, high nibble first.
pub open spec fn spec_hex_encode(b: Seq<u8>) -> Seq<char> {
    Seq::new(
        b.len() * 2,
        |i: int|
            if i % 2 == 0 {
                spec_hex_digit(b[i / 2] as int / 16)
            } else {
                spec_hex_digit(b[i / 2] as int % 16)
            },
    )
}

/// Relies on hex::encode: lowercase hex, two digits per byte, high nibble
/// first.
#[verifier::external_body]
fn hex_encode(data: &[u8]) -> (r: String)
    ensures
        r@ == spec_hex_encode(data@),
{
    hex::encode(data)
}

/// The hex-encoded SHA-256 checksum of the given bytes.
pub fn sha256sum(data: &[u8]) -> (r: String)
    ensures
        r@ == spec_hex_encode(spec_sha256_of(data@)),
{
    let digest = sha256_digest(data);
    hex_encode(digest.as_slice())
}

// ---------------------------------------------------------------------------
// Tarball size
// ---------------------------------------------------------------------------

/// Decompressed size of an xz tarball.  The fast path walks the backward
/// index without decompressing and carries the exact index contract; the
/// slow path streams the whole file through the decompressor and reports
/// how many bytes came out.  Both recover the uncompressed size of a
/// well-formed single-stream file.
pub fn calculate_tarball_decompressed_size(data: &[u8], use_fast: bool) -> (r: Result<
    u64,
    FormatError,
>)
    ensures
        use_fast ==> (match r {
            Ok(v) => spec_xz_total(data@) == Some(v as int),
            Err(_) => spec_xz_total(data@) is None,
        }),
        !use_fast ==> (match r {
            Ok(v) => spec_xz_ok(data@) && v == spec_xz_extract(data@).len(),
            Err(e) => !spec_xz_ok(data@) && e == FormatError::BadRecord,
        }),
{
    if use_fast {
        calculate_xz_decompressed_size(data)
    } else {
        xz_stream_total_out(data)
    }
}

// ---------------------------------------------------------------------------
// Per-file scan
// ---------------------------------------------------------------------------

/// Scans one candidate file held in memory: parses its name against the
/// artifact grammar, sniffs the SquashFs magic, applies the matching size
/// oracle (or, in raw mode, the on-disk length), and hashes the content.
/// Any failure drops this one file, never the batch.
#[verifier::loop_isolation(false)]
pub fn scan_file(rel_path: &str, data: &[u8], raw: bool, use_fast: bool) -> (r: Result<
    Tarball,
    ScanError,
>)
    ensures
        !spec_split_name_ok(spec_file_name(rel_path@)) ==> r == Err::<Tarball, ScanError>(
            ScanError::BadFileName,
        ),
        spec_split_name_ok(spec_file_name(rel_path@)) && data@.len() < 4 ==> r == Err::<
            Tarball,
            ScanError,
        >(ScanError::TooSmall),
        r matches Ok(t) ==> ({
            let name = spec_file_name(rel_path@);
            &&& spec_split_name_ok(name)
            &&& data@.len() >= 4
            &&& t.arch@ == spec_name_arch(name)
            &&& t.date@ == spec_name_date(name)
            &&& t.variant@ == spec_name_variant(name)
            &&& t.path@ == rel_path@
            &&& t.sha256sum@ == spec_hex_encode(spec_sha256_of(data@))
            &&& t.download_size == data@.len()
            &&& t.type_ == Some(
                if spec_is_squashfs(data@) {
                    RootFSType::SquashFs
                } else {
                    RootFSType::Tarball
                },
            )
            &&& (raw ==> t.inst_size == data@.len() && t.inodes is None)
            &&& (!raw && spec_is_squashfs(data@) ==> ({
                &&& spec_squashfs_result(data@) matches Ok(p)
                &&& t.inst_size == p.0
                &&& t.inodes == Some(p.1 as u32)
            }))
            &&& (!raw && !spec_is_squashfs(data@) && use_fast ==> spec_xz_total(data@) == Some(
                t.inst_size as int,
            ) && t.inodes is None)
            &&& (!raw && !spec_is_squashfs(data@) && !use_fast ==> spec_xz_ok(data@) && t.inst_size
                == spec_xz_extract(data@).len() && t.inodes is None)
        }),
        spec_split_name_ok(spec_file_name(rel_path@)) && data@.len() >= 4 && raw && data@.len()
            <= i64::MAX ==> r is Ok,
        spec_split_name_ok(spec_file_name(rel_path@)) && data@.len() >= 4 && data@.len()
            <= i64::MAX && !raw && spec_is_squashfs(data@) && (spec_squashfs_result(data@)
            matches Ok(p) && p.0 <= i64::MAX) ==> r is Ok,
        spec_split_name_ok(spec_file_name(rel_path@)) && data@.len() >= 4 && data@.len()
            <= i64::MAX && !raw && !spec_is_squashfs(data@) && use_fast && (spec_xz_total(data@)
            matches Some(v) && v <= i64::MAX) ==> r is Ok,
        spec_split_name_ok(spec_file_name(rel_path@)) && data@.len() >= 4 && data@.len()
            <= i64::MAX && !raw && !spec_is_squashfs(data@) && !use_fast && spec_xz_ok(data@)
            && spec_xz_extract(data@).len() <= i64::MAX ==> r is Ok,
        spec_split_name_ok(spec_file_name(rel_path@)) && data@.len() >= 4 && !raw
            && spec_is_squashfs(data@) && spec_squashfs_result(data@) is Err ==> r == Err::<
            Tarball,
            ScanError,
        >(ScanError::Format(spec_squashfs_result(data@)->Err_0)),
        spec_split_name_ok(spec_file_name(rel_path@)) && data@.len() >= 4 && !raw
            && !spec_is_squashfs(data@) && use_fast && spec_xz_total(data@) is None ==> r is Err,
        spec_split_name_ok(spec_file_name(rel_path@)) && data@.len() >= 4 && !raw
            && !spec_is_squashfs(data@) && !use_fast && !spec_xz_ok(data@) ==> r == Err::<
            Tarball,
            ScanError,
        >(ScanError::Format(FormatError::BadRecord)),
{
    let filename = file_name_of(rel_path);
    let names = match get_splitted_name(filename) {
        Some(n) => n,
        None => {
            return Err(ScanError::BadFileName);
        },
    };
    if data.len() < 4 {
        return Err(ScanError::TooSmall);
    }
    let sq = is_squashfs(data);
    proof {
        crate::sqfs::lemma_squashfs_result_bounds(data@);
    }
    let mut inodes: Option<u32> = None;
    let real_size: u64 = if raw {
        if data.len() as u64 > i64::MAX as u64 {
            return Err(ScanError::TooLarge);
        }
        data.len() as u64
    } else if sq {
        match collect_squashfs_size_and_inodes(data) {
            Ok((size, inode)) => {
                inodes = Some(inode);
                size
            },
            Err(e) => {
                return Err(ScanError::Format(e));
            },
        }
    } else {
        match calculate_tarball_decompressed_size(data, use_fast) {
            Ok(size) => size,
            Err(e) => {
                return Err(ScanError::Format(e));
            },
        }
    };
    if real_size > i64::MAX as u64 {
        return Err(ScanError::TooLarge);
    }
    if data.len() as u64 > i64::MAX as u64 {
        return Err(ScanError::TooLarge);
    }
    let sha = sha256sum(data);
    Ok(
        Tarball {
            arch: names.arch.to_owned(),
            date: names.date.to_owned(),
            variant: names.variant.to_owned(),
            type_: Some(
                if sq {
                    RootFSType::SquashFs
                } else {
                    RootFSType::Tarball
                },
            ),
            download_size: data.len() as i64,
            inst_size: real_size as i64,
            path: rel_path.to_owned(),
            sha256sum: sha,
            inodes,
        },
    )
}

// ---------------------------------------------------------------------------
// Config filter
// ---------------------------------------------------------------------------

/// Whether `tier` declares a variant named `key`.
#[verifier::loop_isolation(false)]
pub fn tier_contains(tier: &Vec<(String, UserVariantConfig)>, key: &str) -> (r: bool)
    ensures
        r == spec_tier_contains(tier@, key@),
{
    let mut i: usize = 0;
    while i < tier.len()
        invariant
            i <= tier@.len(),
            forall|k: int| 0 <= k < i ==> tier@[k].0@ != key@,
        decreases tier@.len() - i,
    {
        if str_eq(tier[i].0.as_str(), key) {
            return true;
        }
        i = i + 1;
    }
    false
}

/// Whether a candidate path survives the config filter: its file name
/// parses, and its variant is declared in the tier its architecture
/// belongs to.
pub open spec fn spec_keep_path(p: String, config: UserConfig) -> bool {
    let name = spec_file_name(p@);
    &&& spec_split_name_ok(name)
    &&& (if spec_contains_str(config.config.retro_arches@, spec_name_arch(name)) {
        spec_tier_contains(config.distro.retro@, spec_name_variant(name))
    } else {
        spec_tier_contains(config.distro.mainline@, spec_name_variant(name))
    })
}

/// The candidate paths that survive the config filter, in order.
pub open spec fn spec_filter_paths(files: Seq<String>, config: UserConfig) -> Seq<String>
    decreases files.len(),
{
    if files.len() == 0 {
        Seq::empty()
    } else {
        let rest = spec_filter_paths(files.drop_last(), config);
        if spec_keep_path(files.last(), config) {
            rest.push(files.last())
        } else {
            rest
        }
    }
}

/// Drops every candidate whose variant is not declared in the
/// configuration for its architecture tier, and every candidate whose
/// name does not parse.
#[verifier::loop_isolation(false)]
pub fn filter_files(files: Vec<String>, config: &UserConfig) -> (r: Vec<String>)
    ensures
        r@ == spec_filter_paths(files@, *config),
{
    let mut out: Vec<String> = Vec::new();
    let mut files = files;
    let ghost allf = files@;
    let ghost mut done: Seq<String> = Seq::empty();
    proof {
        assert(allf =~= done + files@);
    }
    while files.len() > 0
        invariant
            allf == done + files@,
            out@ == spec_filter_paths(done, *config),
        decreases files@.len(),
    {
        let ghost done0 = done;
        let p = files.remove(0);
        proof {
            done = done.push(p);
            assert(allf =~= done + files@);
            assert(done.drop_last() =~= done0);
        }
        let name = file_name_of(p.as_str());
        let keep = match get_splitted_name(name) {
            Some(parts) => {
                if contains_str(&config.config.retro_arches, parts.arch) {
                    tier_contains(&config.distro.retro, parts.variant)
                } else {
                    tier_contains(&config.distro.mainline, parts.variant)
                }
            },
            None => false,
        };
        if keep {
            out.push(p);
        }
    }
    proof {
        assert(done =~= allf);
    }
    out
}

// ---------------------------------------------------------------------------
// Incremental planning
// ---------------------------------------------------------------------------

/// A path joined under the release root with a single slash separator.
pub open spec fn spec_join(root: Seq<char>, p: Seq<char>) -> Seq<char> {
    if root.len() == 0 {
        p
    } else if root.last() == '/' {
        root + p
    } else {
        root + seq!['/'] + p
    }
}

/// Joins a relative path under the release root.
pub fn join_path(root: &str, p: &str) -> (r: String)
    ensures
        r@ == spec_join(root@, p@),
{
    let rl = root.unicode_len();
    if rl == 0 {
        return p.to_owned();
    }
    let mut out = root.to_owned();
    if root.get_char(rl - 1) != '/' {
        out.append("/");
    }
    out.append(p);
    proof {
        reveal_strlit("/");
        assert(out@ =~= spec_join(root@, p@));
    }
    out
}

/// How a reused entry relates to its previous incarnation: path, checksum,
/// sizes and inode count kept without rescanning; variant, date,
/// architecture and kind refreshed from the file name.
pub open spec fn spec_refreshed(orig: Tarball, out: Tarball) -> bool {
    let name = spec_file_name(orig.path@);
    &&& out.path == orig.path
    &&& out.sha256sum == orig.sha256sum
    &&& out.download_size == orig.download_size
    &&& out.inst_size == orig.inst_size
    &&& out.inodes == orig.inodes
    &&& out.variant@ == spec_name_variant(name)
    &&& out.date@ == spec_name_date(name)
    &&& out.arch@ == spec_name_arch(name)
    &&& out.type_ == spec_kind_for_ext(spec_name_ext(name))
}

/// Whether a previous entry is kept: its joined path is still among the
/// candidates, and its file name still parses to a known kind.  Identity
/// is path equality alone: a file replaced in place under the same name is
/// not detected as changed.
pub open spec fn spec_keep_entry(t: Tarball, files: Seq<String>, root: Seq<char>) -> bool {
    let name = spec_file_name(t.path@);
    &&& spec_contains_str(files, spec_join(root, t.path@))
    &&& spec_split_name_ok(name)
    &&& spec_kind_for_ext(spec_name_ext(name)) is Some
}

/// The previous entries that are kept, in manifest order.
pub open spec fn spec_kept_entries(existing: Seq<Tarball>, files: Seq<String>, root: Seq<char>) -> Seq<
    Tarball,
>
    decreases existing.len(),
{
    if existing.len() == 0 {
        Seq::empty()
    } else {
        let rest = spec_kept_entries(existing.drop_last(), files, root);
        if spec_keep_entry(existing.last(), files, root) {
            rest.push(existing.last())
        } else {
            rest
        }
    }
}

/// Whether a candidate path is covered by a kept entry.
pub open spec fn spec_covered(f: String, kept: Seq<Tarball>, root: Seq<char>) -> bool {
    exists|i: int| 0 <= i < kept.len() && spec_join(root, kept[i].path@) == f@
}

/// The candidates no kept entry covers: the files still to be scanned.
pub open spec fn spec_new_paths(files: Seq<String>, kept: Seq<Tarball>, root: Seq<char>) -> Seq<
    String,
>
    decreases files.len(),
{
    if files.len() == 0 {
        Seq::empty()
    } else {
        let rest = spec_new_paths(files.drop_last(), kept, root);
        if !spec_covered(files.last(), kept, root) {
            rest.push(files.last())
        } else {
            rest
        }
    }
}

/// Plans an incremental pass: keeps every previous entry whose path is
/// still a candidate (refreshing only its name-derived fields, without
/// recomputing hash or sizes) and returns, beside the kept entries, the
/// candidate paths that still need a full scan.
#[verifier::loop_isolation(false)]
pub fn increment_scan_files(files: Vec<String>, existing_files: Vec<Tarball>, root_path: &str) -> (r:
    (Vec<Tarball>, Vec<String>))
    ensures
        ({
            let kept = spec_kept_entries(existing_files@, files@, root_path@);
            &&& r.0@.len() == kept.len()
            &&& forall|k: int| 0 <= k < kept.len() ==> spec_refreshed(kept[k], #[trigger] r.0@[k])
            &&& r.1@ == spec_new_paths(files@, kept, root_path@)
        }),
{
    let ghost all_files = files@;
    let ghost root = root_path@;

    // Keep still-present entries, refreshing their name-derived fields.
    let mut kept_out: Vec<Tarball> = Vec::new();
    let mut existing = existing_files;
    let ghost alle = existing@;
    let ghost mut done: Seq<Tarball> = Seq::empty();
    proof {
        assert(alle =~= done + existing@);
    }
    while existing.len() > 0
        invariant
            alle == done + existing@,
            kept_out@.len() == spec_kept_entries(done, all_files, root).len(),
            forall|k: int|
                0 <= k < kept_out@.len() ==> spec_refreshed(
                    spec_kept_entries(done, all_files, root)[k],
                    #[trigger] kept_out@[k],
                ),
        decreases existing@.len(),
    {
        let ghost done0 = done;
        let t = existing.remove(0);
        proof {
            done = done.push(t);
            assert(alle =~= done + existing@);
            assert(done.drop_last() =~= done0);
        }
        let joined = join_path(root_path, t.path.as_str());
        if contains_str(&files, joined.as_str()) {
            let fname = file_name_of(t.path.as_str());
            match get_splitted_name(fname) {
                Some(parts) => {
                    match kind_for_ext(parts.type_) {
                        Some(kind) => {
                            let na = parts.arch.to_owned();
                            let nd = parts.date.to_owned();
                            let nv = parts.variant.to_owned();
                            let nt = Tarball {
                                arch: na,
                                date: nd,
                                variant: nv,
                                type_: Some(kind),
                                download_size: t.download_size,
                                inst_size: t.inst_size,
                                path: t.path,
                                sha256sum: t.sha256sum,
                                inodes: t.inodes,
                            };
                            proof {
                                assert(spec_keep_entry(done.last(), all_files, root));
                            }
                            kept_out.push(nt);
                        },
                        None => {},
                    }
                },
                None => {},
            }
        }
    }
    proof {
        assert(done =~= alle);
    }
    let ghost kept = spec_kept_entries(alle, all_files, root);

    // Everything not covered by a kept entry is new and must be scanned.
    let mut to_scan: Vec<String> = Vec::new();
    let mut files = files;
    let ghost mut fdone: Seq<String> = Seq::empty();
    proof {
        assert(all_files =~= fdone + files@);
    }
    while files.len() > 0
        invariant
            all_files == fdone + files@,
            kept_out@.len() == kept.len(),
            forall|k: int| 0 <= k < kept.len() ==> spec_refreshed(kept[k], #[trigger] kept_out@[k]),
            to_scan@ == spec_new_paths(fdone, kept, root),
        decreases files@.len(),
    {
        let ghost fdone0 = fdone;
        let f = files.remove(0);
        proof {
            fdone = fdone.push(f);
            assert(all_files =~= fdone + files@);
            assert(fdone.drop_last() =~= fdone0);
        }
        let mut j: usize = 0;
        let mut cov = false;
        while j < kept_out.len()
            invariant
                j <= kept_out@.len(),
                !cov ==> forall|i: int|
                    0 <= i < j ==> spec_join(root, kept_out@[i].path@) != f@,
                cov ==> spec_covered(f, kept_out@, root),
            decreases kept_out@.len() - j,
        {
            let joined = join_path(root_path, kept_out[j].path.as_str());
            if str_eq(joined.as_str(), f.as_str()) {
                cov = true;
            }
            j = j + 1;
        }
        proof {
            // Kept entries carry their previous paths, so coverage over the
            // refreshed list and over the kept originals agree.
            assert forall|i: int| 0 <= i < kept.len() implies kept_out@[i].path@ == kept[i].path@ by {
                assert(spec_refreshed(kept[i], kept_out@[i]));
            }
            if cov {
                let i = choose|i: int|
                    0 <= i < kept_out@.len() && spec_join(root, kept_out@[i].path@) == f@;
                assert(spec_join(root, kept[i].path@) == f@);
                assert(spec_covered(f, kept, root));
            } else {
                assert forall|i: int| 0 <= i < kept.len() implies spec_join(root, kept[i].path@)
                    != f@ by {
                    assert(spec_join(root, kept_out@[i].path@) != f@);
                }
                assert(!spec_covered(f, kept, root));
            }
        }
        if !cov {
            to_scan.push(f);
        }
    }
    proof {
        assert(fdone =~= all_files);
    }
    (kept_out, to_scan)
}

/// A previous entry that passes the keep test appears among the kept
/// entries.
pub proof fn lemma_kept_contains(existing: Seq<Tarball>, files: Seq<String>, root: Seq<char>, i: int)
    requires
        0 <= i < existing.len(),
        spec_keep_entry(existing[i], files, root),
    ensures
        spec_kept_entries(existing, files, root).contains(existing[i]),
    decreases existing.len(),
{
    let kept = spec_kept_entries(existing, files, root);
    let rest = spec_kept_entries(existing.drop_last(), files, root);
    if i == existing.len() - 1 {
        assert(kept == rest.push(existing.last()));
        assert(kept[kept.len() - 1] == existing[i]);
    } else {
        assert(existing.drop_last()[i] == existing[i]);
        lemma_kept_contains(existing.drop_last(), files, root, i);
        let k = choose|k: int| 0 <= k < rest.len() && rest[k] == existing[i];
        if spec_keep_entry(existing.last(), files, root) {
            assert(kept == rest.push(existing.last()));
            assert(kept[k] == existing[i]);
        } else {
            assert(kept == rest);
        }
    }
}

/// Every path scheduled for a new scan is uncovered by the kept entries.
pub proof fn lemma_new_paths_member(files: Seq<String>, kept: Seq<Tarball>, root: Seq<char>, f: String)
    requires
        spec_new_paths(files, kept, root).contains(f),
    ensures
        !spec_covered(f, kept, root),
        files.contains(f),
    decreases files.len(),
{
    if files.len() > 0 {
        let rest = spec_new_paths(files.drop_last(), kept, root);
        if !spec_covered(files.last(), kept, root) && f == files.last() {
            assert(files.contains(files.last()));
        } else {
            assert(rest.contains(f));
            lemma_new_paths_member(files.drop_last(), kept, root, f);
            let i = choose|i: int| 0 <= i < files.drop_last().len() && files.drop_last()[i] == f;
            assert(files[i] == f);
        }
    }
}

/// Incremental reuse: a previous entry whose path is still among the
/// candidates, and whose name still parses to a known kind, is kept
/// without recomputing its checksum or sizes, and its path is never
/// scheduled for a fresh scan.
pub proof fn lemma_incremental_reuse(
    existing: Seq<Tarball>,
    files: Seq<String>,
    root: Seq<char>,
    i: int,
    f: String,
)
    requires
        0 <= i < existing.len(),
        spec_keep_entry(existing[i], files, root),
        f@ == spec_join(root, existing[i].path@),
    ensures
        spec_kept_entries(existing, files, root).contains(existing[i]),
        !spec_new_paths(files, spec_kept_entries(existing, files, root), root).contains(f),
{
    lemma_kept_contains(existing, files, root, i);
    let kept = spec_kept_entries(existing, files, root);
    let k = choose|k: int| 0 <= k < kept.len() && kept[k] == existing[i];
    assert(spec_join(root, kept[k].path@) == f@);
    assert(spec_covered(f, kept, root));
    if spec_new_paths(files, kept, root).contains(f) {
        lemma_new_paths_member(files, kept, root, f);
        assert(false);
    }
}

/// When every previous entry passes the keep test, all of them are kept,
/// in order.
pub proof fn lemma_kept_all(existing: Seq<Tarball>, files: Seq<String>, root: Seq<char>)
    requires
        forall|i: int| 0 <= i < existing.len() ==> spec_keep_entry(#[trigger] existing[i], files, root),
    ensures
        spec_kept_entries(existing, files, root) == existing,
    decreases existing.len(),
{
    if existing.len() == 0 {
        assert(spec_kept_entries(existing, files, root) =~= existing);
    } else {
        lemma_kept_all(existing.drop_last(), files, root);
        assert(existing[existing.len() - 1] == existing.last());
        assert(existing.drop_last().push(existing.last()) =~= existing);
    }
}

/// When every candidate is covered by a kept entry, nothing is scheduled
/// for a fresh scan.
pub proof fn lemma_new_paths_empty(files: Seq<String>, kept: Seq<Tarball>, root: Seq<char>)
    requires
        forall|i: int| 0 <= i < files.len() ==> spec_covered(#[trigger] files[i], kept, root),
    ensures
        spec_new_paths(files, kept, root) == Seq::<String>::empty(),
    decreases files.len(),
{
    if files.len() == 0 {
        assert(spec_new_paths(files, kept, root) =~= Seq::<String>::empty());
    } else {
        lemma_new_paths_empty(files.drop_last(), kept, root);
        assert(files[files.len() - 1] == files.last());
    }
}

/// A freshly scanned entry is a fixed point of the refresh step whenever
/// the kind its extension declares agrees with the kind its magic bytes
/// showed, as it does for every artifact named after its own format.
pub proof fn lemma_scan_entry_refresh_identity(t: Tarball, rel_path: Seq<char>)
    requires
        t.path@ == rel_path,
        t.arch@ == spec_name_arch(spec_file_name(rel_path)),
        t.date@ == spec_name_date(spec_file_name(rel_path)),
        t.variant@ == spec_name_variant(spec_file_name(rel_path)),
        t.type_ == spec_kind_for_ext(spec_name_ext(spec_file_name(rel_path))),
    ensures
        spec_refreshed(t, t),
{
}

/// Idempotence of the pipeline core.  When the candidate set and the
/// configuration are unchanged since the run that produced the previous
/// manifest — every flattened entry's joined path is still a candidate,
/// every candidate is covered by such an entry, and the entries' variant,
/// date, architecture and kind already agree with their file names, as the
/// scan step leaves them — then the incremental pass keeps every entry and
/// schedules no scan, and the rebuilt buckets carry the same field values
/// as the previous ones, so the rebuilt manifest serializes identically.
pub proof fn lemma_pipeline_idempotent(
    config: UserConfig,
    files: Seq<String>,
    root: Seq<char>,
    flat0: Seq<Tarball>,
    prev: Seq<crate::parser::Variant>,
    kept_out: Seq<Tarball>,
    again: Seq<crate::parser::Variant>,
)
    requires
        crate::parser::spec_distinct_keys(config.distro.mainline@),
        crate::parser::spec_distinct_keys(config.distro.retro@),
        prev.len() == config.distro.mainline@.len() + config.distro.retro@.len(),
        forall|j: int|
            0 <= j < prev.len() ==> crate::parser::spec_variant_matches(
                #[trigger] prev[j],
                crate::parser::spec_key_at(config, j),
                crate::parser::spec_cfg_at(config, j),
                j >= config.distro.mainline@.len(),
                flat0,
                config.config.retro_arches@,
            ),
        forall|i: int|
            0 <= i < crate::parser::spec_flatten(prev).len() ==> spec_keep_entry(
                #[trigger] crate::parser::spec_flatten(prev)[i],
                files,
                root,
            ),
        forall|i: int|
            0 <= i < files.len() ==> spec_covered(
                #[trigger] files[i],
                crate::parser::spec_flatten(prev),
                root,
            ),
        forall|i: int|
            0 <= i < crate::parser::spec_flatten(prev).len() ==> spec_refreshed(
                #[trigger] crate::parser::spec_flatten(prev)[i],
                crate::parser::spec_flatten(prev)[i],
            ),
        kept_out.len() == spec_kept_entries(crate::parser::spec_flatten(prev), files, root).len(),
        forall|k: int|
            0 <= k < kept_out.len() ==> spec_refreshed(
                spec_kept_entries(crate::parser::spec_flatten(prev), files, root)[k],
                #[trigger] kept_out[k],
            ),
        again.len() == prev.len(),
        forall|j: int|
            0 <= j < again.len() ==> crate::parser::spec_variant_matches(
                #[trigger] again[j],
                crate::parser::spec_key_at(config, j),
                crate::parser::spec_cfg_at(config, j),
                j >= config.distro.mainline@.len(),
                kept_out,
                config.config.retro_arches@,
            ),
    ensures
        spec_kept_entries(crate::parser::spec_flatten(prev), files, root)
            == crate::parser::spec_flatten(prev),
        spec_new_paths(files, spec_kept_entries(crate::parser::spec_flatten(prev), files, root), root)
            == Seq::<String>::empty(),
        forall|j: int|
            0 <= j < prev.len() ==> crate::parser::spec_variant_eqv(
                #[trigger] again[j],
                prev[j],
            ),
{
    let e = crate::parser::spec_flatten(prev);
    let arches = config.config.retro_arches@;
    let m = config.distro.mainline@.len() as int;
    lemma_kept_all(e, files, root);
    lemma_new_paths_empty(files, e, root);
    // The refreshed entries carry the same field values as the originals.
    assert forall|k: int| 0 <= k < e.len() implies crate::parser::spec_tarball_eqv(
        #[trigger] kept_out[k],
        e[k],
    ) by {
        assert(spec_refreshed(e[k], kept_out[k]));
        assert(spec_refreshed(e[k], e[k]));
        assert(kept_out[k].path == e[k].path);
    }
    assert(crate::parser::spec_tarballs_eqv(kept_out, e));
    // Each rebuilt bucket equals the previous bucket, field for field.
    assert forall|j: int| 0 <= j < prev.len() implies crate::parser::spec_variant_eqv(
        #[trigger] again[j],
        prev[j],
    ) by {
        let key = crate::parser::spec_key_at(config, j);
        let retro = j >= m;
        crate::parser::lemma_bucket_files_eqv(kept_out, e, key, retro, arches, RootFSType::Tarball);
        crate::parser::lemma_bucket_files_eqv(kept_out, e, key, retro, arches, RootFSType::SquashFs);
        crate::parser::lemma_regroup(config, flat0, prev, 0, j, RootFSType::Tarball);
        crate::parser::lemma_regroup(config, flat0, prev, 0, j, RootFSType::SquashFs);
        assert(crate::parser::spec_bucket_files(e, key, retro, arches, RootFSType::Tarball)
            == prev[j].tarballs@);
        assert(crate::parser::spec_bucket_files(e, key, retro, arches, RootFSType::SquashFs)
            == prev[j].squashfs@);
    }
}

/// Plans a smart pass over the filtered candidates: with no usable
/// previous manifest everything is scanned; otherwise previous entries are
/// reused for unchanged paths and only the remainder is scanned.
pub fn smart_scan_files(
    manifest: Option<crate::parser::Recipe>,
    config: &UserConfig,
    files: Vec<String>,
    root_path: &str,
) -> (r: (Vec<Tarball>, Vec<String>))
    ensures
        manifest is None ==> r.0@ == Seq::<Tarball>::empty() && r.1@ == spec_filter_paths(
            files@,
            *config,
        ),
        manifest matches Some(recipe) ==> ({
            let filtered = spec_filter_paths(files@, *config);
            let kept = spec_kept_entries(
                crate::parser::spec_flatten(recipe.variants@),
                filtered,
                root_path@,
            );
            &&& r.0@.len() == kept.len()
            &&& forall|k: int| 0 <= k < kept.len() ==> spec_refreshed(kept[k], #[trigger] r.0@[k])
            &&& r.1@ == spec_new_paths(filtered, kept, root_path@)
        }),
{
    let filtered = filter_files(files, config);
    match manifest {
        None => (Vec::new(), filtered),
        Some(recipe) => {
            let existing = crate::parser::flatten_variants(recipe);
            increment_scan_files(filtered, existing, root_path)
        },
    }
}

} // verus!
