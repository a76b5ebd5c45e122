//! Data model of the manifest: artifact records, variants, configuration,
//! the filename grammar, and assembly of a flat inventory into the final
//! versioned manifest.
use vstd::prelude::*;
use vstd::string::*;

verus! {

/// The two root filesystem artifact kinds a release carries.
#[derive(Clone, Copy, Debug, PartialEq, Eq, Structural)]
pub enum RootFSType {
    Tarball,
    SquashFs,
}

/// The fields of an artifact filename
/// `<product>_<variant>_<date>_<arch>.<ext>`, borrowed from the name.
#[derive(Clone, Copy, Debug, PartialEq)]
pub struct FileNameParts<'a> {
    pub arch: &'a str,
    pub date: &'a str,
    pub variant: &'a str,
    pub type_: &'a str,
}

/// A download mirror entry of the manifest.
#[derive(Debug, Clone)]
pub struct Mirror {
    pub name: String,
    pub name_tr: String,
    pub loc: String,
    pub loc_tr: String,
    pub url: String,
}

/// One scanned artifact: architecture, build date, variant, kind, sizes,
/// relative path, content hash, and (for SquashFs) the inode count.
#[derive(Debug, Clone, PartialEq)]
pub struct Tarball {
    pub arch: String,
    pub date: String,
    pub variant: String,
    pub type_: Option<RootFSType>,
    pub download_size: i64,
    pub inst_size: i64,
    pub path: String,
    pub sha256sum: String,
    pub inodes: Option<u32>,
}

/// One output bucket of the manifest: a named variant with its artifacts
/// split by kind.
#[derive(Debug, Clone)]
pub struct Variant {
    pub name: String,
    pub name_tr: String,
    pub retro: bool,
    pub description: String,
    pub description_tr: String,
    pub tarballs: Vec<Tarball>,
    pub squashfs: Vec<Tarball>,
}

/// The news bulletin carried verbatim into the manifest.
#[derive(Debug, Clone)]
pub struct Bulletin {
    pub type_: String,
    pub title: String,
    pub title_tr: String,
    pub body: String,
    pub body_tr: String,
}

/// The finished manifest: a fixed schema version, the bulletin, the variant
/// buckets and the mirror list.
#[derive(Debug)]
pub struct Recipe {
    pub version: usize,
    pub bulletin: Bulletin,
    pub variants: Vec<Variant>,
    pub mirrors: Vec<Mirror>,
}

/// The release root and the architectures classified as retro.
#[derive(Debug, Clone)]
pub struct UserBasicConfig {
    pub path: String,
    pub retro_arches: Vec<String>,
}

/// A mirror as declared in the configuration.
#[derive(Debug, Clone)]
pub struct UserMirrorConfig {
    pub name: String,
    pub loc: String,
    pub url: String,
}

/// Display name and description a declared variant carries.
#[derive(Debug, Clone)]
pub struct UserVariantConfig {
    pub name: String,
    pub description: String,
}

/// The declared variants, keyed by variant name, split into the mainline
/// and retro tiers.  Each tier's keys are unique, as in a map.
#[derive(Debug, Clone)]
pub struct UserDistroConfig {
    pub mainline: Vec<(String, UserVariantConfig)>,
    pub retro: Vec<(String, UserVariantConfig)>,
}

/// The whole loaded configuration.
#[derive(Debug)]
pub struct UserConfig {
    pub config: UserBasicConfig,
    pub bulletin: Bulletin,
    pub mirrors: Vec<Mirror>,
    pub distro: UserDistroConfig,
}

// ---------------------------------------------------------------------------
// String helpers
// ---------------------------------------------------------------------------

/// Index of the first occurrence of `c` in `s` at or after `from`, or the
/// length of `s` when there is none.
pub open spec fn spec_find_char(s: Seq<char>, c: char, from: int) -> int
    decreases (if from < 0 || from >= s.len() { 0 } else { s.len() - from }),
{
    if from < 0 || from >= s.len() {
        s.len() as int
    } else if s[from] == c {
        from
    } else {
        spec_find_char(s, c, from + 1)
    }
}

/// The found index never precedes `from` and never passes the end.
pub proof fn lemma_find_char_range(s: Seq<char>, c: char, from: int)
    requires
        0 <= from <= s.len(),
    ensures
        from <= spec_find_char(s, c, from) <= s.len(),
        spec_find_char(s, c, from) < s.len() ==> s[spec_find_char(s, c, from)] == c,
    decreases s.len() - from,
{
    if from < s.len() && s[from] != c {
        lemma_find_char_range(s, c, from + 1);
    }
}

/// Finds the first occurrence of `c` in `s` at or after `from`; the length
/// of `s` means "not found".
#[verifier::loop_isolation(false)]
pub fn find_char(s: &str, c: char, from: usize) -> (r: usize)
    ensures
        r == spec_find_char(s@, c, from as int),
        r <= s@.len(),
{
    let len = s.unicode_len();
    if from >= len {
        return len;
    }
    let mut i = from;
    while i < len
        invariant
            from <= i <= len,
            spec_find_char(s@, c, from as int) == spec_find_char(s@, c, i as int),
        decreases len - i,
    {
        if s.get_char(i) == c {
            return i;
        }
        i = i + 1;
    }
    len
}

/// Whether two string slices hold the same characters.
#[verifier::loop_isolation(false)]
pub fn str_eq(a: &str, b: &str) -> (r: bool)
    ensures
        r <==> a@ == b@,
{
    let la = a.unicode_len();
    let lb = b.unicode_len();
    if la != lb {
        return false;
    }
    let mut i: usize = 0;
    while i < la
        invariant
            i <= la,
            forall|k: int| 0 <= k < i ==> a@[k] == b@[k],
        decreases la - i,
    {
        if s_get(a, i) != s_get(b, i) {
            return false;
        }
        i = i + 1;
    }
    proof {
        assert(a@ =~= b@);
    }
    true
}

fn s_get(s: &str, i: usize) -> (c: char)
    requires
        i < s@.len(),
    ensures
        c == s@[i as int],
{
    s.get_char(i)
}

/// Whether some string of `list` holds exactly the characters `x`.
pub open spec fn spec_contains_str(list: Seq<String>, x: Seq<char>) -> bool {
    exists|i: int| 0 <= i < list.len() && list[i]@ == x
}

/// Whether `list` holds a string equal to `x`.
#[verifier::loop_isolation(false)]
pub fn contains_str(list: &Vec<String>, x: &str) -> (r: bool)
    ensures
        r == spec_contains_str(list@, x@),
{
    let mut i: usize = 0;
    while i < list.len()
        invariant
            i <= list@.len(),
            forall|k: int| 0 <= k < i ==> list@[k]@ != x@,
        decreases list@.len() - i,
    {
        if str_eq(list[i].as_str(), x) {
            return true;
        }
        i = i + 1;
    }
    false
}

// ---------------------------------------------------------------------------
// Filename grammar
// ---------------------------------------------------------------------------

/// End of the first segment of `s`: the first underscore.
pub open spec fn spec_name_e0(s: Seq<char>) -> int {
    spec_find_char(s, '_', 0)
}

/// End of the variant segment.
pub open spec fn spec_name_e1(s: Seq<char>) -> int {
    spec_find_char(s, '_', spec_name_e0(s) + 1)
}

/// End of the date segment.
pub open spec fn spec_name_e2(s: Seq<char>) -> int {
    spec_find_char(s, '_', spec_name_e1(s) + 1)
}

/// End of the fourth segment: the next underscore or the end of the name.
pub open spec fn spec_name_e3(s: Seq<char>) -> int {
    spec_find_char(s, '_', spec_name_e2(s) + 1)
}

/// The dot that splits the fourth segment into architecture and extension.
pub open spec fn spec_name_dot(s: Seq<char>) -> int {
    spec_find_char(s, '.', spec_name_e2(s) + 1)
}

/// Whether `s` matches `<product>_<variant>_<date>_<arch>.<ext>`: at least
/// three underscores, and a dot inside the fourth underscore-delimited
/// segment.
pub open spec fn spec_split_name_ok(s: Seq<char>) -> bool {
    &&& spec_name_e0(s) < s.len()
    &&& spec_name_e1(s) < s.len()
    &&& spec_name_e2(s) < s.len()
    &&& spec_name_dot(s) < spec_name_e3(s)
}

/// The variant segment of a well-formed name.
pub open spec fn spec_name_variant(s: Seq<char>) -> Seq<char>
    recommends
        spec_split_name_ok(s),
{
    s.subrange(spec_name_e0(s) + 1, spec_name_e1(s))
}

/// The date segment of a well-formed name.
pub open spec fn spec_name_date(s: Seq<char>) -> Seq<char>
    recommends
        spec_split_name_ok(s),
{
    s.subrange(spec_name_e1(s) + 1, spec_name_e2(s))
}

/// The architecture segment of a well-formed name.
pub open spec fn spec_name_arch(s: Seq<char>) -> Seq<char>
    recommends
        spec_split_name_ok(s),
{
    s.subrange(spec_name_e2(s) + 1, spec_name_dot(s))
}

/// The extension of a well-formed name: what follows the first dot of the
/// fourth segment, up to that segment's end.
pub open spec fn spec_name_ext(s: Seq<char>) -> Seq<char>
    recommends
        spec_split_name_ok(s),
{
    s.subrange(spec_name_dot(s) + 1, spec_name_e3(s))
}

/// Splits an artifact filename along the fixed pattern
/// `<product>_<variant>_<date>_<arch>.<ext>`: underscore-delimited, the
/// last segment split on its first dot.  A name that does not match yields
/// nothing.
#[verifier::loop_isolation(false)]
pub fn get_splitted_name<'a>(name: &'a str) -> (r: Option<FileNameParts<'a>>)
    ensures
        r is Some <==> spec_split_name_ok(name@),
        r matches Some(p) ==> {
            &&& p.variant@ == spec_name_variant(name@)
            &&& p.date@ == spec_name_date(name@)
            &&& p.arch@ == spec_name_arch(name@)
            &&& p.type_@ == spec_name_ext(name@)
        },
{
    let len = name.unicode_len();
    proof {
        lemma_find_char_range(name@, '_', 0);
    }
    let e0 = find_char(name, '_', 0);
    if e0 >= len {
        return None;
    }
    proof {
        lemma_find_char_range(name@, '_', e0 + 1);
    }
    let e1 = find_char(name, '_', e0 + 1);
    if e1 >= len {
        return None;
    }
    proof {
        lemma_find_char_range(name@, '_', e1 + 1);
    }
    let e2 = find_char(name, '_', e1 + 1);
    if e2 >= len {
        return None;
    }
    proof {
        lemma_find_char_range(name@, '_', e2 + 1);
        lemma_find_char_range(name@, '.', e2 + 1);
    }
    let e3 = find_char(name, '_', e2 + 1);
    let d = find_char(name, '.', e2 + 1);
    if d >= e3 {
        return None;
    }
    Some(
        FileNameParts {
            arch: name.substring_char(e2 + 1, d),
            date: name.substring_char(e1 + 1, e2),
            variant: name.substring_char(e0 + 1, e1),
            type_: name.substring_char(d + 1, e3),
        },
    )
}

// ---------------------------------------------------------------------------
// Assembly
// ---------------------------------------------------------------------------

/// The translation-key suffix a retro bucket carries.
pub open spec fn spec_retro_suffix(retro: bool) -> Seq<char> {
    if retro {
        "-retro"@
    } else {
        Seq::<char>::empty()
    }
}

impl Variant {
    /// Builds one output bucket with deterministic translation keys derived
    /// from the variant key, `-retro` marking the retro tier.
    pub fn new(
        name: String,
        key: String,
        description: String,
        retro: bool,
        tarballs: Vec<Tarball>,
        squashfs: Vec<Tarball>,
    ) -> (r: Variant)
        ensures
            r.name == name,
            r.retro == retro,
            r.description == description,
            r.name_tr@ == key@ + spec_retro_suffix(retro) + "-name"@,
            r.description_tr@ == key@ + spec_retro_suffix(retro) + "-description"@,
            r.tarballs == tarballs,
            r.squashfs == squashfs,
    {
        let mut name_tr = key.clone();
        let mut description_tr = key;
        if retro {
            name_tr.append("-retro");
            description_tr.append("-retro");
        }
        name_tr.append("-name");
        description_tr.append("-description");
        proof {
            assert(name_tr@ =~= key@ + spec_retro_suffix(retro) + "-name"@);
            assert(description_tr@ =~= key@ + spec_retro_suffix(retro) + "-description"@);
        }
        Variant { name, name_tr, retro, description, description_tr, tarballs, squashfs }
    }
}

/// All artifacts of all buckets of a manifest, bucket by bucket, tarballs
/// before squashfs within a bucket.
pub open spec fn spec_flatten(vs: Seq<Variant>) -> Seq<Tarball>
    decreases vs.len(),
{
    if vs.len() == 0 {
        Seq::empty()
    } else {
        vs[0].tarballs@ + vs[0].squashfs@ + spec_flatten(vs.drop_first())
    }
}

/// Flattens a manifest back into the flat artifact list it was grouped
/// from, in bucket order.
#[verifier::loop_isolation(false)]
pub fn flatten_variants(recipe: Recipe) -> (r: Vec<Tarball>)
    ensures
        r@ == spec_flatten(recipe.variants@),
{
    let mut variants = recipe.variants;
    let mut results: Vec<Tarball> = Vec::new();
    let ghost all = variants@;
    while variants.len() > 0
        invariant
            spec_flatten(all) == results@ + spec_flatten(variants@),
        decreases variants@.len(),
    {
        let ghost before = variants@;
        let mut v = variants.remove(0);
        proof {
            assert(before.drop_first() =~= variants@);
        }
        results.append(&mut v.tarballs);
        results.append(&mut v.squashfs);
    }
    proof {
        assert(spec_flatten(variants@) =~= Seq::<Tarball>::empty());
        assert(results@ =~= results@ + Seq::<Tarball>::empty());
    }
    results
}

/// The configured release root.
pub fn get_root_path(config: &UserConfig) -> (r: String)
    ensures
        r == config.config.path,
{
    config.config.path.clone()
}

/// The configured retro architectures.
pub fn get_retro_arches(config: &UserConfig) -> (r: Vec<String>)
    ensures
        r@ == config.config.retro_arches@,
{
    let arches = &config.config.retro_arches;
    let mut r: Vec<String> = Vec::new();
    let mut i: usize = 0;
    while i < arches.len()
        invariant
            i <= arches@.len(),
            r@ == arches@.subrange(0, i as int),
        decreases arches@.len() - i,
    {
        r.push(arches[i].clone());
        i = i + 1;
    }
    proof {
        assert(arches@.subrange(0, arches@.len() as int) =~= arches@);
    }
    r
}

/// Whether artifact `t` belongs to the bucket `(key, retro)` under kind
/// `kind`: its variant matches the key, its architecture's tier matches the
/// bucket's tier, and it carries that kind.
pub open spec fn spec_in_bucket(
    t: Tarball,
    key: Seq<char>,
    retro: bool,
    arches: Seq<String>,
    kind: RootFSType,
) -> bool {
    &&& t.variant@ == key
    &&& spec_contains_str(arches, t.arch@) == retro
    &&& t.type_ == Some(kind)
}

/// The artifacts of `files`, in order, that fall into the bucket
/// `(key, retro)` under kind `kind`.
pub open spec fn spec_bucket_files(
    files: Seq<Tarball>,
    key: Seq<char>,
    retro: bool,
    arches: Seq<String>,
    kind: RootFSType,
) -> Seq<Tarball>
    decreases files.len(),
{
    if files.len() == 0 {
        Seq::empty()
    } else {
        let rest = spec_bucket_files(files.drop_last(), key, retro, arches, kind);
        if spec_in_bucket(files.last(), key, retro, arches, kind) {
            rest.push(files.last())
        } else {
            rest
        }
    }
}

/// Keys of one declared tier are pairwise distinct, as in a map.
pub open spec fn spec_distinct_keys(tier: Seq<(String, UserVariantConfig)>) -> bool {
    forall|i: int, j: int| 0 <= i < j < tier.len() ==> tier[i].0@ != tier[j].0@
}

/// The key of output bucket `j`: mainline keys first, then retro keys.
pub open spec fn spec_key_at(config: UserConfig, j: int) -> Seq<char> {
    if j < config.distro.mainline@.len() {
        config.distro.mainline@[j].0@
    } else {
        config.distro.retro@[j - config.distro.mainline@.len()].0@
    }
}

/// The declared name and description of output bucket `j`.
pub open spec fn spec_cfg_at(config: UserConfig, j: int) -> UserVariantConfig {
    if j < config.distro.mainline@.len() {
        config.distro.mainline@[j].1
    } else {
        config.distro.retro@[j - config.distro.mainline@.len()].1
    }
}

/// What one finished bucket must hold for the config entry with key `key`
/// and declaration `cfg` in tier `retro`, given the scanned `files`.
pub open spec fn spec_variant_matches(
    v: Variant,
    key: Seq<char>,
    cfg: UserVariantConfig,
    retro: bool,
    files: Seq<Tarball>,
    arches: Seq<String>,
) -> bool {
    &&& v.name@ == cfg.name@
    &&& v.description@ == cfg.description@
    &&& v.retro == retro
    &&& v.name_tr@ == key + spec_retro_suffix(retro) + "-name"@
    &&& v.description_tr@ == key + spec_retro_suffix(retro) + "-description"@
    &&& v.tarballs@ == spec_bucket_files(files, key, retro, arches, RootFSType::Tarball)
    &&& v.squashfs@ == spec_bucket_files(files, key, retro, arches, RootFSType::SquashFs)
}

/// Groups the accepted inventory into one bucket per declared variant:
/// mainline buckets first, then retro buckets, each holding exactly the
/// files whose variant name, architecture tier and kind match, in scan
/// order.  A file whose variant is not declared in its tier, or whose kind
/// is unknown, lands in no bucket.
#[verifier::loop_isolation(false)]
pub fn assemble_variants(config: &UserConfig, files: Vec<Tarball>) -> (r: Vec<Variant>)
    requires
        spec_distinct_keys(config.distro.mainline@),
        spec_distinct_keys(config.distro.retro@),
        config.distro.mainline@.len() + config.distro.retro@.len() <= usize::MAX,
    ensures
        r@.len() == config.distro.mainline@.len() + config.distro.retro@.len(),
        forall|j: int|
            0 <= j < r@.len() ==> spec_variant_matches(
                r@[j],
                spec_key_at(*config, j),
                spec_cfg_at(*config, j),
                j >= config.distro.mainline@.len(),
                files@,
                config.config.retro_arches@,
            ),
{
    let m = config.distro.mainline.len();
    let rn = config.distro.retro.len();
    let total = m + rn;
    let ghost arches = config.config.retro_arches@;

    // The bucket keys, mainline tier first.
    let mut keys: Vec<String> = Vec::new();
    let mut i: usize = 0;
    while i < m
        invariant
            i <= m,
            keys@.len() == i,
            forall|k: int| 0 <= k < i ==> keys@[k] == config.distro.mainline@[k].0,
        decreases m - i,
    {
        keys.push(config.distro.mainline[i].0.clone());
        i = i + 1;
    }
    let mut i: usize = 0;
    while i < rn
        invariant
            i <= rn,
            keys@.len() == m + i,
            forall|k: int| 0 <= k < m ==> keys@[k] == config.distro.mainline@[k].0,
            forall|k: int| 0 <= k < i ==> keys@[m + k] == config.distro.retro@[k].0,
        decreases rn - i,
    {
        keys.push(config.distro.retro[i].0.clone());
        i = i + 1;
    }
    assert(forall|j: int| 0 <= j < total ==> keys@[j]@ == spec_key_at(*config, j));

    // One pair of kind lists per bucket.
    let mut tar_lists: Vec<Vec<Tarball>> = Vec::new();
    let mut sq_lists: Vec<Vec<Tarball>> = Vec::new();
    let mut i: usize = 0;
    while i < total
        invariant
            i <= total,
            tar_lists@.len() == i,
            sq_lists@.len() == i,
            forall|k: int| 0 <= k < i ==> tar_lists@[k]@ == Seq::<Tarball>::empty(),
            forall|k: int| 0 <= k < i ==> sq_lists@[k]@ == Seq::<Tarball>::empty(),
        decreases total - i,
    {
        tar_lists.push(Vec::new());
        sq_lists.push(Vec::new());
        i = i + 1;
    }

    // Distribute each file into the first bucket of its tier whose key
    // matches its variant; distinct keys make that bucket unique.
    let mut files = files;
    let ghost allf = files@;
    let ghost mut done: Seq<Tarball> = Seq::empty();
    proof {
        assert(allf =~= done + files@);
    }
    while files.len() > 0
        invariant
            allf == done + files@,
            tar_lists@.len() == total,
            sq_lists@.len() == total,
            forall|j: int|
                0 <= j < total ==> tar_lists@[j]@ == spec_bucket_files(
                    done,
                    spec_key_at(*config, j),
                    j >= m,
                    arches,
                    RootFSType::Tarball,
                ),
            forall|j: int|
                0 <= j < total ==> sq_lists@[j]@ == spec_bucket_files(
                    done,
                    spec_key_at(*config, j),
                    j >= m,
                    arches,
                    RootFSType::SquashFs,
                ),
        decreases files@.len(),
    {
        let ghost done0 = done;
        let t = files.remove(0);
        proof {
            done = done.push(t);
            assert(allf =~= done + files@);
            assert(done.drop_last() =~= done0);
        }
        let is_retro = contains_str(&config.config.retro_arches, t.arch.as_str());
        let lo: usize = if is_retro {
            m
        } else {
            0
        };
        let hi: usize = if is_retro {
            total
        } else {
            m
        };
        let mut j = lo;
        let mut hit = hi;
        while j < hi
            invariant
                lo <= j <= hi,
                lo <= hit <= hi,
                hit == hi ==> forall|k: int| lo <= k < j ==> keys@[k]@ != t.variant@,
                hit < hi ==> keys@[hit as int]@ == t.variant@,
            decreases hi - j,
        {
            if hit == hi {
                if str_eq(keys[j].as_str(), t.variant.as_str()) {
                    hit = j;
                }
            }
            j = j + 1;
        }
        let ghost tar0 = tar_lists@;
        let ghost sq0 = sq_lists@;
        if hit < hi {
            match t.type_ {
                Some(RootFSType::Tarball) => {
                    tar_lists[hit].push(t);
                },
                Some(RootFSType::SquashFs) => {
                    sq_lists[hit].push(t);
                },
                None => {},
            }
        }
        proof {
            assert forall|jj: int| 0 <= jj < total implies tar_lists@[jj]@ == spec_bucket_files(
                done,
                spec_key_at(*config, jj),
                jj >= m,
                arches,
                RootFSType::Tarball,
            ) by {
                let key = spec_key_at(*config, jj);
                let rj = jj >= m;
                let prev = spec_bucket_files(done0, key, rj, arches, RootFSType::Tarball);
                if spec_in_bucket(t, key, rj, arches, RootFSType::Tarball) {
                    assert(rj == is_retro);
                    assert(lo <= jj < hi);
                    assert(keys@[jj]@ == t.variant@);
                    assert(hit < hi);
                    if jj != hit {
                        if is_retro {
                            if jj < hit {
                                assert(config.distro.retro@[jj - m].0@ != config.distro.retro@[
                                    hit - m].0@);
                            } else {
                                assert(config.distro.retro@[hit - m].0@ != config.distro.retro@[
                                    jj - m].0@);
                            }
                        } else {
                            if jj < hit {
                                assert(config.distro.mainline@[jj].0@ != config.distro.mainline@[
                                    hit as int].0@);
                            } else {
                                assert(config.distro.mainline@[hit as int].0@ != config
                                    .distro.mainline@[jj].0@);
                            }
                        }
                        assert(false);
                    }
                    assert(tar_lists@[jj]@ == tar0[jj]@.push(t));
                    assert(tar_lists@[jj]@ == prev.push(t));
                } else {
                    assert(tar_lists@[jj]@ == tar0[jj]@);
                    assert(tar_lists@[jj]@ == prev);
                }
            }
            assert forall|jj: int| 0 <= jj < total implies sq_lists@[jj]@ == spec_bucket_files(
                done,
                spec_key_at(*config, jj),
                jj >= m,
                arches,
                RootFSType::SquashFs,
            ) by {
                let key = spec_key_at(*config, jj);
                let rj = jj >= m;
                let prev = spec_bucket_files(done0, key, rj, arches, RootFSType::SquashFs);
                if spec_in_bucket(t, key, rj, arches, RootFSType::SquashFs) {
                    assert(rj == is_retro);
                    assert(lo <= jj < hi);
                    assert(keys@[jj]@ == t.variant@);
                    assert(hit < hi);
                    if jj != hit {
                        if is_retro {
                            if jj < hit {
                                assert(config.distro.retro@[jj - m].0@ != config.distro.retro@[
                                    hit - m].0@);
                            } else {
                                assert(config.distro.retro@[hit - m].0@ != config.distro.retro@[
                                    jj - m].0@);
                            }
                        } else {
                            if jj < hit {
                                assert(config.distro.mainline@[jj].0@ != config.distro.mainline@[
                                    hit as int].0@);
                            } else {
                                assert(config.distro.mainline@[hit as int].0@ != config
                                    .distro.mainline@[jj].0@);
                            }
                        }
                        assert(false);
                    }
                    assert(sq_lists@[jj]@ == sq0[jj]@.push(t));
                    assert(sq_lists@[jj]@ == prev.push(t));
                } else {
                    assert(sq_lists@[jj]@ == sq0[jj]@);
                    assert(sq_lists@[jj]@ == prev);
                }
            }
        }
    }
    proof {
        assert(done =~= allf);
    }

    // Wrap each bucket's lists with its declared name and translation keys.
    let mut results: Vec<Variant> = Vec::new();
    let mut j: usize = 0;
    while j < total
        invariant
            j <= total,
            results@.len() == j,
            tar_lists@.len() == total - j,
            sq_lists@.len() == total - j,
            forall|k: int|
                0 <= k < total - j ==> tar_lists@[k]@ == spec_bucket_files(
                    allf,
                    spec_key_at(*config, j + k),
                    j + k >= m,
                    arches,
                    RootFSType::Tarball,
                ),
            forall|k: int|
                0 <= k < total - j ==> sq_lists@[k]@ == spec_bucket_files(
                    allf,
                    spec_key_at(*config, j + k),
                    j + k >= m,
                    arches,
                    RootFSType::SquashFs,
                ),
            forall|k: int|
                0 <= k < j ==> spec_variant_matches(
                    results@[k],
                    spec_key_at(*config, k),
                    spec_cfg_at(*config, k),
                    k >= m,
                    allf,
                    arches,
                ),
        decreases total - j,
    {
        let tl = tar_lists.remove(0);
        let sl = sq_lists.remove(0);
        let v = if j < m {
            Variant::new(
                config.distro.mainline[j].1.name.clone(),
                config.distro.mainline[j].0.clone(),
                config.distro.mainline[j].1.description.clone(),
                false,
                tl,
                sl,
            )
        } else {
            Variant::new(
                config.distro.retro[j - m].1.name.clone(),
                config.distro.retro[j - m].0.clone(),
                config.distro.retro[j - m].1.description.clone(),
                true,
                tl,
                sl,
            )
        };
        results.push(v);
        j = j + 1;
    }
    results
}

/// Every member of a bucket's list belongs to that bucket.
pub proof fn lemma_bucket_member(
    files: Seq<Tarball>,
    key: Seq<char>,
    retro: bool,
    arches: Seq<String>,
    kind: RootFSType,
    t: Tarball,
)
    requires
        spec_bucket_files(files, key, retro, arches, kind).contains(t),
    ensures
        spec_in_bucket(t, key, retro, arches, kind),
        files.contains(t),
    decreases files.len(),
{
    if files.len() > 0 {
        let rest = spec_bucket_files(files.drop_last(), key, retro, arches, kind);
        if spec_in_bucket(files.last(), key, retro, arches, kind) && t == files.last() {
            assert(files.contains(files.last()));
        } else {
            assert(rest.contains(t));
            lemma_bucket_member(files.drop_last(), key, retro, arches, kind, t);
            assert(files.drop_last().contains(t));
            let i = choose|i: int| 0 <= i < files.drop_last().len() && files.drop_last()[i] == t;
            assert(files[i] == t);
        }
    }
}

/// Bucket filtering distributes over concatenation.
pub proof fn lemma_bucket_files_concat(
    s1: Seq<Tarball>,
    s2: Seq<Tarball>,
    key: Seq<char>,
    retro: bool,
    arches: Seq<String>,
    kind: RootFSType,
)
    ensures
        spec_bucket_files(s1 + s2, key, retro, arches, kind) == spec_bucket_files(
            s1,
            key,
            retro,
            arches,
            kind,
        ) + spec_bucket_files(s2, key, retro, arches, kind),
    decreases s2.len(),
{
    if s2.len() == 0 {
        assert(s1 + s2 =~= s1);
        assert(spec_bucket_files(s2, key, retro, arches, kind) =~= Seq::<Tarball>::empty());
        assert(spec_bucket_files(s1, key, retro, arches, kind) + Seq::<Tarball>::empty()
            =~= spec_bucket_files(s1, key, retro, arches, kind));
    } else {
        assert((s1 + s2).drop_last() =~= s1 + s2.drop_last());
        assert((s1 + s2).last() == s2.last());
        lemma_bucket_files_concat(s1, s2.drop_last(), key, retro, arches, kind);
        if spec_in_bucket(s2.last(), key, retro, arches, kind) {
            assert(spec_bucket_files(s1, key, retro, arches, kind) + spec_bucket_files(
                s2,
                key,
                retro,
                arches,
                kind,
            ) =~= (spec_bucket_files(s1, key, retro, arches, kind) + spec_bucket_files(
                s2.drop_last(),
                key,
                retro,
                arches,
                kind,
            )).push(s2.last()));
        }
    }
}

/// A list whose every member belongs to the bucket filters to itself.
pub proof fn lemma_bucket_files_all(
    s: Seq<Tarball>,
    key: Seq<char>,
    retro: bool,
    arches: Seq<String>,
    kind: RootFSType,
)
    requires
        forall|i: int| 0 <= i < s.len() ==> spec_in_bucket(#[trigger] s[i], key, retro, arches, kind),
    ensures
        spec_bucket_files(s, key, retro, arches, kind) == s,
    decreases s.len(),
{
    if s.len() == 0 {
        assert(spec_bucket_files(s, key, retro, arches, kind) =~= s);
    } else {
        lemma_bucket_files_all(s.drop_last(), key, retro, arches, kind);
        assert(s[s.len() - 1] == s.last());
        assert(s.drop_last().push(s.last()) =~= s);
    }
}

/// A list with no member of the bucket filters to nothing.
pub proof fn lemma_bucket_files_none(
    s: Seq<Tarball>,
    key: Seq<char>,
    retro: bool,
    arches: Seq<String>,
    kind: RootFSType,
)
    requires
        forall|i: int|
            0 <= i < s.len() ==> !spec_in_bucket(#[trigger] s[i], key, retro, arches, kind),
    ensures
        spec_bucket_files(s, key, retro, arches, kind) == Seq::<Tarball>::empty(),
    decreases s.len(),
{
    if s.len() == 0 {
        assert(spec_bucket_files(s, key, retro, arches, kind) =~= Seq::<Tarball>::empty());
    } else {
        lemma_bucket_files_none(s.drop_last(), key, retro, arches, kind);
        assert(s[s.len() - 1] == s.last());
    }
}

/// Same-view artifacts: equal scalar fields, equal string contents.  Two
/// inventories in this relation serialize identically.
pub open spec fn spec_tarball_eqv(a: Tarball, b: Tarball) -> bool {
    &&& a.arch@ == b.arch@
    &&& a.date@ == b.date@
    &&& a.variant@ == b.variant@
    &&& a.type_ == b.type_
    &&& a.download_size == b.download_size
    &&& a.inst_size == b.inst_size
    &&& a.path@ == b.path@
    &&& a.sha256sum@ == b.sha256sum@
    &&& a.inodes == b.inodes
}

/// Same-view artifact lists, element by element.
pub open spec fn spec_tarballs_eqv(a: Seq<Tarball>, b: Seq<Tarball>) -> bool {
    a.len() == b.len() && forall|i: int|
        0 <= i < a.len() ==> spec_tarball_eqv(#[trigger] a[i], #[trigger] b[i])
}

/// Same-view output buckets: equal names, keys, tier and same-view lists.
pub open spec fn spec_variant_eqv(a: Variant, b: Variant) -> bool {
    &&& a.name@ == b.name@
    &&& a.name_tr@ == b.name_tr@
    &&& a.retro == b.retro
    &&& a.description@ == b.description@
    &&& a.description_tr@ == b.description_tr@
    &&& spec_tarballs_eqv(a.tarballs@, b.tarballs@)
    &&& spec_tarballs_eqv(a.squashfs@, b.squashfs@)
}

/// Bucket membership reads only the fields the same-view relation keeps.
pub proof fn lemma_in_bucket_eqv(
    a: Tarball,
    b: Tarball,
    key: Seq<char>,
    retro: bool,
    arches: Seq<String>,
    kind: RootFSType,
)
    requires
        spec_tarball_eqv(a, b),
    ensures
        spec_in_bucket(a, key, retro, arches, kind) == spec_in_bucket(b, key, retro, arches, kind),
{
}

/// Filtering same-view lists yields same-view buckets.
pub proof fn lemma_bucket_files_eqv(
    a: Seq<Tarball>,
    b: Seq<Tarball>,
    key: Seq<char>,
    retro: bool,
    arches: Seq<String>,
    kind: RootFSType,
)
    requires
        spec_tarballs_eqv(a, b),
    ensures
        spec_tarballs_eqv(
            spec_bucket_files(a, key, retro, arches, kind),
            spec_bucket_files(b, key, retro, arches, kind),
        ),
    decreases a.len(),
{
    if a.len() > 0 {
        assert(spec_tarball_eqv(a[a.len() - 1], b[b.len() - 1]));
        assert(forall|i: int|
            0 <= i < a.drop_last().len() ==> spec_tarball_eqv(
                #[trigger] a.drop_last()[i],
                #[trigger] b.drop_last()[i],
            ));
        lemma_bucket_files_eqv(a.drop_last(), b.drop_last(), key, retro, arches, kind);
        lemma_in_bucket_eqv(a.last(), b.last(), key, retro, arches, kind);
        let fa = spec_bucket_files(a, key, retro, arches, kind);
        let fb = spec_bucket_files(b, key, retro, arches, kind);
        let ra = spec_bucket_files(a.drop_last(), key, retro, arches, kind);
        let rb = spec_bucket_files(b.drop_last(), key, retro, arches, kind);
        if spec_in_bucket(a.last(), key, retro, arches, kind) {
            assert(fa == ra.push(a.last()));
            assert(fb == rb.push(b.last()));
            assert forall|i: int| 0 <= i < fa.len() implies spec_tarball_eqv(
                #[trigger] fa[i],
                #[trigger] fb[i],
            ) by {
                if i < ra.len() {
                    assert(fa[i] == ra[i] && fb[i] == rb[i]);
                }
            }
        }
    }
}

/// Regrouping a flattened manifest rebuilds each bucket: filtering the
/// flat list of the buckets at positions `base` and beyond yields exactly
/// bucket `j`'s own list of the given kind, or nothing when bucket `j`
/// sits before `base`.
pub proof fn lemma_regroup(
    config: UserConfig,
    flat0: Seq<Tarball>,
    vs: Seq<Variant>,
    base: int,
    j: int,
    kind: RootFSType,
)
    requires
        spec_distinct_keys(config.distro.mainline@),
        spec_distinct_keys(config.distro.retro@),
        0 <= base,
        base + vs.len() == config.distro.mainline@.len() + config.distro.retro@.len(),
        forall|k: int|
            0 <= k < vs.len() ==> spec_variant_matches(
                #[trigger] vs[k],
                spec_key_at(config, base + k),
                spec_cfg_at(config, base + k),
                base + k >= config.distro.mainline@.len(),
                flat0,
                config.config.retro_arches@,
            ),
        0 <= j < config.distro.mainline@.len() + config.distro.retro@.len(),
    ensures
        spec_bucket_files(
            spec_flatten(vs),
            spec_key_at(config, j),
            j >= config.distro.mainline@.len(),
            config.config.retro_arches@,
            kind,
        ) == (if base <= j {
            if kind == RootFSType::Tarball {
                vs[j - base].tarballs@
            } else {
                vs[j - base].squashfs@
            }
        } else {
            Seq::<Tarball>::empty()
        }),
    decreases vs.len(),
{
    let m = config.distro.mainline@.len() as int;
    let arches = config.config.retro_arches@;
    let key_j = spec_key_at(config, j);
    let retro_j = j >= m;
    if vs.len() == 0 {
        assert(spec_flatten(vs) =~= Seq::<Tarball>::empty());
        assert(spec_bucket_files(spec_flatten(vs), key_j, retro_j, arches, kind)
            =~= Seq::<Tarball>::empty());
    } else {
        let v0 = vs[0];
        let key_b = spec_key_at(config, base);
        let retro_b = base >= m;
        let t0 = v0.tarballs@;
        let s0 = v0.squashfs@;
        let rest = spec_flatten(vs.drop_first());
        assert(spec_flatten(vs) == t0 + s0 + rest);
        lemma_bucket_files_concat(t0 + s0, rest, key_j, retro_j, arches, kind);
        lemma_bucket_files_concat(t0, s0, key_j, retro_j, arches, kind);
        // Every member of bucket `base`'s lists belongs to that bucket.
        assert forall|i: int| 0 <= i < t0.len() implies spec_in_bucket(
            #[trigger] t0[i],
            key_b,
            retro_b,
            arches,
            RootFSType::Tarball,
        ) && flat0.contains(t0[i]) by {
            assert(t0.contains(t0[i]));
            lemma_bucket_member(flat0, key_b, retro_b, arches, RootFSType::Tarball, t0[i]);
        }
        assert forall|i: int| 0 <= i < s0.len() implies spec_in_bucket(
            #[trigger] s0[i],
            key_b,
            retro_b,
            arches,
            RootFSType::SquashFs,
        ) && flat0.contains(s0[i]) by {
            assert(s0.contains(s0[i]));
            lemma_bucket_member(flat0, key_b, retro_b, arches, RootFSType::SquashFs, s0[i]);
        }
        // Distinct keys within a tier keep other buckets' members out.
        if j != base {
            assert forall|i: int| 0 <= i < t0.len() implies !spec_in_bucket(
                #[trigger] t0[i],
                key_j,
                retro_j,
                arches,
                kind,
            ) by {
                if spec_in_bucket(t0[i], key_j, retro_j, arches, kind) {
                    assert(retro_j == retro_b);
                    lemma_distinct_keys_differ(config, j, base);
                    assert(false);
                }
            }
            assert forall|i: int| 0 <= i < s0.len() implies !spec_in_bucket(
                #[trigger] s0[i],
                key_j,
                retro_j,
                arches,
                kind,
            ) by {
                if spec_in_bucket(s0[i], key_j, retro_j, arches, kind) {
                    assert(retro_j == retro_b);
                    lemma_distinct_keys_differ(config, j, base);
                    assert(false);
                }
            }
            lemma_bucket_files_none(t0, key_j, retro_j, arches, kind);
            lemma_bucket_files_none(s0, key_j, retro_j, arches, kind);
        } else {
            if kind == RootFSType::Tarball {
                lemma_bucket_files_all(t0, key_j, retro_j, arches, kind);
                assert forall|i: int| 0 <= i < s0.len() implies !spec_in_bucket(
                    #[trigger] s0[i],
                    key_j,
                    retro_j,
                    arches,
                    kind,
                ) by {}
                lemma_bucket_files_none(s0, key_j, retro_j, arches, kind);
            } else {
                assert forall|i: int| 0 <= i < t0.len() implies !spec_in_bucket(
                    #[trigger] t0[i],
                    key_j,
                    retro_j,
                    arches,
                    kind,
                ) by {}
                lemma_bucket_files_none(t0, key_j, retro_j, arches, kind);
                lemma_bucket_files_all(s0, key_j, retro_j, arches, kind);
            }
        }
        // The tail holds the buckets from `base + 1` on.
        assert(vs.drop_first().len() == vs.len() - 1);
        assert forall|k: int| 0 <= k < vs.drop_first().len() implies spec_variant_matches(
            #[trigger] vs.drop_first()[k],
            spec_key_at(config, base + 1 + k),
            spec_cfg_at(config, base + 1 + k),
            base + 1 + k >= m,
            flat0,
            arches,
        ) by {
            assert(vs.drop_first()[k] == vs[k + 1]);
        }
        lemma_regroup(config, flat0, vs.drop_first(), base + 1, j, kind);
        if base <= j {
            if j == base {
                if kind == RootFSType::Tarball {
                    assert(spec_bucket_files(spec_flatten(vs), key_j, retro_j, arches, kind)
                        =~= t0);
                } else {
                    assert(spec_bucket_files(spec_flatten(vs), key_j, retro_j, arches, kind)
                        =~= s0);
                }
            } else {
                assert(vs.drop_first()[j - base - 1] == vs[j - base]);
                if kind == RootFSType::Tarball {
                    assert(spec_bucket_files(spec_flatten(vs), key_j, retro_j, arches, kind)
                        =~= vs[j - base].tarballs@);
                } else {
                    assert(spec_bucket_files(spec_flatten(vs), key_j, retro_j, arches, kind)
                        =~= vs[j - base].squashfs@);
                }
            }
        } else {
            assert(spec_bucket_files(spec_flatten(vs), key_j, retro_j, arches, kind)
                =~= Seq::<Tarball>::empty());
        }
    }
}

/// Two distinct bucket positions in the same tier carry distinct keys.
proof fn lemma_distinct_keys_differ(config: UserConfig, j: int, b: int)
    requires
        spec_distinct_keys(config.distro.mainline@),
        spec_distinct_keys(config.distro.retro@),
        0 <= j < config.distro.mainline@.len() + config.distro.retro@.len(),
        0 <= b < config.distro.mainline@.len() + config.distro.retro@.len(),
        j != b,
        (j >= config.distro.mainline@.len()) == (b >= config.distro.mainline@.len()),
    ensures
        spec_key_at(config, j) != spec_key_at(config, b),
{
    let m = config.distro.mainline@.len() as int;
    if j < m {
        if j < b {
            assert(config.distro.mainline@[j].0@ != config.distro.mainline@[b].0@);
        } else {
            assert(config.distro.mainline@[b].0@ != config.distro.mainline@[j].0@);
        }
    } else {
        if j < b {
            assert(config.distro.retro@[j - m].0@ != config.distro.retro@[b - m].0@);
        } else {
            assert(config.distro.retro@[b - m].0@ != config.distro.retro@[j - m].0@);
        }
    }
}

/// A candidate whose variant name is not declared in the configuration is
/// absent from every bucket that assembly builds: grouping buckets that
/// satisfy the `assemble_variants` contract never place such a file.
pub proof fn lemma_undeclared_variant_dropped(
    config: UserConfig,
    files: Seq<Tarball>,
    buckets: Seq<Variant>,
    t: Tarball,
    j: int,
)
    requires
        buckets.len() == config.distro.mainline@.len() + config.distro.retro@.len(),
        forall|jj: int|
            0 <= jj < buckets.len() ==> spec_variant_matches(
                #[trigger] buckets[jj],
                spec_key_at(config, jj),
                spec_cfg_at(config, jj),
                jj >= config.distro.mainline@.len(),
                files,
                config.config.retro_arches@,
            ),
        !spec_tier_contains(config.distro.mainline@, t.variant@),
        !spec_tier_contains(config.distro.retro@, t.variant@),
        0 <= j < buckets.len(),
    ensures
        !buckets[j].tarballs@.contains(t),
        !buckets[j].squashfs@.contains(t),
{
    let m = config.distro.mainline@.len() as int;
    let arches = config.config.retro_arches@;
    let key = spec_key_at(config, j);
    if j < m {
        assert(config.distro.mainline@[j].0@ == key);
        assert(spec_tier_contains(config.distro.mainline@, key));
    } else {
        assert(config.distro.retro@[j - m].0@ == key);
        assert(spec_tier_contains(config.distro.retro@, key));
    }
    if buckets[j].tarballs@.contains(t) {
        lemma_bucket_member(files, key, j >= m, arches, RootFSType::Tarball, t);
        assert(t.variant@ == key);
        assert(false);
    }
    if buckets[j].squashfs@.contains(t) {
        lemma_bucket_member(files, key, j >= m, arches, RootFSType::SquashFs, t);
        assert(false);
    }
}

/// Whether one tier declares the variant named `key`.
pub open spec fn spec_tier_contains(tier: Seq<(String, UserVariantConfig)>, key: Seq<char>) -> bool {
    exists|i: int| 0 <= i < tier.len() && tier[i].0@ == key
}

/// Wraps the grouped buckets, the bulletin and the mirrors into the final
/// manifest under the fixed schema version.
pub fn assemble_manifest(config: UserConfig, variants: Vec<Variant>) -> (r: Recipe)
    ensures
        r.version == 1,
        r.bulletin == config.bulletin,
        r.mirrors == config.mirrors,
        r.variants == variants,
{
    Recipe { version: 1, bulletin: config.bulletin, mirrors: config.mirrors, variants }
}

} // verus!
