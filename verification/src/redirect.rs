//! Selection rules of the download redirect service: from a published
//! manifest, pick the latest artifact for each variant and architecture.
//! Entries dated with the literal string `latest` are skipped outright,
//! and dates order as sortable strings.
use vstd::prelude::*;
use vstd::string::*;

use crate::parser::spec_find_char;
use crate::parser::str_eq;

verus! {

/// One artifact entry of a published manifest, as the redirect service
/// reads it.
#[derive(Debug, Clone)]
pub struct Tarball {
    pub arch: String,
    pub date: String,
    pub path: String,
    pub sha256sum: String,
}

/// One manifest bucket: its translation key and its tarball list.
#[derive(Debug, Clone)]
pub struct Variant {
    pub description_id: String,
    pub tarballs: Vec<Tarball>,
}

/// A published manifest as the redirect service reads it.
#[derive(Debug, Clone)]
pub struct Recipe {
    pub version: usize,
    pub variants: Vec<Variant>,
}

/// The variant identifier of a translation key: everything before the
/// first dash, or the whole key when it has none.
pub open spec fn spec_variant_id(d: Seq<char>) -> Seq<char> {
    d.subrange(0, spec_find_char(d, '-', 0))
}

/// Splits the variant identifier off a translation key.
pub fn get_variant_id<'a>(description: &'a str) -> (r: Option<&'a str>)
    ensures
        r matches Some(v) && v@ == spec_variant_id(description@),
{
    proof {
        crate::parser::lemma_find_char_range(description@, '-', 0);
    }
    let d = crate::parser::find_char(description, '-', 0);
    Some(description.substring_char(0, d))
}

/// Lexicographic order on character sequences, by character value.
pub open spec fn spec_str_lt(a: Seq<char>, b: Seq<char>) -> bool
    decreases a.len(),
{
    if b.len() == 0 {
        false
    } else if a.len() == 0 {
        true
    } else if a[0] == b[0] {
        spec_str_lt(a.drop_first(), b.drop_first())
    } else {
        (a[0] as int) < (b[0] as int)
    }
}

/// Whether `a` orders strictly before `b`, character by character.
#[verifier::loop_isolation(false)]
pub fn str_lt(a: &str, b: &str) -> (r: bool)
    ensures
        r == spec_str_lt(a@, b@),
{
    let la = a.unicode_len();
    let lb = b.unicode_len();
    let mut i: usize = 0;
    proof {
        assert(a@.skip(0) =~= a@);
        assert(b@.skip(0) =~= b@);
    }
    while i < la && i < lb
        invariant
            i <= la,
            i <= lb,
            spec_str_lt(a@, b@) == spec_str_lt(a@.skip(i as int), b@.skip(i as int)),
        decreases la - i,
    {
        let ca = a.get_char(i);
        let cb = b.get_char(i);
        proof {
            assert(a@.skip(i as int)[0] == a@[i as int]);
            assert(b@.skip(i as int)[0] == b@[i as int]);
            assert(a@.skip(i as int).drop_first() =~= a@.skip(i + 1));
            assert(b@.skip(i as int).drop_first() =~= b@.skip(i + 1));
        }
        if ca != cb {
            return (ca as u32) < (cb as u32);
        }
        i = i + 1;
    }
    proof {
        assert(a@.skip(i as int).len() == la - i);
        assert(b@.skip(i as int).len() == lb - i);
    }
    la < lb
}

/// The entries of an association list, with keys as character sequences.
pub open spec fn spec_entries(m: Seq<(String, Tarball)>) -> Seq<(Seq<char>, Tarball)> {
    m.map_values(|p: (String, Tarball)| (p.0@, p.1))
}

/// First index holding `key`, or -1.
pub open spec fn spec_assoc_find(m: Seq<(Seq<char>, Tarball)>, key: Seq<char>) -> int
    decreases m.len(),
{
    if m.len() == 0 {
        -1
    } else if m[0].0 == key {
        0
    } else {
        let r = spec_assoc_find(m.drop_first(), key);
        if r == -1 {
            -1
        } else {
            r + 1
        }
    }
}

/// A find that inspected a prefix pins the result.
pub proof fn lemma_assoc_find_at(m: Seq<(Seq<char>, Tarball)>, key: Seq<char>, j: int)
    requires
        0 <= j <= m.len(),
        forall|k: int| 0 <= k < j ==> m[k].0 != key,
        j < m.len() ==> m[j].0 == key,
    ensures
        j < m.len() ==> spec_assoc_find(m, key) == j,
        j == m.len() ==> spec_assoc_find(m, key) == -1,
    decreases m.len(),
{
    if m.len() > 0 && m[0].0 != key {
        lemma_assoc_find_at(m.drop_first(), key, j - 1);
    }
}

/// One step of the latest-pick fold: an entry dated `latest` is skipped
/// outright; otherwise a new key is appended, and a known key is displaced
/// by an entry whose date does not order before the current pick's.
pub open spec fn spec_insert_latest(
    m: Seq<(Seq<char>, Tarball)>,
    key: Seq<char>,
    t: Tarball,
) -> Seq<(Seq<char>, Tarball)> {
    if t.date@ == "latest"@ {
        m
    } else {
        let i = spec_assoc_find(m, key);
        if i == -1 {
            m.push((key, t))
        } else if spec_str_lt(t.date@, m[i].1.date@) {
            m
        } else {
            m.update(i, (key, t))
        }
    }
}

/// Folds the livekit image list: one pick per architecture.
pub open spec fn spec_fold_images(ts: Seq<Tarball>, acc: Seq<(Seq<char>, Tarball)>) -> Seq<
    (Seq<char>, Tarball),
>
    decreases ts.len(),
{
    if ts.len() == 0 {
        acc
    } else {
        spec_fold_images(ts.drop_first(), spec_insert_latest(acc, ts[0].arch@, ts[0]))
    }
}

/// Folds one bucket's tarballs under keys `<variant>.<arch>`.
pub open spec fn spec_fold_variant(
    vid: Seq<char>,
    ts: Seq<Tarball>,
    acc: Seq<(Seq<char>, Tarball)>,
) -> Seq<(Seq<char>, Tarball)>
    decreases ts.len(),
{
    if ts.len() == 0 {
        acc
    } else {
        spec_fold_variant(
            vid,
            ts.drop_first(),
            spec_insert_latest(acc, vid + seq!['.'] + ts[0].arch@, ts[0]),
        )
    }
}

/// Folds a whole manifest bucket by bucket.
pub open spec fn spec_fold_recipe(vs: Seq<Variant>, acc: Seq<(Seq<char>, Tarball)>) -> Seq<
    (Seq<char>, Tarball),
>
    decreases vs.len(),
{
    if vs.len() == 0 {
        acc
    } else {
        spec_fold_recipe(
            vs.drop_first(),
            spec_fold_variant(spec_variant_id(vs[0].description_id@), vs[0].tarballs@, acc),
        )
    }
}

/// Applies one latest-pick step to the association list.
#[verifier::loop_isolation(false)]
fn insert_latest(map: &mut Vec<(String, Tarball)>, key: String, t: Tarball)
    ensures
        spec_entries(final(map)@) == spec_insert_latest(spec_entries(old(map)@), key@, t),
{
    let ghost m0 = spec_entries(map@);
    if str_eq(t.date.as_str(), "latest") {
        return ;
    }
    let mut j: usize = 0;
    while j < map.len()
        invariant
            j <= map@.len(),
            map@ == old(map)@,
            forall|k: int| 0 <= k < j ==> map@[k].0@ != key@,
        decreases map@.len() - j,
    {
        if str_eq(map[j].0.as_str(), key.as_str()) {
            proof {
                lemma_assoc_find_at(m0, key@, j as int);
            }
            let stay = str_lt(t.date.as_str(), map[j].1.date.as_str());
            if !stay {
                map.remove(j);
                map.insert(j, (key, t));
                proof {
                    assert(spec_entries(map@) =~= spec_insert_latest(m0, key@, t));
                }
            } else {
                proof {
                    assert(spec_entries(map@) =~= spec_insert_latest(m0, key@, t));
                }
            }
            return ;
        }
        j = j + 1;
    }
    proof {
        lemma_assoc_find_at(m0, key@, map@.len() as int);
    }
    map.push((key, t));
    proof {
        assert(spec_entries(map@) =~= spec_insert_latest(m0, key@, t));
    }
}

/// Picks, for each architecture, the latest livekit image of the list:
/// entries dated `latest` are skipped, and later entries with the same
/// architecture displace earlier ones only with a date that does not order
/// before the pick's.
#[verifier::loop_isolation(false)]
pub fn select_latest_images(images: Vec<Tarball>) -> (r: Vec<(String, Tarball)>)
    ensures
        spec_entries(r@) == spec_fold_images(images@, Seq::empty()),
{
    let mut map: Vec<(String, Tarball)> = Vec::new();
    let mut images = images;
    let ghost imgs0 = images@;
    proof {
        assert(spec_entries(map@) =~= Seq::<(Seq<char>, Tarball)>::empty());
    }
    while images.len() > 0
        invariant
            spec_fold_images(images@, spec_entries(map@)) == spec_fold_images(imgs0, Seq::empty()),
        decreases images@.len(),
    {
        let ghost before = images@;
        let t = images.remove(0);
        proof {
            assert(before.drop_first() =~= images@);
        }
        let key = t.arch.clone();
        insert_latest(&mut map, key, t);
    }
    map
}

/// Picks, for each `<variant>.<arch>` pair of a manifest, the latest
/// tarball, under the same rule as the livekit picks.
#[verifier::loop_isolation(false)]
pub fn select_latest_tarballs(recipe: Recipe) -> (r: Vec<(String, Tarball)>)
    ensures
        spec_entries(r@) == spec_fold_recipe(recipe.variants@, Seq::empty()),
{
    let mut map: Vec<(String, Tarball)> = Vec::new();
    let mut variants = recipe.variants;
    let ghost vs0 = variants@;
    proof {
        assert(spec_entries(map@) =~= Seq::<(Seq<char>, Tarball)>::empty());
    }
    while variants.len() > 0
        invariant
            spec_fold_recipe(variants@, spec_entries(map@)) == spec_fold_recipe(vs0, Seq::empty()),
        decreases variants@.len(),
    {
        let ghost vbefore = variants@;
        let v = variants.remove(0);
        proof {
            assert(vbefore.drop_first() =~= variants@);
        }
        let vid = match get_variant_id(v.description_id.as_str()) {
            Some(x) => x,
            None => {
                return map;
            },
        };
        let vid = vid.to_owned();
        let mut ts = v.tarballs;
        while ts.len() > 0
            invariant
                spec_fold_recipe(variants@, spec_fold_variant(vid@, ts@, spec_entries(map@)))
                    == spec_fold_recipe(vs0, Seq::empty()),
            decreases ts@.len(),
        {
            let ghost tbefore = ts@;
            let t = ts.remove(0);
            proof {
                assert(tbefore.drop_first() =~= ts@);
            }
            let mut key = vid.clone();
            key.append(".");
            key.append(t.arch.as_str());
            proof {
                reveal_strlit(".");
                assert(key@ =~= vid@ + seq!['.'] + t.arch@);
            }
            insert_latest(&mut map, key, t);
        }
    }
    map
}

} // verus!
