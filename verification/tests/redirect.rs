use repo_manifest::redirect::get_variant_id;
use repo_manifest::redirect::select_latest_images;
use repo_manifest::redirect::select_latest_tarballs;
use repo_manifest::redirect::str_lt;
use repo_manifest::redirect::Recipe;
use repo_manifest::redirect::Tarball;
use repo_manifest::redirect::Variant;

fn tarball(arch: &str, date: &str, path: &str) -> Tarball {
    Tarball {
        arch: arch.to_string(),
        date: date.to_string(),
        path: path.to_string(),
        sha256sum: "00".to_string(),
    }
}

#[test]
fn variant_id_is_key_prefix() {
    assert_eq!(get_variant_id("base-description"), Some("base"));
    assert_eq!(get_variant_id("base"), Some("base"));
    assert_eq!(get_variant_id(""), Some(""));
}

#[test]
fn date_strings_order_lexicographically() {
    assert!(str_lt("20200526", "20230714"));
    assert!(!str_lt("20230714", "20200526"));
    assert!(!str_lt("20230714", "20230714"));
    assert!(str_lt("2023", "20230714"));
}

#[test]
fn latest_pick_per_variant_and_arch() {
    let recipe = Recipe {
        version: 1,
        variants: vec![Variant {
            description_id: "base-description".to_string(),
            tarballs: vec![
                tarball("amd64", "20200101", "old"),
                tarball("amd64", "20230101", "new"),
                tarball("amd64", "latest", "symlinked"),
                tarball("arm64", "20220101", "arm"),
            ],
        }],
    };
    let picks = select_latest_tarballs(recipe);
    assert_eq!(picks.len(), 2);
    assert_eq!(picks[0].0, "base.amd64");
    assert_eq!(picks[0].1.path, "new");
    assert_eq!(picks[1].0, "base.arm64");
    assert_eq!(picks[1].1.path, "arm");
}

#[test]
fn latest_entries_are_skipped() {
    // An entry dated with the literal string `latest` never becomes a
    // pick, wherever it stands in the list.
    let images = vec![
        tarball("amd64", "latest", "symlinked"),
        tarball("amd64", "20200101", "dated"),
    ];
    let picks = select_latest_images(images);
    assert_eq!(picks.len(), 1);
    assert_eq!(picks[0].1.path, "dated");

    let images = vec![
        tarball("amd64", "20200101", "dated"),
        tarball("amd64", "latest", "symlinked"),
    ];
    let picks = select_latest_images(images);
    assert_eq!(picks.len(), 1);
    assert_eq!(picks[0].1.path, "dated");

    let images = vec![tarball("amd64", "latest", "symlinked")];
    let picks = select_latest_images(images);
    assert_eq!(picks.len(), 0);
}

#[test]
fn equal_dates_prefer_the_later_entry() {
    let images = vec![
        tarball("amd64", "20200101", "first"),
        tarball("amd64", "20200101", "second"),
    ];
    let picks = select_latest_images(images);
    assert_eq!(picks.len(), 1);
    assert_eq!(picks[0].1.path, "second");
}
