use repo_manifest::parser::assemble_manifest;
use repo_manifest::parser::assemble_variants;
use repo_manifest::parser::flatten_variants;
use repo_manifest::parser::get_retro_arches;
use repo_manifest::parser::get_root_path;
use repo_manifest::parser::get_splitted_name;
use repo_manifest::parser::Bulletin;
use repo_manifest::parser::FileNameParts;
use repo_manifest::parser::RootFSType;
use repo_manifest::parser::Tarball;
use repo_manifest::parser::UserBasicConfig;
use repo_manifest::parser::UserConfig;
use repo_manifest::parser::UserDistroConfig;
use repo_manifest::parser::UserVariantConfig;
use repo_manifest::parser::Variant;
use repo_manifest::scan::file_name_of;
use repo_manifest::scan::filter_files;
use repo_manifest::scan::increment_scan_files;
use repo_manifest::scan::is_iso;
use repo_manifest::scan::is_squashfs;
use repo_manifest::scan::is_tarball;
use repo_manifest::scan::join_path;
use repo_manifest::scan::kind_for_ext;
use repo_manifest::scan::scan_file;
use repo_manifest::scan::sha256sum;
use repo_manifest::scan::smart_scan_files;

#[test]
fn test_split_name() {
    let names = get_splitted_name("aosc-os_base_20200526_amd64.tar.xz").unwrap();
    assert_eq!(
        names,
        FileNameParts {
            arch: "amd64",
            date: "20200526",
            variant: "base",
            type_: "tar.xz",
        }
    );
    let names = get_splitted_name("aosc-os_server_20230714_loongarch64.squashfs").unwrap();
    assert_eq!(
        names,
        FileNameParts {
            arch: "loongarch64",
            date: "20230714",
            variant: "server",
            type_: "squashfs",
        }
    );
}

#[test]
fn split_name_rejects_malformed() {
    assert!(get_splitted_name("aosc-os.tar.xz").is_none());
    assert!(get_splitted_name("aosc-os_base_20200526").is_none());
    assert!(get_splitted_name("a_b_c_d").is_none());
    assert!(get_splitted_name("").is_none());
    assert!(get_splitted_name("a_b_c_d.iso_e").is_some());
}

#[test]
fn classifier_by_name_and_magic() {
    assert!(is_tarball("aosc-os_base_20200526_amd64.tar.xz"));
    assert!(!is_tarball("aosc-os_base_20200526_amd64.iso"));
    assert!(is_iso("livekit.iso"));
    assert!(!is_iso("livekit.tar.xz"));
    assert!(is_squashfs(b"hsqs1234"));
    assert!(!is_squashfs(b"hsq"));
    assert!(!is_squashfs(b"sqsh1234"));
}

#[test]
fn extension_kinds() {
    assert_eq!(kind_for_ext("iso"), Some(RootFSType::Tarball));
    assert_eq!(kind_for_ext("img"), Some(RootFSType::Tarball));
    assert_eq!(kind_for_ext("tar.xz"), Some(RootFSType::Tarball));
    assert_eq!(kind_for_ext("tar.gz"), Some(RootFSType::Tarball));
    assert_eq!(kind_for_ext("squashfs"), Some(RootFSType::SquashFs));
    assert_eq!(kind_for_ext("sfs"), Some(RootFSType::SquashFs));
    assert_eq!(kind_for_ext("zip"), None);
    assert_eq!(kind_for_ext(""), None);
}

#[test]
fn paths_split_and_join() {
    assert_eq!(file_name_of("/os-amd64/os-amd64_base_1_amd64.tar.xz"), "os-amd64_base_1_amd64.tar.xz");
    assert_eq!(file_name_of("plain.iso"), "plain.iso");
    assert_eq!(join_path("/releases", "a/b.iso"), "/releases/a/b.iso");
    assert_eq!(join_path("/releases/", "a/b.iso"), "/releases/a/b.iso");
}

#[test]
fn sha256_known_vector() {
    assert_eq!(
        sha256sum(b"abc"),
        "ba7816bf8f01cfea414140de5dae2223b00361a396177a9cb410ff61f20015ad"
    );
    assert_eq!(
        sha256sum(b""),
        "e3b0c44298fc1c149afbf4c8996fb92427ae41e4649b934ca495991b7852b855"
    );
}

fn variant_cfg(name: &str, description: &str) -> UserVariantConfig {
    UserVariantConfig { name: name.to_string(), description: description.to_string() }
}

fn bulletin() -> Bulletin {
    Bulletin {
        type_: "info".to_string(),
        title: "t".to_string(),
        title_tr: "t-tr".to_string(),
        body: "b".to_string(),
        body_tr: "b-tr".to_string(),
    }
}

fn test_config() -> UserConfig {
    UserConfig {
        config: UserBasicConfig {
            path: "/releases".to_string(),
            retro_arches: vec!["i486".to_string(), "powerpc".to_string()],
        },
        bulletin: bulletin(),
        mirrors: Vec::new(),
        distro: UserDistroConfig {
            mainline: vec![
                ("base".to_string(), variant_cfg("Base", "Minimal system")),
                ("server".to_string(), variant_cfg("Server", "Server flavor")),
            ],
            retro: vec![("base".to_string(), variant_cfg("Base (Retro)", "Retro base"))],
        },
    }
}

fn entry(variant: &str, arch: &str, kind: Option<RootFSType>, path: &str) -> Tarball {
    Tarball {
        arch: arch.to_string(),
        date: "20200526".to_string(),
        variant: variant.to_string(),
        type_: kind,
        download_size: 10,
        inst_size: 20,
        path: path.to_string(),
        sha256sum: "aa".to_string(),
        inodes: None,
    }
}

#[test]
fn variant_translation_keys() {
    let v = Variant::new(
        "Base".to_string(),
        "base".to_string(),
        "Minimal".to_string(),
        false,
        Vec::new(),
        Vec::new(),
    );
    assert_eq!(v.name_tr, "base-name");
    assert_eq!(v.description_tr, "base-description");
    let v = Variant::new(
        "Base".to_string(),
        "base".to_string(),
        "Minimal".to_string(),
        true,
        Vec::new(),
        Vec::new(),
    );
    assert_eq!(v.name_tr, "base-retro-name");
    assert_eq!(v.description_tr, "base-retro-description");
}

#[test]
fn assembly_groups_by_variant_tier_and_kind() {
    let config = test_config();
    let files = vec![
        entry("base", "amd64", Some(RootFSType::Tarball), "a"),
        entry("base", "i486", Some(RootFSType::Tarball), "b"),
        entry("server", "amd64", Some(RootFSType::SquashFs), "c"),
        entry("base", "amd64", Some(RootFSType::SquashFs), "d"),
        entry("base", "amd64", None, "e"),
    ];
    let variants = assemble_variants(&config, files);
    assert_eq!(variants.len(), 3);
    assert_eq!(variants[0].name_tr, "base-name");
    assert!(!variants[0].retro);
    assert_eq!(variants[0].tarballs.len(), 1);
    assert_eq!(variants[0].tarballs[0].path, "a");
    assert_eq!(variants[0].squashfs.len(), 1);
    assert_eq!(variants[0].squashfs[0].path, "d");
    assert_eq!(variants[1].name_tr, "server-name");
    assert_eq!(variants[1].tarballs.len(), 0);
    assert_eq!(variants[1].squashfs.len(), 1);
    assert_eq!(variants[1].squashfs[0].path, "c");
    assert_eq!(variants[2].name_tr, "base-retro-name");
    assert!(variants[2].retro);
    assert_eq!(variants[2].tarballs.len(), 1);
    assert_eq!(variants[2].tarballs[0].path, "b");
}

#[test]
fn undeclared_variant_is_dropped_from_manifest() {
    let config = test_config();
    let files = vec![
        entry("base", "amd64", Some(RootFSType::Tarball), "a"),
        entry("unknown", "amd64", Some(RootFSType::Tarball), "ghost"),
        entry("server", "i486", Some(RootFSType::Tarball), "retro-undeclared"),
    ];
    let variants = assemble_variants(&config, files);
    let recipe = assemble_manifest(config, variants);
    let flat = flatten_variants(recipe);
    assert_eq!(flat.len(), 1);
    assert_eq!(flat[0].path, "a");
}

#[test]
fn manifest_carries_fixed_version() {
    let config = test_config();
    let recipe = assemble_manifest(config, Vec::new());
    assert_eq!(recipe.version, 1);
    assert_eq!(recipe.bulletin.title, "t");
}

#[test]
fn config_accessors() {
    let config = test_config();
    assert_eq!(get_root_path(&config), "/releases");
    assert_eq!(get_retro_arches(&config), vec!["i486".to_string(), "powerpc".to_string()]);
}

#[test]
fn filter_drops_undeclared_and_malformed() {
    let config = test_config();
    let files = vec![
        "/releases/aosc-os_base_20200526_amd64.tar.xz".to_string(),
        "/releases/aosc-os_unknown_20200526_amd64.tar.xz".to_string(),
        "/releases/aosc-os_server_20200526_i486.tar.xz".to_string(),
        "/releases/not-a-tarball".to_string(),
    ];
    let kept = filter_files(files, &config);
    assert_eq!(kept, vec!["/releases/aosc-os_base_20200526_amd64.tar.xz".to_string()]);
}

#[test]
fn incremental_reuse_skips_known_paths() {
    let existing = vec![entry(
        "base",
        "amd64",
        Some(RootFSType::Tarball),
        "aosc-os_base_20200526_amd64.tar.xz",
    )];
    let files = vec![
        "/releases/aosc-os_base_20200526_amd64.tar.xz".to_string(),
        "/releases/aosc-os_server_20230714_amd64.tar.xz".to_string(),
    ];
    let (kept, to_scan) = increment_scan_files(files, existing, "/releases");
    assert_eq!(kept.len(), 1);
    // Reused without recomputing hash or sizes, name fields refreshed.
    assert_eq!(kept[0].sha256sum, "aa");
    assert_eq!(kept[0].download_size, 10);
    assert_eq!(kept[0].inst_size, 20);
    assert_eq!(kept[0].variant, "base");
    assert_eq!(kept[0].arch, "amd64");
    assert_eq!(kept[0].date, "20200526");
    assert_eq!(kept[0].type_, Some(RootFSType::Tarball));
    // Only the genuinely new path is scheduled for scanning.
    assert_eq!(to_scan, vec!["/releases/aosc-os_server_20230714_amd64.tar.xz".to_string()]);
}

#[test]
fn incremental_rescans_entries_with_unparseable_names() {
    // A previous entry whose file name no longer parses is not kept; its
    // path stays uncovered and is scheduled for a fresh scan, which will
    // drop it again with a warning.
    let existing = vec![entry("base", "amd64", Some(RootFSType::Tarball), "odd-name.bin")];
    let files = vec!["/releases/odd-name.bin".to_string()];
    let (kept, to_scan) = increment_scan_files(files, existing, "/releases");
    assert_eq!(kept.len(), 0);
    assert_eq!(to_scan, vec!["/releases/odd-name.bin".to_string()]);
}

#[test]
fn incremental_drops_vanished_paths() {
    let existing = vec![entry(
        "base",
        "amd64",
        Some(RootFSType::Tarball),
        "aosc-os_base_20200526_amd64.tar.xz",
    )];
    let files = vec!["/releases/aosc-os_server_20230714_amd64.tar.xz".to_string()];
    let (kept, to_scan) = increment_scan_files(files, existing, "/releases");
    assert_eq!(kept.len(), 0);
    assert_eq!(to_scan.len(), 1);
}

#[test]
fn smart_scan_without_manifest_scans_everything() {
    let config = test_config();
    let files = vec![
        "/releases/aosc-os_base_20200526_amd64.tar.xz".to_string(),
        "/releases/aosc-os_unknown_20200526_amd64.tar.xz".to_string(),
    ];
    let (kept, to_scan) = smart_scan_files(None, &config, files, "/releases");
    assert_eq!(kept.len(), 0);
    assert_eq!(to_scan, vec!["/releases/aosc-os_base_20200526_amd64.tar.xz".to_string()]);
}

#[test]
fn smart_scan_reuses_previous_manifest() {
    let config = test_config();
    let prev_files = vec![entry(
        "base",
        "amd64",
        Some(RootFSType::Tarball),
        "aosc-os_base_20200526_amd64.tar.xz",
    )];
    let variants = assemble_variants(&config, prev_files);
    let recipe = assemble_manifest(test_config(), variants);
    let files = vec!["/releases/aosc-os_base_20200526_amd64.tar.xz".to_string()];
    let (kept, to_scan) = smart_scan_files(Some(recipe), &config, files, "/releases");
    assert_eq!(kept.len(), 1);
    assert_eq!(kept[0].sha256sum, "aa");
    assert_eq!(to_scan.len(), 0);
}

fn push_varint(out: &mut Vec<u8>, mut v: u64) {
    loop {
        let byte = (v & 0x7f) as u8;
        v >>= 7;
        if v == 0 {
            out.push(byte);
            break;
        }
        out.push(byte | 0x80);
    }
}

fn xz_stream(blocks: &[(u64, u64)]) -> Vec<u8> {
    let mut v = vec![0xFD, 0x37, 0x7A, 0x58, 0x5A, 0x00, 0x00, 0x01, 0x69, 0x22, 0xDE, 0x36];
    for &(u, _) in blocks {
        let padded = (u + 3) & !3;
        v.extend(std::iter::repeat(0u8).take(padded as usize));
    }
    let mut idx = vec![0u8];
    push_varint(&mut idx, blocks.len() as u64);
    for &(u, c) in blocks {
        push_varint(&mut idx, u);
        push_varint(&mut idx, c);
    }
    while idx.len() % 4 != 0 {
        idx.push(0);
    }
    let bsize = (idx.len() as u32) / 4 - 1;
    v.extend(idx);
    v.extend([0u8; 4]);
    v.extend(bsize.to_le_bytes());
    v.extend([0x00, 0x01]);
    v.extend([b'Y', b'Z']);
    v
}

#[test]
fn scan_file_builds_full_record() {
    let data = xz_stream(&[(16, 12345)]);
    let t = scan_file("dist/aosc-os_base_20200526_amd64.tar.xz", &data, false, true).unwrap();
    assert_eq!(t.arch, "amd64");
    assert_eq!(t.date, "20200526");
    assert_eq!(t.variant, "base");
    assert_eq!(t.type_, Some(RootFSType::Tarball));
    assert_eq!(t.download_size, data.len() as i64);
    assert_eq!(t.inst_size, 12345);
    assert_eq!(t.path, "dist/aosc-os_base_20200526_amd64.tar.xz");
    assert_eq!(t.sha256sum, sha256sum(&data));
    assert_eq!(t.inodes, None);
}

#[test]
fn scan_file_raw_mode_reports_disk_length() {
    let data = vec![7u8; 640];
    let t = scan_file("livekit_base_20200526_amd64.iso", &data, true, true).unwrap();
    assert_eq!(t.download_size, 640);
    assert_eq!(t.inst_size, 640);
    assert_eq!(t.type_, Some(RootFSType::Tarball));
}

#[test]
fn scan_file_rejects_bad_names_and_short_files() {
    let data = xz_stream(&[(16, 1)]);
    assert!(scan_file("not-a-valid-name", &data, false, true).is_err());
    assert!(scan_file("a_b_c_d.tar.xz", &[0u8; 3], false, true).is_err());
}

#[test]
fn pipeline_twice_yields_identical_manifests() {
    let config = test_config();
    let root = "/releases";
    let data = xz_stream(&[(16, 999)]);
    let rel = "aosc-os_base_20200526_amd64.tar.xz";
    let candidates = vec![join_path(root, rel)];

    // First run: full scan and assembly.
    let scanned = vec![scan_file(rel, &data, false, true).unwrap()];
    let variants = assemble_variants(&config, scanned);
    let recipe1 = assemble_manifest(test_config(), variants);
    let rendered1 = render(&recipe1);

    // Second run over the unchanged set, reusing the previous manifest.
    let (kept, to_scan) =
        smart_scan_files(Some(recipe1), &config, candidates, root);
    assert_eq!(to_scan.len(), 0);
    let variants2 = assemble_variants(&config, kept);
    let recipe2 = assemble_manifest(test_config(), variants2);
    assert_eq!(render(&recipe2), rendered1);
}

/// A deterministic plain-text rendering standing in for serialization.
fn render(recipe: &repo_manifest::parser::Recipe) -> String {
    let mut out = String::new();
    out.push_str(&format!("version={}\n", recipe.version));
    for v in &recipe.variants {
        out.push_str(&format!(
            "variant name={} name_tr={} retro={} desc={} desc_tr={}\n",
            v.name, v.name_tr, v.retro, v.description, v.description_tr
        ));
        for t in v.tarballs.iter().chain(v.squashfs.iter()) {
            out.push_str(&format!(
                "  t arch={} date={} variant={} dl={} inst={} path={} sha={} inodes={:?}\n",
                t.arch, t.date, t.variant, t.download_size, t.inst_size, t.path, t.sha256sum,
                t.inodes
            ));
        }
    }
    out
}
