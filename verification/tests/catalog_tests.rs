use vml::files::{get_config, EmbeddedAssets};
use vml::images::{
    available, commit_pull, find, list, path, update_images, url_from_render, Image, ImageEntry,
    ImagesConfig,
};
use vml::Error;

fn entry(url: &str, change: &[&str]) -> ImageEntry {
    ImageEntry {
        url: url.to_string(),
        get_url_prog: None,
        description: None,
        change: change.iter().map(|s| s.to_string()).collect(),
        update_after_days: None,
        arch_mapping: Vec::new(),
    }
}

fn full_entry(
    url: &str,
    prog: Option<&str>,
    desc: Option<&str>,
    change: &[&str],
    days: Option<u64>,
    arch: &[(&str, &str)],
) -> ImageEntry {
    ImageEntry {
        url: url.to_string(),
        get_url_prog: prog.map(|s| s.to_string()),
        description: desc.map(|s| s.to_string()),
        change: change.iter().map(|s| s.to_string()).collect(),
        update_after_days: days,
        arch_mapping: arch.iter().map(|(a, b)| (a.to_string(), b.to_string())).collect(),
    }
}

fn assert_entry_eq(a: &ImageEntry, b: &ImageEntry) {
    assert_eq!(a.url, b.url);
    assert_eq!(a.get_url_prog, b.get_url_prog);
    assert_eq!(a.description, b.description);
    assert_eq!(a.change, b.change);
    assert_eq!(a.update_after_days, b.update_after_days);
    assert_eq!(a.arch_mapping, b.arch_mapping);
}

fn config(dir: &str, days: Option<u64>) -> ImagesConfig {
    ImagesConfig {
        directory: dir.to_string(),
        other_directories_ro: Vec::new(),
        update_after_days: days,
    }
}

#[test]
fn merge_with_itself_is_identity() {
    let cat = vec![
        ("alpine".to_string(), full_entry(
            "https://a",
            Some("prog"),
            Some("small"),
            &["update-all", "delete"],
            Some(7),
            &[("amd64", "x86_64")],
        )),
        ("debian".to_string(), entry("https://d", &["keep-url"])),
    ];
    let merged = update_images(&cat, &cat);
    assert_eq!(merged.len(), cat.len());
    for (m, c) in merged.iter().zip(cat.iter()) {
        assert_eq!(m.0, c.0);
        assert_entry_eq(&m.1, &c.1);
    }
}

#[test]
fn delete_directive_drops_entry_missing_upstream() {
    let old_cat = vec![
        ("gone".to_string(), entry("https://gone", &["delete"])),
        ("kept".to_string(), entry("https://kept", &[])),
    ];
    let new_cat: Vec<(String, ImageEntry)> = Vec::new();
    let merged = update_images(&new_cat, &old_cat);
    assert_eq!(merged.len(), 1);
    assert_eq!(merged[0].0, "kept");
    assert_eq!(merged[0].1.url, "https://kept");
}

#[test]
fn keep_field_beats_update_all() {
    let old_cat = vec![(
        "debian".to_string(),
        full_entry("A", None, Some("old desc"), &["update-all", "keep-url"], Some(1), &[]),
    )];
    let new_cat = vec![(
        "debian".to_string(),
        full_entry("B", None, Some("new desc"), &[], Some(9), &[]),
    )];
    let merged = update_images(&new_cat, &old_cat);
    assert_eq!(merged.len(), 1);
    // the kept field survives, the rest follows update-all
    assert_eq!(merged[0].1.url, "A");
    assert_eq!(merged[0].1.description.as_deref(), Some("new desc"));
    assert_eq!(merged[0].1.update_after_days, Some(9));
}

#[test]
fn update_field_forces_new_without_update_all() {
    let old_cat = vec![(
        "debian".to_string(),
        full_entry("A", None, Some("old desc"), &["update-url"], None, &[]),
    )];
    let new_cat = vec![(
        "debian".to_string(),
        full_entry("B", None, Some("new desc"), &[], None, &[]),
    )];
    let merged = update_images(&new_cat, &old_cat);
    assert_eq!(merged[0].1.url, "B");
    // no directive for the description: the old value survives
    assert_eq!(merged[0].1.description.as_deref(), Some("old desc"));
}

#[test]
fn update_all_takes_every_field_from_new() {
    let old_cat = vec![(
        "debian".to_string(),
        full_entry("A", Some("oldprog"), Some("old"), &["update-all"], Some(1), &[("a", "b")]),
    )];
    let new_entry = full_entry("B", Some("newprog"), Some("new"), &["x"], Some(2), &[("c", "d")]);
    let new_cat = vec![("debian".to_string(), new_entry)];
    let merged = update_images(&new_cat, &old_cat);
    assert_entry_eq(&merged[0].1, &new_cat[0].1);
}

#[test]
fn keep_url_example() {
    // old debian has url "A" and change ["keep-url"]; new has url "B"
    let old_cat = vec![("debian".to_string(), entry("A", &["keep-url"]))];
    let new_cat = vec![("debian".to_string(), entry("B", &[]))];
    let merged = update_images(&new_cat, &old_cat);
    assert_eq!(merged[0].1.url, "A");
}

#[test]
fn unknown_directives_are_ignored() {
    let old_cat = vec![("debian".to_string(), entry("A", &["frobnicate", "update"]))];
    let new_cat = vec![("debian".to_string(), entry("B", &[]))];
    let merged = update_images(&new_cat, &old_cat);
    assert_eq!(merged[0].1.url, "A");
}

#[test]
fn merge_interleaves_and_drains_both_tails() {
    let old_cat = vec![
        ("bravo".to_string(), entry("ob", &[])),
        ("zulu".to_string(), entry("oz", &[])),
    ];
    let new_cat = vec![
        ("alpha".to_string(), entry("na", &[])),
        ("mike".to_string(), entry("nm", &[])),
    ];
    let merged = update_images(&new_cat, &old_cat);
    let names: Vec<&str> = merged.iter().map(|p| p.0.as_str()).collect();
    assert_eq!(names, vec!["alpha", "bravo", "mike", "zulu"]);
    assert_eq!(merged[0].1.url, "na");
    assert_eq!(merged[1].1.url, "ob");
    assert_eq!(merged[2].1.url, "nm");
    assert_eq!(merged[3].1.url, "oz");
}

#[test]
fn merge_of_empty_catalogs_is_empty() {
    let merged = update_images(&Vec::new(), &Vec::new());
    assert!(merged.is_empty());
}

fn plain_image(name: &str, days: Option<u64>, default_days: Option<u64>) -> Image {
    let e = ImageEntry {
        url: "https://example".to_string(),
        get_url_prog: None,
        description: None,
        change: Vec::new(),
        update_after_days: days,
        arch_mapping: Vec::new(),
    };
    Image::from_entry(name, &e, &config("/images", default_days), "x86_64")
}

#[test]
fn outdate_is_false_when_file_is_absent() {
    let img = plain_image("debian", Some(1), None);
    assert!(!img.outdate(None, 1_000_000_000));
}

#[test]
fn outdate_thresholds() {
    let img = plain_image("debian", Some(1), None);
    // exactly one day is not yet stale; one second more is
    assert!(!img.outdate(Some(0), 86_400));
    assert!(img.outdate(Some(0), 86_401));
    // a modification time in the future is never stale
    assert!(!img.outdate(Some(100), 50));
    // with no threshold anywhere nothing is stale
    let img2 = plain_image("debian", None, None);
    assert!(!img2.outdate(Some(0), u64::MAX));
    // the catalog default applies when the image has no override
    let img3 = plain_image("debian", None, Some(2));
    assert!(!img3.outdate(Some(0), 2 * 86_400));
    assert!(img3.outdate(Some(0), 2 * 86_400 + 1));
}

#[test]
fn pull_failure_leaves_directory_untouched() {
    let dir = vec![
        ("debian".to_string(), vec![1u8, 2, 3]),
        ("alpine".to_string(), vec![9u8]),
    ];
    let after = commit_pull(dir.clone(), "debian", None);
    assert_eq!(after, dir);
}

#[test]
fn pull_success_replaces_only_the_named_file() {
    let dir = vec![
        ("debian".to_string(), vec![1u8, 2, 3]),
        ("alpine".to_string(), vec![9u8]),
    ];
    let after = commit_pull(dir.clone(), "debian", Some(vec![7u8, 8]));
    assert_eq!(after.len(), 2);
    assert_eq!(after[0], ("debian".to_string(), vec![7u8, 8]));
    assert_eq!(after[1], dir[1]);
    // a new name is appended
    let after2 = commit_pull(dir.clone(), "fedora", Some(vec![4u8]));
    assert_eq!(after2.len(), 3);
    assert_eq!(after2[2], ("fedora".to_string(), vec![4u8]));
}

#[test]
fn list_unions_sorts_and_dedups() {
    let dirs = vec![
        vec!["x".to_string(), "y".to_string()],
        vec!["y".to_string(), "z".to_string()],
    ];
    assert_eq!(list(&dirs), vec!["x".to_string(), "y".to_string(), "z".to_string()]);
}

#[test]
fn find_respects_priority_and_fails_when_absent() {
    let dirs = vec![
        ("/primary".to_string(), vec!["debian".to_string()]),
        ("/fallback".to_string(), vec!["debian".to_string(), "alpine".to_string()]),
    ];
    assert_eq!(find(&dirs, "debian").unwrap(), "/primary/debian");
    assert_eq!(find(&dirs, "alpine").unwrap(), "/fallback/alpine");
    assert!(matches!(find(&dirs, "missing"), Err(Error::ImageDoesNotExists(n)) if n == "missing"));
}

#[test]
fn path_checks_presence() {
    let files = vec!["debian".to_string()];
    assert_eq!(path("/images", &files, "debian").unwrap(), "/images/debian");
    assert!(matches!(
        path("/images", &files, "alpine"),
        Err(Error::ImageDoesNotExists(n)) if n == "alpine"
    ));
}

#[test]
fn available_renders_url_through_arch_mapping() {
    let entries = vec![(
        "debian".to_string(),
        full_entry(
            "https://dl/{{arch}}.qcow2",
            None,
            Some("stable"),
            &[],
            Some(3),
            &[("amd64", "x86_64")],
        ),
    )];
    let imgs = available(&entries, &config("/var/images", Some(9)), "amd64");
    let img = imgs.get("debian").expect("debian");
    assert_eq!(img.name, "debian");
    assert_eq!(img.description.as_deref(), Some("stable"));
    // the mapped architecture is substituted into the template
    assert_eq!(img.resolved_url(None), "https://dl/x86_64.qcow2");
    assert_eq!(img.path(), "/var/images/debian");
}

#[test]
fn available_keeps_unrenderable_url() {
    let entries = vec![(
        "debian".to_string(),
        entry("https://dl/{{unknown_var}}.qcow2", &[]),
    )];
    let imgs = available(&entries, &config("/images", None), "x86_64");
    let img = imgs.get("debian").expect("debian");
    assert_eq!(img.resolved_url(None), "https://dl/{{unknown_var}}.qcow2");
}

#[test]
fn resolved_url_prefers_nonempty_prog_output() {
    let entries = vec![("debian".to_string(), entry("https://catalog-url", &[]))];
    let imgs = available(&entries, &config("/images", None), "x86_64");
    let img = imgs.get("debian").expect("debian");
    let out = "https://resolved-url".to_string();
    assert_eq!(img.resolved_url(Some(&out)), "https://resolved-url");
    let empty = String::new();
    assert_eq!(img.resolved_url(Some(&empty)), "https://catalog-url");
}

#[test]
fn images_collection_operations() {
    let entries = vec![
        ("alpine".to_string(), entry("https://a", &[])),
        ("debian".to_string(), entry("https://d", &[])),
        ("fedora".to_string(), entry("https://f", &[])),
    ];
    let imgs = available(&entries, &config("/images", None), "x86_64");
    assert_eq!(imgs.names(), vec!["alpine", "debian", "fedora"]);
    assert!(imgs.get("nope").is_none());
    assert!(matches!(
        imgs.get_result("nope"),
        Err(Error::UnknownImage(n)) if n == "nope"
    ));

    // only alpine and fedora are on disk
    let on_disk = vec!["alpine".to_string(), "fedora".to_string()];
    let present = available(&entries, &config("/images", None), "x86_64").exists_in(&on_disk);
    assert_eq!(present.names(), vec!["alpine", "fedora"]);

    // only debian is stale
    let imgs2 = available(&entries, &config("/images", Some(1)), "x86_64");
    let status = vec![("alpine".to_string(), 100_000u64), ("debian".to_string(), 0u64)];
    let stale = imgs2.outdate(&status, 100_000);
    assert_eq!(stale.names(), vec!["debian"]);

    // an arbitrary predicate
    let imgs3 = available(&entries, &config("/images", None), "x86_64");
    let filtered = imgs3.filter(|im| im.name.starts_with('d'));
    assert_eq!(filtered.names(), vec!["debian"]);
}

#[test]
fn get_config_finds_embedded_defaults() {
    let assets = EmbeddedAssets {
        entries: vec![
            ("config.toml".to_string(), b"main".to_vec()),
            ("images-header".to_string(), b"# header\n".to_vec()),
        ],
    };
    assert_eq!(get_config(&assets, "images-header").unwrap(), b"# header\n".to_vec());
    assert!(matches!(
        get_config(&assets, "nope.toml"),
        Err(Error::GetWrongEmbeddedFile(n)) if n == "nope.toml"
    ));
}

#[test]
fn rendered_url_falls_back_to_the_template() {
    let template = "https://dl/{{arch}}.img".to_string();
    assert_eq!(url_from_render(&template, Some("https://dl/x86_64.img".to_string())),
        "https://dl/x86_64.img");
    assert_eq!(url_from_render(&template, None), "https://dl/{{arch}}.img");
}
