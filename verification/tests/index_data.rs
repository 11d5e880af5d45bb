use cargotom::info_api::{name_processor, Crate, Deps1, Root1, ViewMode};
use cargotom::lock::{CargoLockRaw, Package, PackageRaw, Source};
use cargotom::offline::{tokenize, OfflineCrate};
use std::collections::HashMap;
use std::sync::Arc;

fn dep(name: &str, optional: bool) -> Deps1 {
    Deps1 { name: name.to_string(), req: "1".to_string(), optional }
}

fn entry() -> Root1 {
    Root1 {
        name: "demo".to_string(),
        vers: "1.2.0".to_string(),
        yanked: false,
        deps: vec![dep("serde", true), dep("log", false), dep("tokio", true)],
        features: vec![
            ("std".to_string(), vec![]),
            ("full".to_string(), vec!["std".to_string(), "serde".to_string()]),
        ],
        features2: Some(vec![("rt".to_string(), vec!["dep:tokio".to_string()])]),
    }
}

#[test]
fn documentation_url_falls_back_to_docs_rs() {
    let mut c = Crate {
        exact_match: true,
        name: "serde".to_string(),
        description: None,
        homepage: None,
        documentation: None,
        repository: None,
        max_stable_version: None,
        max_version: None,
    };
    assert_eq!(c.documentation_url(), "https://docs.rs/serde");
    c.documentation = Some("https://serde.rs".to_string());
    assert_eq!(c.documentation_url(), "https://serde.rs");
}

#[test]
fn name_processor_names_the_dependency() {
    assert_eq!(name_processor("serde?/std"), "dep:serde");
    assert_eq!(name_processor("dep:serde?/std"), "dep:serde");
    assert_eq!(name_processor("tokio/rt"), "dep:tokio");
    assert_eq!(name_processor("plain"), "plain");
}

#[test]
fn feature_all_lists_optional_dependencies_then_features() {
    let e = entry();
    assert_eq!(e.feature_all(), vec!["serde", "tokio", "std", "full", "rt"]);
}

#[test]
fn features_are_sorted_and_marked() {
    let e = entry();
    assert_eq!(e.features(ViewMode::Features), vec!["full: [std, serde]", "rt: [dep:tokio]", "std"]);
    assert_eq!(
        e.features(ViewMode::All),
        vec!["full: [std, serde]", "rt: [dep:tokio]", "serde*", "std", "tokio*"]
    );
    // every entry of the first table counts as `dep:` + entry, so `serde`
    // (listed by `full`) is in use, and `dep:tokio` (listed by `rt`) too
    assert_eq!(e.features(ViewMode::UnusedOpt), vec!["full: [std, serde]", "rt: [dep:tokio]", "std"]);
    let mut lone = entry();
    lone.features = vec![("std".to_string(), vec![])];
    lone.features2 = None;
    assert_eq!(lone.features(ViewMode::UnusedOpt), vec!["serde*", "std", "tokio*"]);
}

#[test]
fn ver_reads_the_version() {
    assert_eq!(entry().ver().map(|v| v.to_string()), Some("1.2.0".to_string()));
    let mut e = entry();
    e.vers = "nope".to_string();
    assert!(e.ver().is_none());
}

fn le(n: u32) -> Vec<u8> {
    n.to_le_bytes().to_vec()
}

fn text(s: &str) -> Vec<u8> {
    let mut v = le(s.len() as u32);
    v.extend_from_slice(s.as_bytes());
    v
}

#[test]
fn offline_record_reads_whole() {
    let mut data = Vec::new();
    data.extend(le(7));
    data.extend(le(12));
    data.extend(le(2));
    data.extend(le(1));
    data.extend(le(99));
    data.extend(le(1));
    data.extend(le(5));
    data.extend(text("my-crate"));
    data.extend(text("does things"));
    data.extend(text(""));
    data.extend(text("https://home"));
    data.extend(text(""));
    data.extend(text("1.0.0"));
    data.extend(text("1.1.0-rc"));
    let mut keywords = HashMap::new();
    keywords.insert(1u32, Arc::new("parser".to_string()));
    let mut categories = HashMap::new();
    categories.insert(5u32, Arc::new("text".to_string()));
    let c = OfflineCrate::from_vec(data, &keywords, &categories);
    assert_eq!(c.order, 7);
    assert_eq!(c.num_versions, 12);
    assert_eq!(c.keywords.len(), 1);
    assert_eq!(*c.keywords[0], "parser");
    assert_eq!(c.categories.len(), 1);
    assert_eq!(c.name, "my-crate");
    assert_eq!(c.description.as_deref(), Some("does things"));
    assert_eq!(c.repository, None);
    assert_eq!(c.homepage.as_deref(), Some("https://home"));
    assert_eq!(c.documentation, None);
    assert_eq!(c.latest_stable_version.as_deref(), Some("1.0.0"));
    assert_eq!(c.latest_version.as_deref(), Some("1.1.0-rc"));
    let as_crate = c.as_crate(true);
    assert!(as_crate.exact_match);
    assert_eq!(as_crate.max_version.as_deref(), Some("1.1.0-rc"));
    assert_eq!(as_crate.max_stable_version.as_deref(), Some("1.0.0"));
}

#[test]
fn tokenize_splits_and_lowercases() {
    assert_eq!(tokenize("Serde_JSON-core"), vec!["serde", "json", "core"]);
    assert_eq!(tokenize("--a__b-"), vec!["a", "b"]);
    assert!(tokenize("").is_empty());
}

fn raw(name: &str, version: &str, source: Option<&str>) -> PackageRaw {
    PackageRaw {
        name: name.to_string(),
        version: version.to_string(),
        source: source.map(|s| s.to_string()),
        checksum: None,
        dependencies: None,
    }
}

#[test]
fn lock_packages_group_by_name() {
    let lock = CargoLockRaw {
        package: vec![
            raw("a", "1.0.0", None),
            raw("b", "2.0.0", None),
            raw("a", "1.1.0", None),
        ],
    };
    let groups = lock.packages();
    assert_eq!(groups.len(), 2);
    assert_eq!(groups[0].0, "a");
    assert_eq!(groups[0].1.len(), 2);
    assert_eq!(groups[0].1[1].version().to_string(), "1.1.0");
    assert_eq!(groups[1].0, "b");
}

#[test]
fn lock_sources_read() {
    match Source::from("registry+https://github.com/rust-lang/crates.io-index") {
        Source::Registry(r) => assert_eq!(r, "https://github.com/rust-lang/crates.io-index"),
        _ => panic!("registry source"),
    }
    match Source::from("git+https://github.com/a/b?branch=dev#0123456789abcdef") {
        Source::Git { url, branch, tag, rev } => {
            assert_eq!(url, "https://github.com/a/b?branch=dev#0123456789abcdef");
            assert_eq!(branch.as_deref(), Some("dev"));
            assert_eq!(tag, None);
            assert_eq!(rev, "0123456789abcdef");
        }
        _ => panic!("git source"),
    }
    assert!(matches!(Source::from("path+file:///x"), Source::Other(_)));
}

#[test]
fn git_package_label_shows_short_revision() {
    let p = Package {
        version: cargotom::rust_version::RustVersion::try_from("0.3.1").unwrap(),
        source: Some(Source::from("git+https://github.com/a/b#0123456789abcdef")),
        checksum: None,
        dependencies: None,
    };
    assert!(p.is_git());
    assert!(!p.is_registry());
    assert_eq!(p.rev().map(|s| s.as_str()), Some("0123456789abcdef"));
    assert_eq!(p.label(), "0.3.1 #0123456");
}
