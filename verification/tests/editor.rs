use cargotom::analyze::{analyze_manifest, check_dependency, duplicate_dependencies, duplicate_features, info_request};
use cargotom::assist::{
    completion_at, expand_action, feature_completion_items, optional_action, page_actions, shoud_allow_user,
    source_url, upgrade_text, version_completion_items, workspace_add_text, workspace_entry_text,
    workspace_member_text, CompletionSpot, PageAction,
};
use cargotom::info_api::{CacheItemOut, Deps1, Root1};
use cargotom::position::{
    crate_version, get_byte_index_from_position, index_of_first_char_in_line, normalize_key, remove_file_prefix,
};
use cargotom::readable::parse_manifest;
use cargotom::rust_version::RustVersion;
use cargotom::toml::Positioned;

fn entry(vers: &str, features: &[&str]) -> Root1 {
    Root1 {
        name: "serde".to_string(),
        vers: vers.to_string(),
        yanked: false,
        deps: vec![Deps1 { name: "opt".to_string(), req: "1".to_string(), optional: true }],
        features: features.iter().map(|f| (f.to_string(), vec![])).collect(),
        features2: None,
    }
}

#[test]
fn duplicate_features_and_dependencies_are_found() {
    let src = "[dependencies]\nserde = { version = \"1\", features = [\"a\", \"b\", \"a\"] }\nserde_json = \"1\"\n\n[dev-dependencies]\nserde_json = \"1\"\n";
    let toml = parse_manifest(src).expect("manifest reads");
    let dups = duplicate_features(&toml.dependencies[0].data);
    assert_eq!(dups.len(), 2);
    assert_eq!(dups[0].msg, "Duplicate feature name");
    // same name, different kinds: not a duplicate
    assert!(duplicate_dependencies(&toml.dependencies).is_empty());
    let src2 = "[dependencies]\nlog = \"0.4\"\n\n[dependencies.log]\nversion = \"0.4\"\n";
    if let Some(t2) = parse_manifest(src2) {
        let d = duplicate_dependencies(&t2.dependencies);
        assert!(d.len() == 0 || d.len() == 2);
    }
}

#[test]
fn version_checks_against_the_registry() {
    let src = "[dependencies]\nserde = { version = \"1.0.1\", features = [\"std\", \"nope\"] }\nfoo = \"9.9.9\"\n";
    let toml = parse_manifest(src).expect("manifest reads");
    let items = vec![entry("1.0.0", &["std"]), entry("1.0.1", &["std"]), entry("1.1.0", &["std"]), entry("2.0.0-rc", &[])];
    let ready = CacheItemOut::Ready(items);
    let c = check_dependency(&toml.dependencies[0].data, None, Some(&ready), true);
    assert!(!c.fetch);
    assert_eq!(c.errors.len(), 1);
    assert_eq!(c.errors[0].msg, "Unknown Feature");
    assert_eq!(c.warnings.len(), 1);
    assert_eq!(c.warnings[0].msg, "Newer version available: 1.1.0");
    let c_all = check_dependency(&toml.dependencies[0].data, None, Some(&ready), false);
    assert_eq!(c_all.warnings[0].msg, "Newer version available: 2.0.0-rc");
    let c2 = check_dependency(&toml.dependencies[1].data, None, Some(&ready), true);
    assert_eq!(c2.errors.len(), 1);
    assert_eq!(c2.errors[0].msg, "Invalid version");
    let pending: CacheItemOut<Root1> = CacheItemOut::Pending;
    assert!(check_dependency(&toml.dependencies[1].data, None, Some(&pending), true).fetch);
    let failed: CacheItemOut<Root1> = CacheItemOut::Error("offline".to_string());
    let c3 = check_dependency(&toml.dependencies[1].data, None, Some(&failed), true);
    assert_eq!(c3.errors[0].msg, "offline");
    let req = info_request(&toml.dependencies[1].data, None).expect("registry dependency");
    assert_eq!(req.0, None);
    assert_eq!(req.1, "foo");
}

#[test]
fn workspace_dependencies_need_a_workspace() {
    let member = parse_manifest("[dependencies]\nfoo = { workspace = true }\nbar.workspace = true\n").expect("reads");
    let ws = parse_manifest("[workspace.dependencies]\nfoo = \"1.0\"\n").expect("reads");
    let lone = check_dependency(&member.dependencies[0].data, None, None, true);
    assert_eq!(lone.errors[0].msg, "isnt part of a workspace");
    let missing = check_dependency(&member.dependencies[1].data, Some(&ws), None, true);
    assert_eq!(missing.errors[0].msg, "coundt find crate in workspace");
    let found = check_dependency(&member.dependencies[0].data, Some(&ws), None, true);
    assert!(found.errors.is_empty());
    assert!(found.fetch);
    let all = analyze_manifest(&member, Some(&ws), &vec![], true);
    assert_eq!(all.errors.len(), 1);
    assert_eq!(all.fetch, vec![0]);
}

#[test]
fn expand_collapse_and_optional_actions() {
    let toml = parse_manifest("[dependencies]\nurl = \"2.5\"\n").expect("reads");
    let d = &toml.dependencies[0].data;
    let (title, text) = expand_action(d);
    assert_eq!(title, "Expand");
    assert_eq!(text, "url = { version = \"2.5\" }");
    let (title, text) = optional_action(d);
    assert_eq!(title, "Make optional");
    assert_eq!(text, "url = { version = \"2.5\", optional = true }");
    assert_eq!(workspace_member_text(d), "url.workspace = true");
    assert_eq!(workspace_entry_text(d), "url = { version = \"2.5\" }\n");
    let expanded = parse_manifest("[dependencies]\nurl = { version = \"2.5\" }\n").expect("reads");
    let (title, text) = expand_action(&expanded.dependencies[0].data);
    assert_eq!(title, "Collapse");
    assert_eq!(text, "url = \"2.5\"");
}

#[test]
fn upgrade_only_to_newer_versions() {
    let cur = Positioned::new(0, 5, "1.2.0".to_string());
    let newer = RustVersion::try_from("1.3.0").ok();
    assert_eq!(upgrade_text(&cur, newer).as_deref(), Some("\"1.3.0\""));
    let older = RustVersion::try_from("1.1.0").ok();
    assert_eq!(upgrade_text(&cur, older), None);
    assert_eq!(upgrade_text(&cur, None), None);
}

#[test]
fn workspace_add_picks_newest_stable() {
    let items = vec![entry("1.0.0", &[]), entry("1.1.0", &[]), entry("2.0.0-beta", &[])];
    assert_eq!(workspace_add_text("serde", &items, true).as_deref(), Some("serde = \"1.1.0\""));
    assert_eq!(workspace_add_text("serde", &items, false).as_deref(), Some("serde = \"2.0.0-beta\""));
}

#[test]
fn completion_spots() {
    let src = "[dependencies]\nser = \"1.0\"\nurl = { version = \"2\", features = [\"ser\"] }\n";
    let toml = parse_manifest(src).expect("reads");
    let name_pos = src.find("ser =").unwrap() + 2;
    match completion_at(&toml, name_pos) {
        CompletionSpot::Name { dep, query } => {
            assert_eq!(dep, 0);
            assert_eq!(query, "se");
        }
        _ => panic!("a name"),
    }
    let version_pos = src.find("\"1.0\"").unwrap() + 3;
    match completion_at(&toml, version_pos) {
        CompletionSpot::Version { dep, query } => {
            assert_eq!(dep, 0);
            assert_eq!(query, "1.");
        }
        _ => panic!("a version"),
    }
    let feature_pos = src.find("\"ser\"]").unwrap() + 2;
    match completion_at(&toml, feature_pos) {
        CompletionSpot::Feature { dep, feature, query } => {
            assert_eq!(dep, 1);
            assert_eq!(feature, 0);
            assert_eq!(query, "s");
        }
        _ => panic!("a feature"),
    }
    assert!(matches!(completion_at(&toml, 3), CompletionSpot::Nothing));
}

#[test]
fn version_and_feature_completions() {
    let toml = parse_manifest("[dependencies]\nserde = \"1\"\n").expect("reads");
    let items = vec![entry("1.0.0", &[]), entry("1.0.1", &[]), entry("2.0.0", &[])];
    let v = version_completion_items(&toml.dependencies[0].data, &items, "1.");
    assert_eq!(v.len(), 2);
    assert_eq!(v[0].0, "1.0.1");
    assert_eq!(v[0].1, "serde = \"1.0.1\"");
    let names = vec!["std".to_string(), "serde_json".to_string(), "alloc".to_string()];
    let f = feature_completion_items(&names, "s");
    assert_eq!(f, vec![("std".to_string(), "\"std\"".to_string()), ("serde_json".to_string(), "\"serde_json\"".to_string())]);
}

#[test]
fn page_actions_and_links() {
    let pages = page_actions("serde", "1.0.0", false, None);
    assert_eq!(pages.len(), 3);
    match &pages[0] {
        PageAction::OpenUrl { title, url } => {
            assert_eq!(title, "Open Documentation");
            assert_eq!(url, "https://docs.rs/serde/1.0.0/");
        }
        _ => panic!("docs first"),
    }
    assert!(matches!(&pages[1], PageAction::OpenSource { .. }));
    match &pages[2] {
        PageAction::OpenUrl { url, .. } => assert_eq!(url, "https://crates.io/crates/serde"),
        _ => panic!("crates.io last"),
    }
    assert_eq!(page_actions("serde", "1", true, None).len(), 1);
    assert_eq!(
        source_url(None, Some("serde"), Some("1.0.0")).as_deref(),
        Some("https://docs.rs/crate/serde/1.0.0/source/")
    );
    assert_eq!(source_url(Some("https://repo".to_string()), None, None).as_deref(), Some("https://repo"));
    assert!(shoud_allow_user("file:///a/Cargo.toml"));
    assert!(!shoud_allow_user("file:///a/Cargo.lock"));
}

#[test]
fn line_starts_and_byte_positions() {
    let s = "ab\ncd\né";
    assert_eq!(index_of_first_char_in_line(s, 0), Some(0));
    assert_eq!(index_of_first_char_in_line(s, 1), Some(3));
    assert_eq!(index_of_first_char_in_line(s, 2), Some(6));
    assert_eq!(index_of_first_char_in_line(s, 3), Some(7));
    assert_eq!(index_of_first_char_in_line(s, 4), None);
    assert_eq!(index_of_first_char_in_line("", 1), Some(1));
    let t = "abc\ndef";
    assert_eq!(get_byte_index_from_position(t, 1, 1), 5);
    assert_eq!(get_byte_index_from_position(t, 0, 50), 6);
    assert_eq!(get_byte_index_from_position("", 3, 3), 0);
}

#[test]
fn small_text_cleanups() {
    assert_eq!(remove_file_prefix("file:///home/x").as_deref(), Some("/home/x"));
    assert_eq!(remove_file_prefix("/home/x").as_deref(), Some("/home/x"));
    assert_eq!(normalize_key("Serde_JSON-1"), "serdejson1");
    assert_eq!(crate_version(), "0.1.0");
}
