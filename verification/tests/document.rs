use cargotom::document::{
    apply_change, byte_offset_to_position, crate_links, TextChange, dependency_notes, max_version, newest_after, specification_action, workspace_shortcut,
    Toml,
};
use cargotom::analyze::{to_diagnostics, Level, Severity, Warning};
use cargotom::formatting::{contains_crlf, format_manifest, Indent};
use cargotom::generate_tree::{get_after_key, parse_toml, KeyOrValue, KeyOrValueOwned, Value};
use cargotom::hints::{inlay_hints, Lock};
use cargotom::lock::{CargoLockRaw, Package, Source as LockSource};
use cargotom::positioned::{Dependency, DependencyKind, OptionalKey, Positioned, Source, WithKey};
use cargotom::raw::{CargoRawData, RangeExclusive};
use cargotom::rust_version::RustVersion;
use cargotom::position::get_byte_index_from_position;
use cargotom::structure::{Cargo, Workspace};
use std::sync::Arc;

fn text(start: u32, end: u32, s: &str) -> Positioned<String> {
    Positioned { start, end, data: s.to_string() }
}

fn registry_dep(name: &str, name_start: u32, version: &str, version_start: u32, with_key: bool) -> Positioned<Dependency> {
    let name_end = name_start + name.len() as u32;
    let version_end = version_start + version.len() as u32 + 2;
    let value = text(version_start, version_end, version);
    let value = if with_key {
        OptionalKey::with_key(RangeExclusive { start: version_start - 10, end: version_start - 3 }, value)
    } else {
        OptionalKey::no_key(value)
    };
    Positioned {
        start: name_start,
        end: version_end,
        data: Dependency {
            name: text(name_start, name_end, name),
            kind: DependencyKind::Normal,
            source: Source::Version { value, registry: None },
            features: vec![],
            features_key_range: None,
            default_features: None,
            typing_keys: vec![],
            optional: None,
            target: Arc::new(vec![]),
        },
    }
}

fn bare_dep(name: &str, start: u32) -> Positioned<Dependency> {
    let end = start + name.len() as u32;
    Positioned {
        start,
        end,
        data: Dependency {
            name: text(start, end, name),
            kind: DependencyKind::Normal,
            source: Source::Unset,
            features: vec![],
            features_key_range: None,
            default_features: None,
            typing_keys: vec![],
            optional: None,
            target: Arc::new(vec![]),
        },
    }
}

fn version(s: &str) -> RustVersion {
    RustVersion::try_from(s).unwrap()
}

fn cargo_document(content: &str, deps: Vec<Positioned<Dependency>>) -> Toml {
    let mut lock = None;
    let mut cargo = Cargo::new("/work/Cargo.toml".to_string(), &mut lock, None, Workspace::package());
    cargo.positioned_info.dependencies = deps;
    Toml::Cargo { cargo, raw: CargoRawData::new(content.to_string()) }
}

#[test]
fn position_counts_lines_and_characters() {
    assert_eq!(byte_offset_to_position("ab\ncd", 4), (1, 1));
    assert_eq!(byte_offset_to_position("ab\ncd", 0), (0, 0));
    assert_eq!(byte_offset_to_position("ab\ncd", 2), (0, 2));
    // "é" takes two bytes and counts as one character.
    assert_eq!(byte_offset_to_position("é\nxé", 6), (1, 2));
}

#[test]
fn document_finds_dependencies_by_offset_and_range() {
    let content = "[dependencies]\nserde = \"1.0\"\ntoml\n";
    let serde = registry_dep("serde", 15, "1.0", 23, false);
    let toml = bare_dep("toml", 29);
    let doc = cargo_document(content, vec![serde, toml]);
    assert!(doc.as_cargo().is_some());
    assert!(doc.as_lock().is_none());
    assert_eq!(doc.text(), content);
    assert_eq!(doc.get_dependency(16).unwrap().data.name.data, "serde");
    assert_eq!(doc.get_dependency(30).unwrap().data.name.data, "toml");
    assert!(doc.get_dependency(3).is_none());
    assert_eq!(doc.get_dependency_by_range(0, 15).unwrap().data.name.data, "serde");
    assert_eq!(doc.get_dependency_by_range(29, 40).unwrap().data.name.data, "toml");
    assert!(doc.get_dependency_by_range(0, 10).is_none());
    assert!(doc.get_feature(16).is_none());
    assert_eq!(doc.byte_offset_to_position(23), (1, 8));
    let dep = doc.get_dependency(16).unwrap();
    assert_eq!(doc.to_range(dep), ((1, 0), (1, 13)));
    assert!(doc.get_members().is_empty());
}

#[test]
fn document_text_can_be_replaced() {
    let mut doc = cargo_document("[package]\n", vec![]);
    doc.text_mut().push_str("name = \"x\"\n");
    assert_eq!(doc.text(), "[package]\nname = \"x\"\n");
    assert!(doc.as_cargo().is_some());
}

#[test]
fn lock_document_has_no_dependencies() {
    let doc = Toml::Lock(Lock { raw_data: CargoLockRaw { package: vec![] }, raw_content: "version = 3\n".to_string() });
    assert!(doc.as_cargo().is_none());
    assert!(doc.as_lock().is_some());
    assert!(doc.get_dependency(1).is_none());
    assert!(doc.get_members().is_empty());
    assert_eq!(doc.text(), "version = 3\n");
}

#[test]
fn greatest_version_is_the_last_among_equals() {
    let vs = vec![version("1.0.0"), version("1.2.0"), version("0.9.0"), version("1.2.0")];
    assert_eq!(max_version(&vs), Some(3));
    assert_eq!(max_version(&vec![]), None);
}

#[test]
fn upgrade_picks_the_newest_later_version() {
    let available = vec![version("1.0.0"), version("1.2.0"), version("0.9.0"), version("1.10.0")];
    assert_eq!(newest_after("1.1.0", &available), Some("1.10.0".to_string()));
    assert_eq!(newest_after("1.10.0", &available), None);
    assert_eq!(newest_after("not a version", &available), None);
}

#[test]
fn notes_on_a_dependency() {
    let mut dep = registry_dep("serde", 0, "1.0.0", 8, false);
    dep.data.features = vec![text(20, 26, "derive"), text(30, 34, "nope")];
    let newest = version("1.0.200");
    let known = vec!["derive".to_string(), "std".to_string()];
    assert_eq!(
        dependency_notes(&dep.data, Some(&newest), Some(&known)),
        vec![
            "A newer version is available for crate `serde`: 1.0.200 ".to_string(),
            "Unknown feature `nope` for crate `serde`".to_string(),
        ]
    );
    assert_eq!(
        dependency_notes(&dep.data, None, None),
        vec!["couldnt find version for crate `serde".to_string(), "Unknown version for crate `serde` ".to_string()]
    );
    let current = version("1.0.0");
    assert!(dependency_notes(&dep.data, Some(&current), Some(&known)).len() == 1);
    let bare = bare_dep("toml", 0);
    assert!(dependency_notes(&bare.data, Some(&newest), None).is_empty());
}

#[test]
fn quick_fixes_of_a_dependency() {
    let short = registry_dep("serde", 0, "1.0", 8, false);
    assert_eq!(
        specification_action(&short.data),
        Some(("Expand dependency specification".to_string(), " = { version = \"1.0\" }".to_string()))
    );
    let long = registry_dep("serde", 0, "1.0", 20, true);
    assert_eq!(
        specification_action(&long.data),
        Some(("Collapse dependency specification".to_string(), " = \"1.0\"".to_string()))
    );
    let bare = bare_dep("toml", 0);
    assert_eq!(specification_action(&bare.data), None);
    assert_eq!(workspace_shortcut(&bare), Some(" = { workspace = true }".to_string()));
    assert_eq!(workspace_shortcut(&short), None);
    assert_eq!(
        crate_links("serde"),
        ("https://docs.rs/serde/latest/serde/".to_string(), "https://crates.io/crates/serde/".to_string())
    );
}

fn registry_package(v: &str) -> Package {
    Package {
        version: version(v),
        source: Some(LockSource::Registry("https://github.com/rust-lang/crates.io-index".to_string())),
        checksum: None,
        dependencies: None,
    }
}

#[test]
fn hints_show_the_locked_version() {
    let deps = vec![registry_dep("serde", 0, "1.0", 8, false), registry_dep("toml", 20, "0.8", 27, false), bare_dep("rand", 40)];
    let groups = vec![
        ("serde".to_string(), vec![registry_package("2.0.0"), registry_package("1.0.5")]),
        ("toml".to_string(), vec![registry_package("0.8.19")]),
    ];
    let hints = inlay_hints(&deps, &groups);
    assert_eq!(hints.len(), 2);
    assert_eq!(hints[0].offset, deps[0].end);
    assert_eq!(hints[0].label, "1.0.5");
    assert_eq!(hints[1].offset, deps[1].end);
    assert_eq!(hints[1].label, "0.8.19");
}

#[test]
fn indentation_text() {
    assert_eq!(Indent::Spaces(3).to_string(), "   ");
    assert_eq!(Indent::Spaces(0).to_string(), "");
    assert_eq!(Indent::Tab.to_string(), "\t");
}

#[test]
fn line_ends_are_detected() {
    assert!(contains_crlf("a = 1\r\nb = 2\r\n"));
    assert!(!contains_crlf("a = 1\rb = 2\n"));
    assert!(!contains_crlf(""));
}

#[test]
fn manifest_is_formatted() {
    assert_eq!(format_manifest("a=1\n", false, true, Indent::Spaces(2)), "a = 1\n");
    assert_eq!(format_manifest("b=1\na=2\n", true, true, Indent::Spaces(2)), "a = 2\nb = 1\n");
    assert_eq!(format_manifest("b=1\na=2\n", false, true, Indent::Tab), "b = 1\na = 2\n");
    assert_eq!(format_manifest("a=1\r\n", false, true, Indent::Spaces(2)), "a = 1\r\n");
}

const MANIFEST: &str = "[package]\nname = \"demo\"\n\n[dependencies]\nserde = { version = \"1\", features = [\"derive\"] }\nflag = true\n";

#[test]
fn tree_lookups() {
    let tree = parse_toml(MANIFEST).unwrap();
    assert_eq!(tree.0.len(), 2);
    let package = match tree.get("package") {
        Some(Value::Tree(t)) => t,
        _ => panic!("no package table"),
    };
    assert_eq!(package.get("name").unwrap().as_str(), Some("demo".to_string()));
    assert!(tree.get("workspace").is_none());
    let found = tree.find("version");
    assert_eq!(found.len(), 1);
    assert_eq!(found[0].value.as_str(), Some("1".to_string()));
    assert_eq!(tree.find("features").len(), 1);
    let deps = match tree.get("dependencies") {
        Some(Value::Tree(t)) => t,
        _ => panic!("no dependencies table"),
    };
    let serde_key = &deps.0[0].key;
    assert_eq!(serde_key.value, "serde");
    let holder = tree.by_key(serde_key).unwrap();
    assert_eq!(holder.0.len(), 2);
    assert_eq!(holder.0[1].key.value, "flag");
    match &holder.0[1].value {
        Value::Bool { value, .. } => assert!(*value),
        _ => panic!("flag is not a bool"),
    }
}

#[test]
fn tree_path_to_a_position() {
    let tree = parse_toml(MANIFEST).unwrap();
    let at = MANIFEST.find("serde").unwrap() as u32 + 1;
    let path = tree.get_item_by_pos(at).unwrap();
    assert_eq!(path.len(), 2);
    match (&path[0], &path[1]) {
        (KeyOrValue::Key(a), KeyOrValue::Key(b)) => {
            assert_eq!(a.value, "dependencies");
            assert_eq!(b.value, "serde");
        },
        _ => panic!("unexpected path"),
    }
    let after = get_after_key("dependencies", &path).unwrap();
    assert_eq!(after.len(), 1);
    assert!(get_after_key("serde", &path).is_none());
    assert!(get_after_key("package", &path).is_none());
    match path[1].owned() {
        KeyOrValueOwned::Key(k) => assert_eq!(k.value, "serde"),
        KeyOrValueOwned::Value(_) => panic!("expected a key"),
    }
    assert!(path[1].owned().as_key().is_some());

    let inside = MANIFEST.find("derive").unwrap() as u32 + 2;
    let path = tree.get_item_by_pos(inside).unwrap();
    assert_eq!(path.len(), 4);
    match &path[3] {
        KeyOrValue::Value(v) => assert_eq!(v.as_str(), Some("derive".to_string())),
        KeyOrValue::Key(_) => panic!("expected a value"),
    }
    assert!(tree.get_item_by_pos(MANIFEST.len() as u32 + 10).is_none());
}

#[test]
fn editor_changes_are_applied_in_order() {
    let mut doc = cargo_document("ab\ncd\n", vec![]);
    let changes = vec![
        TextChange { range: Some(((1, 0), (1, 2))), text: "xy".to_string() },
        TextChange { range: Some(((0, 1), (0, 1))), text: "Z".to_string() },
    ];
    doc.update(&changes);
    assert_eq!(doc.text(), "aZb\nxy\n");
    doc.update(&vec![TextChange { range: None, text: "[package]\n".to_string() }]);
    assert_eq!(doc.text(), "[package]\n");
    assert!(doc.as_cargo().is_some());
    let change = TextChange { range: Some(((0, 0), (0, 0))), text: "x".to_string() };
    assert_eq!(apply_change("", &change), "x");
    let change = TextChange { range: Some(((0, 1), (0, 2))), text: "".to_string() };
    assert_eq!(apply_change("aéb", &change), "ab");
}

#[test]
fn raw_tree_of_a_manifest() {
    let mut raw = CargoRawData::new(MANIFEST.to_string());
    assert!(raw.generate_tree());
    assert_eq!(raw.text(), MANIFEST);
    assert_eq!(raw.tree.0.len(), 2);
    assert_eq!(raw.tree.0[0].key.value, "package");
    assert_eq!(raw.tree.0[1].key.value, "dependencies");
    let package = raw.tree.0[0].value.as_tree().unwrap();
    let name = package.0[0].value.as_str().unwrap();
    assert_eq!(name.data, "demo");
    assert_eq!(&MANIFEST[name.start as usize..name.end as usize], "\"demo\"");
    let deps = raw.tree.0[1].value.as_tree().unwrap();
    assert_eq!(deps.0[1].value.as_bool().unwrap().data, true);
    let mut empty = CargoRawData::new(String::new());
    assert!(empty.generate_tree());
    assert!(empty.tree.0.is_empty());
}

#[test]
fn upgrades_of_a_manifest() {
    let doc = cargo_document(
        "[dependencies]\nserde = \"1.0.0\"\ntoml\nrand = \"0.8\"\n",
        vec![registry_dep("serde", 15, "1.0.0", 23, false), bare_dep("toml", 31), registry_dep("rand", 36, "0.8.0", 43, false)],
    );
    let available = vec![
        vec![version("1.0.0"), version("1.0.200"), version("2.0.0-rc.1")],
        vec![version("0.9.0")],
        vec![version("0.8.0")],
    ];
    let updates = doc.needs_update(&available).unwrap();
    assert_eq!(updates.len(), 1);
    assert_eq!(updates[0].0, 0);
    assert_eq!(doc.get_dependency(16).unwrap().data.name.data, "serde");
    assert_eq!(updates[0].1, "2.0.0-rc.1");
    let lock = Toml::Lock(Lock { raw_data: CargoLockRaw { package: vec![] }, raw_content: String::new() });
    assert!(lock.needs_update(&vec![]).is_none());
}

#[test]
fn diagnostics_of_findings() {
    let items = vec![
        Warning { level: Level::Warn, msg: "Newer version available: 2.0.0".to_string(), start: (1, 8), end: (1, 13) },
        Warning { level: Level::Error, msg: "Duplicate feature name".to_string(), start: (2, 0), end: (2, 4) },
    ];
    let d = to_diagnostics(false, items);
    assert_eq!(d.len(), 3);
    assert_eq!(d[0].severity, Severity::Information);
    assert_eq!((d[0].start, d[0].end), ((0, 0), (1, 0)));
    assert!(d[0].message.contains("hide_docs_info_message"));
    assert_eq!(d[1].severity, Severity::Warning);
    assert_eq!((d[1].start, d[1].end), ((1, 8), (1, 13)));
    assert_eq!(d[1].message, "Newer version available: 2.0.0");
    assert_eq!(d[2].severity, Severity::Error);
    let hidden = to_diagnostics(true, vec![Warning { level: Level::Error, msg: "x".to_string(), start: (0, 0), end: (0, 1) }]);
    assert_eq!(hidden.len(), 1);
    assert_eq!(hidden[0].message, "x");
}

#[test]
fn an_ascii_offset_comes_back_from_its_position() {
    let text = "[package]\nname = \"a\"\n\n[dependencies]\nserde = \"1\"\n";
    for off in 0..text.len() as u32 {
        let (line, col) = byte_offset_to_position(text, off);
        assert_eq!(get_byte_index_from_position(text, line, col), off as usize);
    }
    assert_eq!(byte_offset_to_position(text, 10), (1, 0));
    assert_eq!(byte_offset_to_position(text, 21), (2, 0));
    assert_eq!(byte_offset_to_position(text, 22), (3, 0));
    assert_eq!(byte_offset_to_position(text, 25), (3, 3));
}
