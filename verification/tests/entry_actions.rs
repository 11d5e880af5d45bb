use cargotom::entry_actions::{add_upgrades, dependency_entries, named_upgrades, tree_actions, trimmed_edit, upgrades_of, version_of, EntryAction, Upgrade};
use cargotom::generate_tree::{parse_toml, Tree, TreeValue, Value};
use cargotom::positioned::{Dependency, DependencyKind, OptionalKey, Positioned, Source};
use cargotom::rust_version::RustVersion;
use std::sync::Arc;

const TEXT: &str = "[dependencies]\nserde = \"1.0.0\"\nrand = { version = \"0.8.0\" }\n";

fn entries(text: &str) -> Tree {
    let tree = parse_toml(text).unwrap();
    match tree.0.into_iter().next().unwrap().value {
        Value::Tree(t) => t,
        _ => panic!("no dependencies table"),
    }
}

fn refs(t: &Tree) -> Vec<&TreeValue> {
    t.0.iter().collect()
}

fn version(s: &str) -> RustVersion {
    RustVersion::try_from(s).unwrap()
}

fn describe(a: &EntryAction) -> String {
    match a {
        EntryAction::Edit { title, edits } => {
            let parts: Vec<String> = edits
                .iter()
                .map(|e| format!("{}:{}-{}:{}={}", e.start.0, e.start.1, e.end.0, e.end.1, e.text))
                .collect();
            format!("edit {} [{}]", title, parts.join(", "))
        },
        EntryAction::OpenUrl { title, url } => format!("open {} {}", title, url),
        EntryAction::Command { title, command } => format!("run {} {}", title, command),
    }
}

fn upgrade(name: &str, start: u32, end: u32, v: &str) -> Upgrade {
    Upgrade { name: name.to_string(), start, end, version: v.to_string() }
}

#[test]
fn version_requirements_of_entries() {
    let items = entries(TEXT).0;
    assert_eq!(items.len(), 2);
    let (v, r) = version_of(&items[0]).unwrap();
    assert_eq!(v, "1.0.0");
    assert_eq!(&TEXT[r.start as usize..r.end as usize], "\"1.0.0\"");
    let (v, r) = version_of(&items[1]).unwrap();
    assert_eq!(v, "0.8.0");
    assert_eq!(&TEXT[r.start as usize..r.end as usize], "\"0.8.0\"");
    let other = entries("[dependencies]\nlocal = { path = \"../x\" }\n").0;
    assert!(version_of(&other[0]).is_none());
}

#[test]
fn upgrades_of_tree_entries() {
    let table = entries(TEXT);
    let items = refs(&table);
    let available = vec![vec![version("1.0.0"), version("1.0.200")], vec![version("0.9.0"), version("0.7.0")]];
    let ups = upgrades_of(&items, &available).unwrap();
    assert_eq!(ups.len(), 2);
    assert_eq!((ups[0].name.as_str(), ups[0].start, ups[0].end, ups[0].version.as_str()), ("serde", 23, 30, "1.0.200"));
    assert_eq!((ups[1].name.as_str(), ups[1].start, ups[1].end, ups[1].version.as_str()), ("rand", 50, 57, "0.9.0"));
    let none_newer = vec![vec![version("0.1.0")], vec![]];
    assert!(upgrades_of(&items, &none_newer).unwrap().is_empty());
    // A requirement that is no version gives no upgrades at all.
    let odd = entries("[dependencies]\na = \"x.y\"\nb = \"1.0.0\"\n");
    assert!(upgrades_of(&refs(&odd), &vec![vec![], vec![version("2.0.0")]]).is_none());
}

#[test]
fn upgrade_edit_stays_inside_the_quotes() {
    let e = trimmed_edit(TEXT, &upgrade("serde", 23, 30, "1.0.200"));
    assert_eq!((e.start, e.end, e.text.as_str()), ((1, 9), (1, 14), "1.0.200"));
}

#[test]
fn actions_on_a_string_requirement() {
    let table = entries(TEXT);
    let items = refs(&table);
    let ups = vec![upgrade("serde", 23, 30, "1.0.200"), upgrade("rand", 50, 57, "0.9.0")];
    let got: Vec<String> = tree_actions(TEXT, &items, 16, 16, &ups).iter().map(describe).collect();
    assert_eq!(
        got,
        vec![
            "edit Upgrade [1:9-1:14=1.0.200]".to_string(),
            "edit Expand dependency specification [1:8-1:15={ version = \"1.0.0\" }]".to_string(),
            "open Open Docs https://docs.rs/serde/latest/serde/".to_string(),
            "open Open crates.io https://crates.io/crates/serde/".to_string(),
            "edit Upgrade All [1:9-1:14=1.0.200, 2:20-2:25=0.9.0]".to_string(),
            "run Update All cargo update".to_string(),
        ]
    );
}

#[test]
fn actions_on_an_inline_table() {
    let table = entries(TEXT);
    let items = refs(&table);
    let ups = vec![upgrade("rand", 50, 57, "0.9.0")];
    let got: Vec<String> = tree_actions(TEXT, &items, 32, 33, &ups).iter().map(describe).collect();
    assert_eq!(
        got,
        vec![
            "edit Upgrade [2:20-2:25=0.9.0]".to_string(),
            "open Open Docs https://docs.rs/rand/latest/rand/".to_string(),
            "open Open crates.io https://crates.io/crates/rand/".to_string(),
            "edit Upgrade All [2:20-2:25=0.9.0]".to_string(),
            "run Update All cargo update".to_string(),
        ]
    );
    // Without upgrades only the update command follows the pages.
    let got: Vec<String> = tree_actions(TEXT, &items, 32, 33, &vec![]).iter().map(describe).collect();
    assert_eq!(got.len(), 3);
    assert_eq!(got[2], "run Update All cargo update");
}

#[test]
fn no_actions_away_from_dependencies() {
    let table = entries(TEXT);
    let items = refs(&table);
    assert!(tree_actions(TEXT, &items, 0, 5, &vec![]).is_empty());
}

fn name_only(name: &str, start: u32) -> Positioned<Dependency> {
    let end = start + name.len() as u32;
    Positioned {
        start,
        end: end + 8,
        data: Dependency {
            name: Positioned { start, end, data: name.to_string() },
            kind: DependencyKind::Normal,
            source: Source::Version {
                value: OptionalKey::no_key(Positioned { start: end + 3, end: end + 8, data: "1.0".to_string() }),
                registry: None,
            },
            features: vec![],
            features_key_range: None,
            default_features: None,
            typing_keys: vec![],
            optional: None,
            target: Arc::new(vec![]),
        },
    }
}

#[test]
fn upgrade_actions_of_positioned_dependencies() {
    let text = "[dependencies]\nserde = \"1.0\"\n";
    let deps = vec![name_only("serde", 15)];
    let ups = named_upgrades(&deps, &vec![(0, "2.0.0".to_string())]);
    assert_eq!((ups[0].name.as_str(), ups[0].start, ups[0].end), ("serde", 15, 20));
    let got: Vec<String> = add_upgrades(vec![], text, "serde", &ups, "cargo-update").iter().map(describe).collect();
    assert_eq!(
        got,
        vec![
            "edit Upgrade [1:1-1:4=2.0.0]".to_string(),
            "edit Upgrade All [1:1-1:4=2.0.0]".to_string(),
            "run Update All cargo-update".to_string(),
        ]
    );
    let got: Vec<String> = add_upgrades(vec![], text, "other", &ups, "cargo-update").iter().map(describe).collect();
    assert_eq!(got, vec!["edit Upgrade All [1:1-1:4=2.0.0]".to_string(), "run Update All cargo-update".to_string()]);
    let got: Vec<String> = add_upgrades(vec![], text, "serde", &vec![], "cargo-update").iter().map(describe).collect();
    assert_eq!(got, vec!["run Update All cargo-update".to_string()]);
}

#[test]
fn dependency_entries_of_a_manifest() {
    let text = "[package]\nname = \"demo\"\n\n[dependencies]\nserde = \"1\"\n\n[dev-dependencies]\nrand = \"0.8\"\n\n[target.'cfg(unix)'.dependencies]\nlibc = \"0.2\"\n";
    let tree = parse_toml(text).unwrap();
    let names: Vec<String> = dependency_entries(&tree).iter().map(|t| t.key.value.clone()).collect();
    assert_eq!(names, vec!["serde".to_string(), "libc".to_string(), "rand".to_string()]);
}
