use cargotom::entry_completion::{feature_entry_completions, name_completions, version_items, version_key_snippet};
use cargotom::registry::RustVersion;

fn s(v: &str) -> String {
    v.to_string()
}

#[test]
fn the_version_snippet_follows_the_key() {
    assert_eq!(version_key_snippet("", "1.0", "\n[x]").as_deref(), Some("version = 1.0}"));
    assert_eq!(version_key_snippet("ver", "1.0", " }\n").as_deref(), Some("version = 1.0"));
    assert_eq!(version_key_snippet("1.", "1.0", "").as_deref(), None);
    assert_eq!(version_key_snippet("v", "v1.0", "\n}").as_deref(), Some("version = 1.0}"));
}

#[test]
fn versions_are_offered_newest_first() {
    let vs = vec![RustVersion::from("1.0.0"), RustVersion::from("1.1.0"), RustVersion::from("2.0")];
    let items = version_items(&vs);
    let labels: Vec<&str> = items.iter().map(|i| i.label.as_str()).collect();
    assert_eq!(labels, vec!["2.0", "1.1.0", "1.0.0"]);
    assert_eq!(items[0].sort_text, "0000");
    assert_eq!(items[2].sort_text, "0002");
}

#[test]
fn feature_entries_complete_features_or_dependencies() {
    let existing = vec![s("dep:serde"), s("std")];
    let deps = vec![s("serde"), s("serde_json"), s("tokio")];
    let features = vec![s("std"), s("alloc"), s("derive"), s("default")];
    assert_eq!(feature_entry_completions("dep:se", &existing, Some("full"), &deps, &features), vec![s("serde_json")]);
    assert_eq!(feature_entry_completions("d", &existing, Some("derive"), &deps, &features), vec![s("default")]);
    assert_eq!(feature_entry_completions("", &existing, None, &deps, &features), vec![s("alloc"), s("derive"), s("default")]);
}

#[test]
fn crate_names_come_shortest_first() {
    let results = vec![
        (s("serde_json"), Some(s("JSON")), s("1.0.100")),
        (s("serde"), None, s("1.0.200")),
        (s("serdex"), None, s("0.1.0")),
        (s("serde_yaml"), None, s("0.9.0")),
    ];
    let existing = vec![s("serde_json"), s("serde")];
    let root = vec![s("serdex")];
    let items = name_completions("serde", &results, &existing, &root);
    let labels: Vec<&str> = items.iter().map(|i| i.label.as_str()).collect();
    assert_eq!(labels, vec!["serde", "serdex", "serde_yaml"]);
    assert_eq!(items[0].insert_text, "serde = \"1.0.200\"");
    assert_eq!(items[1].insert_text, "serdex = { workspace = true }");
    assert_eq!(items[2].sort_text, "0002");
}
