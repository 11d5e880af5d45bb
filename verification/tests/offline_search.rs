use cargotom::offline::OfflineCrate;
use cargotom::search_index::{build_index, build_index_checked, get_local, search, search_local};
use std::sync::Arc;

fn krate(name: &str, order: u32) -> Arc<OfflineCrate> {
    Arc::new(OfflineCrate {
        name: name.to_string(),
        repository: None,
        homepage: None,
        documentation: None,
        description: Some(format!("about {name}")),
        latest_stable_version: Some("1.0.0".to_string()),
        latest_version: None,
        categories: vec![],
        keywords: vec![],
        num_versions: 1,
        order,
    })
}

fn sample() -> Vec<Arc<OfflineCrate>> {
    vec![krate("serde_json", 50), krate("serde", 100), krate("toml-edit", 10), krate("tokio", 70)]
}

#[test]
fn words_are_found_by_their_prefixes() {
    let crates = sample();
    let ix = build_index(&crates);
    assert_eq!(search(&ix, "ser", &crates), vec![1, 0]);
    assert_eq!(search(&ix, "ser-js", &crates), vec![0]);
    assert!(search(&ix, "ser js", &crates).is_empty());
    assert_eq!(search(&ix, "Json", &crates), vec![0]);
    assert_eq!(search(&ix, "to_ed", &crates), vec![2]);
    assert_eq!(search(&ix, "to", &crates), vec![3, 2]);
    assert!(search(&ix, "", &crates).is_empty());
    assert!(search(&ix, "-_-", &crates).is_empty());
    assert!(search(&ix, "zzz", &crates).is_empty());
    assert!(search(&ix, "serde zzz", &crates).is_empty());
}

#[test]
fn the_index_holds_every_prefix_once() {
    let crates = sample();
    let ix = build_index(&crates);
    let tokens: Vec<&[u8]> = ix.tokens.iter().map(|(t, _)| t.as_slice()).collect();
    assert!(tokens.windows(2).all(|w| w[0] < w[1]));
    let s = ix.tokens.iter().find(|(t, _)| t.as_slice() == b"s").unwrap();
    assert_eq!(s.1, vec![0, 1]);
    assert_eq!(ix.set.len(), ix.tokens.len());
    assert!(ix.set.contains("serd"));
    assert!(!ix.set.contains("json_"));
}

#[test]
fn local_results_rank_by_use_then_name() {
    let crates = sample();
    let ix = build_index(&crates);
    let found = search_local(&ix, "serde", &crates);
    let names: Vec<&str> = found.iter().map(|c| c.name.as_str()).collect();
    assert_eq!(names, vec!["serde", "serde_json"]);
    assert!(found[0].exact_match);
    assert!(!found[1].exact_match);
    assert_eq!(found[0].description.as_deref(), Some("about serde"));
    assert_eq!(found[0].max_version.as_deref(), Some("1.0.0"));
    let to = search_local(&ix, "to", &crates);
    let names: Vec<&str> = to.iter().map(|c| c.name.as_str()).collect();
    assert_eq!(names, vec!["tokio", "toml-edit"]);
    assert_eq!(get_local(&crates, "tokio"), Some(3));
    assert_eq!(get_local(&crates, "rand"), None);
}

#[test]
fn names_that_cannot_be_cut_are_refused() {
    assert!(build_index_checked(&sample()).is_some());
    assert!(build_index_checked(&vec![krate("héllo", 1)]).is_none());
}

#[test]
fn a_query_word_must_start_a_word_of_the_name() {
    let crates = sample();
    let ix = build_index(&crates);
    assert_eq!(search(&ix, "edit", &crates), vec![2]);
    assert!(search(&ix, "dit", &crates).is_empty());
    assert!(search(&ix, "erde", &crates).is_empty());
    assert!(search(&ix, "tomledit", &crates).is_empty());
}

#[test]
fn local_results_start_with_the_query() {
    let crates = sample();
    let ix = build_index(&crates);
    assert!(search_local(&ix, "json", &crates).is_empty());
    assert!(search_local(&ix, "edit", &crates).is_empty());
    let found = search_local(&ix, "serde_j", &crates);
    let names: Vec<&str> = found.iter().map(|c| c.name.as_str()).collect();
    assert_eq!(names, vec!["serde_json"]);
    assert!(search_local(&ix, "Serde", &crates).is_empty());
}
