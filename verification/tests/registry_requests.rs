use cargotom::cache::{fetched, lookup, reply, CacheItem, Lookup, Reply};
use cargotom::info_api::Root1;
use cargotom::requests::{crate_url, index_url, listed, readme_url, search_url};

#[test]
fn index_paths_follow_the_name_length() {
    let reg = "https://index.crates.io";
    assert_eq!(index_url(reg, "a"), Some("https://index.crates.io/1/a".to_string()));
    assert_eq!(index_url(reg, "ab"), Some("https://index.crates.io/2/ab".to_string()));
    assert_eq!(index_url(reg, "abc"), Some("https://index.crates.io/3/a/abc".to_string()));
    assert_eq!(index_url(reg, "serde"), Some("https://index.crates.io/se/rd/serde".to_string()));
    assert_eq!(index_url("https://index.crates.io/", "toml"), Some("https://index.crates.io/to/ml/toml".to_string()));
    assert_eq!(index_url(reg, ""), None);
}

#[test]
fn search_address_is_encoded() {
    assert_eq!(
        search_url(10, "serde json"),
        "https://crates.io/api/v1/crates?page=1&per_page=10&q=serde%20json&sort=relevance"
    );
    assert_eq!(
        search_url(25, "a-b_c.d~é/"),
        "https://crates.io/api/v1/crates?page=1&per_page=25&q=a-b_c.d~%C3%A9%2F&sort=relevance"
    );
    assert_eq!(crate_url("serde"), "https://crates.io/api/v1/crates/serde");
    assert_eq!(readme_url("serde", "1.0.0"), "https://static.crates.io/readmes/serde/serde-1.0.0.html");
}

fn entry(vers: &str, yanked: bool) -> Root1 {
    Root1 { name: "x".to_string(), vers: vers.to_string(), yanked, deps: vec![], features: vec![], features2: None }
}

#[test]
fn yanked_versions_are_left_out() {
    let kept = listed(vec![entry("1.0.0", false), entry("1.0.1", true), entry("1.1.0", false)]);
    let vers: Vec<&str> = kept.iter().map(|v| v.vers.as_str()).collect();
    assert_eq!(vers, vec!["1.0.0", "1.1.0"]);
    assert!(listed(vec![]).is_empty());
}

#[test]
fn cache_entries_move_through_their_states() {
    let none: Option<CacheItem<u32>> = None;
    assert!(lookup(&none) == Lookup::StartFetch);
    assert!(matches!(reply(&none), Reply::Nothing));
    let pending: Option<CacheItem<u32>> = Some(CacheItem::Pending);
    assert!(lookup(&pending) == Lookup::Wait);
    assert!(matches!(reply(&pending), Reply::Nothing));
    let ready = fetched(Ok(vec![1u32, 2]), false);
    assert!(lookup(&ready) == Lookup::Reply);
    assert!(matches!(reply(&ready), Reply::Items(v) if *v == vec![1, 2]));
    let dropped = fetched::<u32>(Err("offline".to_string()), false);
    assert!(dropped.is_none());
    let kept = fetched::<u32>(Err("offline".to_string()), true);
    assert!(lookup(&kept) == Lookup::Reply);
    assert!(matches!(reply(&kept), Reply::Failed(e) if e == "offline"));
}
