use cargotom::offline_store::{build_store, from_entries, group_entries};

fn entry(name: &str, versions: &[&str]) -> (String, Vec<String>) {
    (name.to_string(), versions.iter().map(|v| v.to_string()).collect())
}

fn sample() -> Vec<(String, Vec<String>)> {
    vec![
        entry("serde_json", &["1.0.100", "1.0.99"]),
        entry("Serde", &["1.0.200"]),
        entry("serde-json", &["0.1.0"]),
        entry("tokio", &[]),
    ]
}

#[test]
fn crates_are_grouped_by_their_key() {
    let groups = group_entries(&sample());
    let keys: Vec<&[u8]> = groups.iter().map(|(k, _)| k.as_slice()).collect();
    assert_eq!(keys, vec![b"serde".as_slice(), b"serdejson".as_slice(), b"tokio".as_slice()]);
    let names: Vec<&str> = groups[1].1.iter().map(|(n, _)| n.as_str()).collect();
    assert_eq!(names, vec!["serde_json", "serde-json"]);
}

#[test]
fn search_lists_crates_under_keys_the_query_starts() {
    let data = from_entries(&sample()).expect("list");
    let rows = data.search("SERDE");
    let names: Vec<&str> = rows.iter().map(|r| r.0.as_str()).collect();
    assert_eq!(names, vec!["Serde", "serde_json", "serde-json"]);
    assert_eq!(rows[1].2, "1.0.100");
    assert_eq!(rows[0].1, None);
    let rows = data.search("tok");
    assert_eq!(rows, vec![("tokio".to_string(), None, String::new())]);
    assert!(data.search("x").is_empty());
}

#[test]
fn versions_are_those_of_the_crate_with_the_name() {
    let data = from_entries(&sample()).expect("list");
    let vs = data.get_version_local("Serde-Json").expect("found");
    let texts: Vec<String> = vs.iter().map(|v| v.to_string()).collect();
    assert_eq!(texts, vec!["0.1.0".to_string()]);
    let vs = data.get_versions("serde_json", "1.0.1").expect("found");
    let texts: Vec<String> = vs.iter().map(|v| v.to_string()).collect();
    assert_eq!(texts, vec!["1.0.100".to_string()]);
    assert!(data.get_version_local("serdejson").is_none());
    assert!(data.get_version_local("rand").is_none());
    assert!(data.get_version_local("--").is_none());
}

#[test]
fn no_crates_or_an_empty_key_give_no_list() {
    assert!(from_entries(&Vec::new()).is_none());
    assert!(from_entries(&vec![entry("serde", &["1.0.0"]), entry("--", &[])]).is_none());
    assert!(build_store(&Vec::new()).is_none());
}
