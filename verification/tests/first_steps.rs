use cargotom::assist::{first_line_actions, PageAction};
use cargotom::info_api::{feature_table, Root1};

#[test]
fn the_first_line_offers_the_manuals() {
    let acts = first_line_actions(0, 4);
    let pages: Vec<(String, String)> = acts
        .iter()
        .map(|a| match a {
            PageAction::OpenUrl { title, url } => (title.clone(), url.clone()),
            PageAction::OpenSource { .. } => panic!("no source page here"),
        })
        .collect();
    assert_eq!(pages.len(), 3);
    assert_eq!(pages[0].0, "Open LSP docs");
    assert_eq!(pages[1].1, "https://github.com/frederik-uni/cargotom/issues");
    assert_eq!(pages[2].1, "https://doc.rust-lang.org/cargo/reference/manifest.html");
    assert_eq!(first_line_actions(3, 0).len(), 3);
    assert!(first_line_actions(2, 5).is_empty());
}

#[test]
fn a_feature_name_occurs_once() {
    let t = feature_table(vec![
        ("std".to_string(), vec!["alloc".to_string()]),
        ("alloc".to_string(), vec![]),
        ("std".to_string(), vec!["serde/std".to_string()]),
    ]);
    assert_eq!(t.len(), 2);
    assert_eq!(t[0], ("std".to_string(), vec!["serde/std".to_string()]));
    assert_eq!(t[1].0, "alloc");
    let r = Root1::new("x".to_string(), "1.0.0".to_string(), false, vec![], t.clone(), Some(vec![
        ("a".to_string(), vec![]),
        ("a".to_string(), vec!["dep:b".to_string()]),
    ]));
    assert_eq!(r.features, t);
    assert_eq!(r.features2.unwrap(), vec![("a".to_string(), vec!["dep:b".to_string()])]);
}
