use cargotom::static_structure::{
    element_is_ok, parse, parse_checked, parse_data, parse_data_checked, Data, Element, ElementKind, Parsed, SchemaKey, Types, Val,
    Values,
};
use std::sync::Arc;

fn leaf(description: Option<&str>, id: &str) -> Element {
    Element {
        description: description.map(|d| d.to_string()),
        contents: ElementKind::Id(id.to_string()),
        values: None,
        default: None,
    }
}

fn table(description: Option<&str>, entries: Vec<(&str, Element)>) -> Element {
    Element {
        description: description.map(|d| d.to_string()),
        contents: ElementKind::Complex(entries.into_iter().map(|(k, v)| (k.to_string(), v)).collect()),
        values: None,
        default: None,
    }
}

fn sample_data() -> Data {
    let dep = table(
        Some("A dependency"),
        vec![("version", leaf(Some("The version"), "string")), ("features", leaf(Some("Features"), "array<string>"))],
    );
    let mut edition = leaf(Some("The edition"), "string");
    edition.values = Some(Values::Detail(vec![("2021".to_string(), "The 2021 edition".to_string())]));
    edition.default = Some("2015".to_string());
    let package = table(Some("The package"), vec![("edition", edition)]);
    let dependencies = table(Some("Dependencies"), vec![("$.*", leaf(None, "string | dep"))]);
    let workspace = leaf(Some("Workspace"), "object");
    Data {
        components: vec![("dep".to_string(), dep)],
        schema: vec![
            ("package".to_string(), package),
            ("dependencies".to_string(), dependencies),
            ("workspace".to_string(), workspace),
        ],
    }
}

fn keys(ks: &[&str]) -> Vec<String> {
    ks.iter().map(|k| k.to_string()).collect()
}

#[test]
fn schema_is_read_in_order() {
    let (parsed, info) = parse_data_checked(sample_data()).unwrap();
    assert_eq!(parsed.entries.len(), 3);
    assert!(matches!(&parsed.entries[0].0, SchemaKey::Exact(k) if k == "package"));
    assert!(matches!(&parsed.entries[1].0, SchemaKey::Exact(k) if k == "dependencies"));
    assert_eq!(info.len(), 2);
    assert_eq!(info[0].0, "dep");
    assert_eq!(info[1].0, "$package");
    let dependencies = &parsed.entries[1].1;
    match &dependencies.ty[0] {
        Types::Table(p) => {
            assert!(matches!(&p.entries[0].0, SchemaKey::Pattern(r) if r == ".*"));
            let ty = &p.entries[0].1.ty;
            assert_eq!(ty.len(), 2);
            assert!(matches!(ty[0], Types::String));
            assert!(matches!(&ty[1], Types::Element(v) if Arc::ptr_eq(v, &info[0].1)));
        },
        _ => panic!("expected a table"),
    }
    assert!(matches!(parsed.entries[2].1.ty[0], Types::Object));
}

#[test]
fn details_along_a_path() {
    let (parsed, _) = parse_data(sample_data());
    assert_eq!(parsed.get_detail(&keys(&["package"]), 0, false), Some("The package".to_string()));
    assert_eq!(parsed.get_detail(&keys(&["package", "edition"]), 0, false), Some("The edition".to_string()));
    assert_eq!(
        parsed.get_detail(&keys(&["package", "edition", "2021"]), 0, true),
        Some("The 2021 edition".to_string())
    );
    assert_eq!(parsed.get_detail(&keys(&["package", "edition", "2018"]), 0, true), None);
    assert_eq!(
        parsed.get_detail(&keys(&["dependencies", "serde", "version"]), 0, false),
        Some("The version".to_string())
    );
    assert_eq!(parsed.get_detail(&keys(&["dependencies", "serde"]), 0, false), Some("A dependency".to_string()));
    assert_eq!(parsed.get_detail(&keys(&["nothing"]), 0, false), None);
    assert_eq!(parsed.get_detail(&keys(&["package"]), 1, false), None);
    assert_eq!(parsed.get_detail(&keys(&[]), 0, false), None);
}

#[test]
fn keys_match_by_name_or_pattern() {
    assert!(SchemaKey::Exact("name".to_string()).is_match("name"));
    assert!(!SchemaKey::Exact("name".to_string()).is_match("names"));
    assert!(SchemaKey::Pattern("^ser".to_string()).is_match("serde"));
    assert!(!SchemaKey::Pattern("^ser".to_string()).is_match("user"));
    assert!(!SchemaKey::Pattern("(".to_string()).is_match("("));
}

#[test]
fn unreadable_schemas_are_refused() {
    let mut bad_pattern = sample_data();
    bad_pattern.schema.push(("$(".to_string(), leaf(None, "string")));
    assert!(parse_data_checked(bad_pattern).is_none());
    let mut unknown_type = sample_data();
    unknown_type.schema.push(("lib".to_string(), leaf(None, "strng")));
    assert!(parse_data_checked(unknown_type).is_none());
    let mut later_package = sample_data();
    later_package.schema.push(("bin".to_string(), leaf(None, "array<$package>")));
    assert!(parse_data_checked(later_package).is_some());
    let mut early_package = sample_data();
    early_package.schema.insert(0, ("bin".to_string(), leaf(None, "$package")));
    assert!(parse_data_checked(early_package).is_none());
}

#[test]
fn one_element_with_named_components() {
    let info: Vec<(String, Arc<Val>)> = vec![];
    let e = leaf(Some("Doc"), " string |bool| array<array<object>> ");
    assert!(element_is_ok(&e, &vec![]));
    let v = parse(e, &info);
    assert_eq!(v.detail, Some("Doc".to_string()));
    assert_eq!(v.ty.len(), 3);
    assert!(matches!(v.ty[0], Types::String));
    assert!(matches!(v.ty[1], Types::Bool));
    match &v.ty[2] {
        Types::Array(inner) => match &**inner {
            Types::Array(inner2) => assert!(matches!(**inner2, Types::Object)),
            _ => panic!("expected an array"),
        },
        _ => panic!("expected an array"),
    }
    let mut with_values = leaf(None, "string");
    with_values.values = Some(Values::NoDetail(vec!["a".to_string(), "b".to_string()]));
    let v = parse_checked(with_values, &info).unwrap();
    assert_eq!(v.values, Some(vec![("a".to_string(), None), ("b".to_string(), None)]));
    assert!(parse_checked(leaf(None, "dep"), &info).is_none());
    let types = Types::Element(Arc::new(v));
    assert_eq!(types.end_doc(), None);
    assert_eq!(types.end_doc_value("a"), None);
    let documented = Types::Array(Box::new(Types::Element(Arc::new(Val {
        ty: vec![],
        default: None,
        detail: Some("Items".to_string()),
        values: Some(vec![("x".to_string(), Some("The x".to_string()))]),
    }))));
    assert_eq!(documented.end_doc(), Some("Items".to_string()));
    assert_eq!(documented.end_doc_value("x"), Some("The x".to_string()));
    let empty = Parsed { entries: vec![] };
    assert_eq!(empty.get_detail(&keys(&["a"]), 0, false), None);
}
