use cargotom::readable::parse_manifest;
use cargotom::toml::{DepSource, DependencyKind, FeatureArgKind};

const SAMPLE: &str = r#"[package]
name = "demo"
version = "0.1.0"

[dependencies]
serde = { version = "1.0", features = ["derive"] }
url = "2"
local = { path = "../local" }

[dev-dependencies]
tokio = { version = "1", optional = true }

[features]
default = ["serde/std", "dep:tokio", "extra"]
extra = []
"#;

#[test]
fn reads_dependencies_of_a_manifest() {
    let toml = parse_manifest(SAMPLE).expect("manifest reads");
    let names: Vec<&str> = toml.dependencies.iter().map(|d| d.data.name.data.as_str()).collect();
    assert_eq!(names, vec!["serde", "url", "local", "tokio"]);
    let serde = &toml.dependencies[0].data;
    assert_eq!(serde.kind, DependencyKind::Normal);
    match &serde.source {
        DepSource::Version { value, registry } => {
            assert_eq!(value.value.data, "1.0");
            assert!(registry.is_none());
        }
        _ => panic!("serde has a registry version"),
    }
    let features: Vec<&str> = serde.features.data.iter().map(|f| f.data.as_str()).collect();
    assert_eq!(features, vec!["derive"]);
    match &toml.dependencies[2].data.source {
        DepSource::Path(p) => assert_eq!(p.value.data, "../local"),
        _ => panic!("local has a path source"),
    }
    let tokio = &toml.dependencies[3].data;
    assert_eq!(tokio.kind, DependencyKind::Development);
    assert_eq!(tokio.optional.map(|o| o.data), Some(true));
}

#[test]
fn dependency_ranges_point_at_their_text() {
    let toml = parse_manifest(SAMPLE).expect("manifest reads");
    for d in &toml.dependencies {
        let name = &d.data.name;
        let text = &SAMPLE[name.start as usize..name.end as usize];
        assert_eq!(text, name.data);
    }
    let url = &toml.dependencies[1].data;
    if let DepSource::Version { value, .. } = &url.source {
        let text = &SAMPLE[value.value.start as usize..value.value.end as usize];
        assert_eq!(text, "\"2\"");
    } else {
        panic!("url has a registry version");
    }
}

#[test]
fn reads_features_of_a_manifest() {
    let toml = parse_manifest(SAMPLE).expect("manifest reads");
    let names: Vec<&str> = toml.features.iter().map(|f| f.data.name.data.as_str()).collect();
    assert_eq!(names, vec!["default", "extra"]);
    let args = &toml.features[0].data.args;
    assert_eq!(args.len(), 3);
    match &args[0] {
        FeatureArgKind::DependencyFeature { dependency, feature } => {
            assert_eq!(dependency.data, "serde");
            assert_eq!(feature.data, "std");
        }
        _ => panic!("serde/std names a feature of a dependency"),
    }
    match &args[1] {
        FeatureArgKind::Dependency(p) => assert_eq!(p.data, "tokio"),
        _ => panic!("dep:tokio names a dependency"),
    }
    match &args[2] {
        FeatureArgKind::CrateFeature(p) => assert_eq!(p.data, "extra"),
        _ => panic!("extra names a feature of the crate"),
    }
    assert!(toml.features[1].data.args.is_empty());
}

#[test]
fn dotted_and_workspace_dependencies() {
    let src = "[dependencies]\nfoo.workspace = true\nbar.git = \"https://example.com/bar\"\n";
    let toml = parse_manifest(src).expect("manifest reads");
    assert_eq!(toml.dependencies.len(), 2);
    assert!(matches!(toml.dependencies[0].data.source, DepSource::Workspace(_)));
    match &toml.dependencies[1].data.source {
        DepSource::Git { url, .. } => {
            assert_eq!(url.as_ref().map(|u| u.value.data.as_str()), Some("https://example.com/bar"))
        }
        _ => panic!("bar has a git source"),
    }
}

#[test]
fn workspace_members_are_read() {
    let src = "[workspace]\nmembers = [\"a\", \"b\"]\n";
    let toml = parse_manifest(src).expect("manifest reads");
    assert!(toml.workspace);
    assert_eq!(toml.children, vec!["a".to_string(), "b".to_string()]);
}

#[test]
fn target_dependencies_carry_their_target() {
    let src = "[target.'cfg(unix)'.dependencies]\nlibc = \"0.2\"\n";
    let toml = parse_manifest(src).expect("manifest reads");
    assert_eq!(toml.dependencies.len(), 1);
    let d = &toml.dependencies[0].data;
    assert_eq!(d.name.data, "libc");
    assert_eq!(d.target.len(), 1);
}

#[test]
fn dependency_to_string_short_and_expanded() {
    let toml = parse_manifest(SAMPLE).expect("manifest reads");
    assert_eq!(toml.dependencies[1].data.to_string(), "url = \"2\"");
    assert_eq!(
        toml.dependencies[0].data.to_string(),
        "serde = { version = \"1.0\", features = [ derive ] }"
    );
    assert_eq!(toml.dependencies[2].data.to_string(), "local = { path = \"../local\" }");
}

