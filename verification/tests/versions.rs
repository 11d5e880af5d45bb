use cargotom::rust_version::RustVersion;
use cargotom::text::ParseIntError;
use std::cmp::Ordering;
use cargotom::version_string::{RustVersion as Loose, VersionString};
use cargotom::registry::{RustVersion as Parts, Version, VersionExport, VersionResponse};
use cargotom::crate_info::VersionExport as StrictExport;

fn v(s: &str) -> RustVersion {
    RustVersion::try_from(s).expect("version reads")
}

#[test]
fn reads_the_parts_of_a_version() {
    let x = v("1.2.3-beta.1+build5");
    assert_eq!(x.mahor(), Some(1));
    assert_eq!(x.minor(), Some(2));
    assert_eq!(x.patch(), Some(&3));
    assert!(x.is_pre_release());
    assert_eq!(x.to_string(), "1.2.3-beta.1+build5");
}

#[test]
fn missing_parts_stay_missing() {
    let x = v("4");
    assert_eq!(x.mahor(), Some(4));
    assert_eq!(x.minor(), None);
    assert_eq!(x.patch(), None);
    assert!(!x.is_pre_release());
    assert_eq!(v("4.1").to_string(), "4.1");
}

#[test]
fn bad_numbers_are_errors() {
    assert!(matches!(RustVersion::try_from("1.x.3"), Err(ParseIntError::InvalidDigit)));
    assert!(matches!(RustVersion::try_from(""), Err(ParseIntError::Empty)));
    assert!(matches!(RustVersion::try_from("99999999999"), Err(ParseIntError::PosOverflow)));
}

#[test]
fn versions_order_by_parts_then_tags() {
    assert_eq!(v("1.2.3").cmp(&v("1.10.0")), Ordering::Less);
    assert_eq!(v("2.0.0").cmp(&v("1.99.99")), Ordering::Greater);
    assert_eq!(v("1.0.0-alpha").cmp(&v("1.0.0")), Ordering::Less);
    assert_eq!(v("1.0.0").cmp(&v("1.0.0")), Ordering::Equal);
    assert_eq!(v("1.0").cmp(&v("1.0.5")), Ordering::Greater);
    assert!(v("1.0.1").gt(&v("1.0.0")));
    assert!(!v("1.0.0").gt(&v("1.0.0")));
    assert_eq!(v("1.0.0").partial_cmp(&v("1.0.1")), Some(Ordering::Less));
}

#[test]
fn missing_parts_match_anything() {
    assert!(v("1").eq(&v("1.5.2")));
    assert!(v("1.5").eq(&v("1.5.2")));
    assert!(!v("1.4").eq(&v("1.5.2")));
    assert!(v("1.5.2-rc").eq(&v("1.5.2-rc")));
    assert!(!v("1.5.2-rc").eq(&v("1.5.2-beta")));
}

#[test]
fn loose_versions_compare_their_runs() {
    let a = Loose::try_from("1.0.0-rc1").expect("reads");
    let b = Loose::try_from("1.0.0-rc2").expect("reads");
    assert_eq!(a.cmp(&b), Ordering::Less);
    assert_eq!(a.to_string(), "1.0.0-rc1");
    let p = VersionString::from("10abc".to_string());
    let q = VersionString::from("9abc".to_string());
    assert_eq!(p.cmp(&q), Ordering::Greater);
    assert_eq!(p.int_or_string().len(), 2);
}

#[test]
fn registry_versions_match_given_parts() {
    let e = VersionExport { version: Parts::from("1.2.3"), features: vec!["std".to_string()] };
    assert!(e.matches_version("1.2"));
    assert!(!e.matches_version("1.3"));
    let resp = VersionResponse {
        versions: vec![
            Version { features: vec![], num: "1.0.0".to_string(), has_lib: true, yanked: false },
            Version { features: vec![], num: "1.1.0".to_string(), has_lib: true, yanked: true },
            Version { features: vec!["x".to_string()], num: "1.2.0".to_string(), has_lib: true, yanked: false },
        ],
    };
    let kept = resp.versions();
    assert_eq!(kept.len(), 2);
    assert_eq!(kept[1].version.to_string(), "1.2.0");
    assert_eq!(kept[1].features, vec!["x".to_string()]);
}

#[test]
fn strict_version_matching() {
    let e = StrictExport { version: v("2.0.1"), features: vec![] };
    assert!(e.matches_version("2"));
    assert!(e.matches_version("2.0.1"));
    assert!(!e.matches_version("2.1"));
    assert!(!e.matches_version("not a version"));
}
