//! Version listings read with the strict version form.
use vstd::prelude::*;
use crate::rust_version::{RustVersion, VersionView, parse_version, versions_match};
use crate::text::ParseIntError;
use crate::registry::{Version, offered, offered_versions};

verus! {

/// A released version and the names of its features.
#[derive(Debug, Clone)]
pub struct VersionExport {
    pub version: RustVersion,
    pub features: Vec<String>,
}

impl VersionExport {
    /// Whether `version` reads as a version that matches this one; text that
    /// is not a version matches nothing.
    pub fn matches_version(&self, version: &str) -> (r: bool)
        ensures
            r == (parse_version(version@) matches Ok(v) && versions_match(self.version@, v)),
    {
        match RustVersion::try_from(version) {
            Ok(v) => self.version.eq(&v),
            Err(_) => false,
        }
    }
}

/// A crate as the search API lists it.
#[derive(Debug, Clone)]
pub struct Crate {
    pub exact_match: bool,
    pub name: String,
    pub description: Option<String>,
    pub max_stable_version: Option<String>,
    pub max_version: Option<String>,
}

/// The answer of the versions API.
pub struct VersionResponse {
    pub versions: Vec<Version>,
}

/// Every offered version of the listing reads as a version.
pub open spec fn all_offered_parse(vs: Seq<Version>) -> bool {
    forall|i: int| 0 <= i < vs.len() && offered(#[trigger] vs[i]) ==> parse_version(vs[i].num@) is Ok
}

impl VersionResponse {
    /// The offered versions, each read as a version with its feature names.
    pub fn versions(self) -> (r: Vec<VersionExport>)
        requires
            all_offered_parse(self.versions@),
        ensures
            r@.len() == offered_versions(self.versions@).len(),
            forall|i: int| 0 <= i < r@.len() ==> {
                &&& Ok::<VersionView, ParseIntError>((#[trigger] r@[i]).version@) == parse_version(
                    offered_versions(self.versions@)[i].num@,
                )
                &&& r@[i].features == offered_versions(self.versions@)[i].features
            },
    {
        let mut out: Vec<VersionExport> = Vec::new();
        let ghost all = self.versions@;
        for v in it: self.versions.into_iter()
            invariant
                it.seq() == all,
                all_offered_parse(all),
                out@.len() == offered_versions(all.take(it.index() as int)).len(),
                forall|i: int| 0 <= i < out@.len() ==> {
                    &&& Ok::<VersionView, ParseIntError>((#[trigger] out@[i]).version@) == parse_version(
                        offered_versions(all.take(it.index() as int))[i].num@,
                    )
                    &&& out@[i].features == offered_versions(all.take(it.index() as int))[i].features
                },
        {
            assert(all.take(it.index() + 1).drop_last() == all.take(it.index() as int));
            assert(all.take(it.index() + 1).last() == v);
            assert(all[it.index() as int] == v);
            if !v.yanked && v.has_lib {
                match RustVersion::try_from(v.num.as_str()) {
                    Ok(version) => {
                        out.push(VersionExport { version, features: v.features });
                    },
                    Err(_) => {},
                }
            }
        }
        assert(all.take(all.len() as int) == all);
        out
    }
}

} // verus!
