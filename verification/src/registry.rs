//! What the crates.io API tells about the versions of a crate, with the
//! loose version form it uses.
use std::cmp::Ordering;
use vstd::prelude::*;
use crate::order::ordering_sign;
use crate::rust_version::{dot_pieces, then_order, split_dots};
use crate::text::{chars_of, string_from_range};
use crate::version_string::{VersionString, opt_part, opt_fits, opt_part_order, given_parts_equal, lemma_opt_part_order};

verus! {

/// A version as the registry writes it; every part is kept as text.
#[derive(Debug, Clone)]
pub struct RustVersion {
    major: Option<VersionString>,
    minor: Option<VersionString>,
    patch: Option<VersionString>,
}

pub struct PartsView {
    pub major: Option<Seq<char>>,
    pub minor: Option<Seq<char>>,
    pub patch: Option<Seq<char>>,
}

impl View for RustVersion {
    type V = PartsView;

    closed spec fn view(&self) -> PartsView {
        PartsView { major: opt_part(self.major), minor: opt_part(self.minor), patch: opt_part(self.patch) }
    }
}

/// The parts of `s` split at its first two dots.
pub open spec fn parse_parts(s: Seq<char>) -> PartsView {
    let items = dot_pieces(s);
    PartsView {
        major: Some(items[0]),
        minor: if items.len() >= 2 { Some(items[1]) } else { None },
        patch: if items.len() == 3 { Some(items[2]) } else { None },
    }
}

/// Major, minor, then patch, each in the order of version parts; a missing
/// part is the highest.
pub open spec fn parts_order(a: PartsView, b: PartsView) -> int {
    then_order(
        opt_part_order(a.major, b.major),
        then_order(opt_part_order(a.minor, b.minor), opt_part_order(a.patch, b.patch)),
    )
}

/// `a == b` holds when every part that `b` gives is the same in `a`.
pub open spec fn parts_match(a: PartsView, b: PartsView) -> bool {
    &&& given_parts_equal(a.major, b.major)
    &&& given_parts_equal(a.minor, b.minor)
    &&& given_parts_equal(a.patch, b.patch)
}

pub open spec fn parts_fit(v: PartsView) -> bool {
    opt_fits(v.major) && opt_fits(v.minor) && opt_fits(v.patch)
}

/// The text of the version: `*`, `a`, `a.b` or `a.b.c`.
pub open spec fn parts_text(v: PartsView) -> Seq<char> {
    match v.major {
        None => seq!['*'],
        Some(major) => match v.minor {
            None => major,
            Some(minor) => match v.patch {
                None => major + seq!['.'] + minor,
                Some(patch) => major + seq!['.'] + minor + seq!['.'] + patch,
            },
        },
    }
}

fn order_of_parts(a: &Option<VersionString>, b: &Option<VersionString>) -> (r: Ordering)
    requires
        opt_fits(opt_part(*a)),
        opt_fits(opt_part(*b)),
    ensures
        ordering_sign(r) == opt_part_order(opt_part(*a), opt_part(*b)),
{
    match (a, b) {
        (Some(x), Some(y)) => x.cmp(y),
        (Some(_), None) => Ordering::Less,
        (None, Some(_)) => Ordering::Greater,
        (None, None) => Ordering::Equal,
    }
}

fn part_equal(a: &Option<VersionString>, b: &Option<VersionString>) -> (r: bool)
    ensures
        r == given_parts_equal(opt_part(*a), opt_part(*b)),
{
    match (a, b) {
        (_, None) => true,
        (Some(x), Some(y)) => x.as_string().eq(y.as_string()),
        (None, Some(_)) => false,
    }
}

fn append_part(out: &mut Vec<char>, p: &VersionString)
    ensures
        final(out)@ == old(out)@ + p@,
{
    let d = chars_of(p.as_string().as_str());
    crate::text::append_chars(out, &d);
}

impl RustVersion {
    /// Splits the text at its first two dots; every piece is kept.
    pub fn from(s: &str) -> (r: RustVersion)
        ensures
            r@ == parse_parts(s@),
    {
        let cs = chars_of(s);
        let n = cs.len();
        assert(cs@.subrange(0, n as int) == s@);
        let (dot1, dot2) = split_dots(&cs, n);
        match dot1 {
            None => RustVersion {
                major: Some(VersionString::from(string_from_range(&cs, 0, n))),
                minor: None,
                patch: None,
            },
            Some(i) => match dot2 {
                None => RustVersion {
                    major: Some(VersionString::from(string_from_range(&cs, 0, i))),
                    minor: Some(VersionString::from(string_from_range(&cs, i + 1, n))),
                    patch: None,
                },
                Some(j) => RustVersion {
                    major: Some(VersionString::from(string_from_range(&cs, 0, i))),
                    minor: Some(VersionString::from(string_from_range(&cs, i + 1, j))),
                    patch: Some(VersionString::from(string_from_range(&cs, j + 1, n))),
                },
            },
        }
    }

    pub open spec fn parts_fit(&self) -> bool {
        parts_fit(self@)
    }

    /// Major, minor, then patch; a missing part is the highest.
    pub fn cmp(&self, other: &Self) -> (r: Ordering)
        requires
            self.parts_fit(),
            other.parts_fit(),
        ensures
            ordering_sign(r) == parts_order(self@, other@),
    {
        let o = order_of_parts(&self.major, &other.major);
        if !matches!(o, Ordering::Equal) {
            return o;
        }
        let o = order_of_parts(&self.minor, &other.minor);
        if !matches!(o, Ordering::Equal) {
            return o;
        }
        order_of_parts(&self.patch, &other.patch)
    }

    pub fn partial_cmp(&self, other: &Self) -> (r: Option<Ordering>)
        requires
            self.parts_fit(),
            other.parts_fit(),
        ensures
            r matches Some(o) && ordering_sign(o) == parts_order(self@, other@),
    {
        Some(self.cmp(other))
    }

    /// Whether every part that `other` gives is the same in `self`.
    pub fn eq(&self, other: &Self) -> (r: bool)
        ensures
            r == parts_match(self@, other@),
    {
        part_equal(&self.major, &other.major) && part_equal(&self.minor, &other.minor)
            && part_equal(&self.patch, &other.patch)
    }

    /// Writes `*`, `a`, `a.b` or `a.b.c`.
    pub fn to_string(&self) -> (r: String)
        ensures
            r@ == parts_text(self@),
    {
        let mut out: Vec<char> = Vec::new();
        match &self.major {
            None => {
                out.push('*');
            },
            Some(major) => {
                append_part(&mut out, major);
                if let Some(minor) = &self.minor {
                    out.push('.');
                    append_part(&mut out, minor);
                    if let Some(patch) = &self.patch {
                        out.push('.');
                        append_part(&mut out, patch);
                    }
                }
            },
        }
        assert(out@ =~= parts_text(self@));
        crate::text::string_from(&out)
    }
}

/// A released version and the names of its features.
#[derive(Debug, Clone)]
pub struct VersionExport {
    pub version: RustVersion,
    pub features: Vec<String>,
}

impl VersionExport {
    /// Whether this version matches the version written as `version`: every
    /// part given there is the same here.
    pub fn matches_version(&self, version: &str) -> (r: bool)
        ensures
            r == parts_match(self.version@, parse_parts(version@)),
    {
        let v = RustVersion::from(version);
        self.version.eq(&v)
    }
}

/// A crate as the search API lists it.
#[derive(Debug, Clone)]
pub struct Crate {
    pub exact_match: bool,
    pub name: String,
    pub description: Option<String>,
    pub max_stable_version: Option<String>,
    pub max_version: Option<String>,
}

/// One version as the versions API lists it.
pub struct Version {
    /// The names of the features of this version.
    pub features: Vec<String>,
    pub num: String,
    pub has_lib: bool,
    pub yanked: bool,
}

/// The answer of the versions API.
pub struct VersionResponse {
    pub versions: Vec<Version>,
}

/// Whether a listed version is offered: not yanked, and a library.
pub open spec fn offered(v: Version) -> bool {
    !v.yanked && v.has_lib
}

/// The versions kept from a listing: the offered ones, in order.
pub open spec fn offered_versions(vs: Seq<Version>) -> Seq<Version>
    decreases vs.len(),
{
    if vs.len() == 0 {
        seq![]
    } else if offered(vs.last()) {
        offered_versions(vs.drop_last()).push(vs.last())
    } else {
        offered_versions(vs.drop_last())
    }
}

impl VersionResponse {
    /// The offered versions, each with its parsed version and its feature
    /// names.
    pub fn versions(self) -> (r: Vec<VersionExport>)
        ensures
            r@.len() == offered_versions(self.versions@).len(),
            forall|i: int| 0 <= i < r@.len() ==> {
                &&& (#[trigger] r@[i]).version@ == parse_parts(offered_versions(self.versions@)[i].num@)
                &&& r@[i].features == offered_versions(self.versions@)[i].features
            },
    {
        let mut out: Vec<VersionExport> = Vec::new();
        let ghost all = self.versions@;
        for v in it: self.versions.into_iter()
            invariant
                it.seq() == all,
                out@.len() == offered_versions(all.take(it.index() as int)).len(),
                forall|i: int| 0 <= i < out@.len() ==> {
                    &&& (#[trigger] out@[i]).version@ == parse_parts(offered_versions(all.take(it.index() as int))[i].num@)
                    &&& out@[i].features == offered_versions(all.take(it.index() as int))[i].features
                },
        {
            assert(all.take(it.index() + 1).drop_last() == all.take(it.index() as int));
            assert(all.take(it.index() + 1).last() == v);
            if !v.yanked && v.has_lib {
                let version = RustVersion::from(v.num.as_str());
                out.push(VersionExport { version, features: v.features });
            }
        }
        assert(all.take(all.len() as int) == all);
        out
    }
}

/// Registry versions are ordered: the order flips when the arguments swap,
/// and it is transitive.
pub proof fn lemma_parts_order(a: PartsView, b: PartsView, c: PartsView)
    ensures
        parts_order(a, b) == -parts_order(b, a),
        parts_order(a, b) <= 0 && parts_order(b, c) <= 0 ==> parts_order(a, c) <= 0,
{
    lemma_opt_part_order(a.major, b.major, c.major);
    lemma_opt_part_order(a.major, c.major, b.major);
    lemma_opt_part_order(b.major, a.major, c.major);
    lemma_opt_part_order(b.major, c.major, a.major);
    lemma_opt_part_order(c.major, a.major, b.major);
    lemma_opt_part_order(c.major, b.major, a.major);
    lemma_opt_part_order(a.minor, b.minor, c.minor);
    lemma_opt_part_order(a.minor, c.minor, b.minor);
    lemma_opt_part_order(b.minor, a.minor, c.minor);
    lemma_opt_part_order(b.minor, c.minor, a.minor);
    lemma_opt_part_order(c.minor, a.minor, b.minor);
    lemma_opt_part_order(c.minor, b.minor, a.minor);
    lemma_opt_part_order(a.patch, b.patch, c.patch);
    lemma_opt_part_order(a.patch, c.patch, b.patch);
    lemma_opt_part_order(b.patch, a.patch, c.patch);
    lemma_opt_part_order(b.patch, c.patch, a.patch);
    lemma_opt_part_order(c.patch, a.patch, b.patch);
    lemma_opt_part_order(c.patch, b.patch, a.patch);
}

} // verus!
