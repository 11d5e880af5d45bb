//! What a Cargo manifest declares, with the byte ranges where it declares it:
//! dependencies, their sources and features, and the crate's features.
use std::sync::Arc;
use vstd::prelude::*;
use crate::tree::RangeExclusive;
use crate::text::{chars_of, string_from_range, find_char, find_char_in, push_str, append_chars, join_chars, join_with, views_of, string_from};

verus! {

/// A value and the byte offsets of its start and end.
#[derive(Debug, Clone, Copy)]
pub struct Positioned<T> {
    /// Byte offset of the start of the value
    pub start: u32,
    /// Byte offset of the end of the value
    pub end: u32,
    /// Value
    pub data: T,
}

/// Whether `offset`, cut to 32 bits, lies in `start..=end`.
pub open spec fn covers(start: u32, end: u32, offset: usize) -> bool {
    start <= (offset as u32) && (offset as u32) <= end
}

impl<T> Positioned<T> {
    pub fn new(start: u32, end: u32, data: T) -> (r: Self)
        ensures
            r.start == start,
            r.end == end,
            r.data == data,
    {
        Self { start, end, data }
    }

    /// Whether `offset` lies in the value, both ends included.
    pub fn contains(&self, offset: usize) -> (r: bool)
        ensures
            r == covers(self.start, self.end, offset),
    {
        self.start <= offset as u32 && offset as u32 <= self.end
    }

    /// Whether the value and `range` share an offset.
    pub fn overlap(&self, range: RangeExclusive) -> (r: bool)
        ensures
            r == (range.start <= self.end && range.end >= self.start),
    {
        range.start <= self.end && range.end >= self.start
    }
}

impl RangeExclusive {
    /// The range of a positioned value.
    pub fn from_positioned<T>(value: &Positioned<T>) -> (r: RangeExclusive)
        ensures
            r.start == value.start,
            r.end == value.end,
    {
        RangeExclusive { start: value.start, end: value.end }
    }
}

#[derive(Clone, Copy, Debug, PartialEq, Eq, Structural)]
pub enum DependencyKind {
    /// dependencies
    Normal,
    /// dev-dependencies
    Development,
    /// build-dependencies
    Build,
}

/// A target platform that a dependency is restricted to.
#[derive(Debug)]
pub enum Target {
    Unknown(String),
}

/// A value together with the range of the key that introduced it.
#[derive(Debug, Clone)]
pub struct WithKey {
    pub key: RangeExclusive,
    pub value: Positioned<String>,
}

impl WithKey {
    pub fn new(range: RangeExclusive, value: Positioned<String>) -> (r: Self)
        ensures
            r.key == range,
            r.value == value,
    {
        Self { key: range, value }
    }
}

/// A value that may have been written with its key (`version = "1"`) or
/// without (`dep = "1"`).
#[derive(Debug, Clone)]
pub struct OptionalKey {
    pub key: Option<RangeExclusive>,
    pub value: Positioned<String>,
}

impl OptionalKey {
    pub fn with_key(range: RangeExclusive, value: Positioned<String>) -> (r: Self)
        ensures
            r.key == Some(range),
            r.value == value,
    {
        Self { key: Some(range), value }
    }

    pub fn no_key(value: Positioned<String>) -> (r: Self)
        ensures
            r.key is None,
            r.value == value,
    {
        Self { key: None, value }
    }
}

/// Where a dependency comes from.
#[derive(Debug, Clone)]
pub enum DepSource {
    /// registry source
    Version { value: OptionalKey, registry: Option<WithKey> },
    /// Git source
    Git { url: Option<WithKey>, rev: Option<WithKey>, tag: Option<WithKey>, branch: Option<WithKey> },
    /// Local source
    Path(WithKey),
    /// Broken file
    /// for suggestions while typing the name
    Unset,
    Workspace(RangeExclusive),
}

/// The smallest range that holds both ranges.
pub open spec fn join_ranges(a: RangeExclusive, b: RangeExclusive) -> RangeExclusive {
    RangeExclusive {
        start: if a.start <= b.start { a.start } else { b.start },
        end: if a.end >= b.end { a.end } else { b.end },
    }
}

impl DepSource {
    /// The registry that a registry source names.
    pub fn registry(&self) -> (r: Option<&str>)
        ensures
            r matches Some(s) ==> self matches DepSource::Version { registry: Some(w), .. } && s@ == w.value.data@,
            r is None ==> !(self matches DepSource::Version { registry: Some(_), .. }),
    {
        match self {
            DepSource::Version { registry, .. } => match registry {
                Some(v) => Some(v.value.data.as_str()),
                None => None,
            },
            _ => None,
        }
    }

    /// The range of the version requirement with its key, or of the
    /// `workspace = true` entry.
    pub fn range(&self) -> (r: Option<RangeExclusive>)
        ensures
            r == match self {
                DepSource::Version { value, .. } => {
                    let v = RangeExclusive { start: value.value.start, end: value.value.end };
                    Some(match value.key {
                        Some(k) => join_ranges(v, k),
                        None => v,
                    })
                },
                DepSource::Workspace(w) => Some(*w),
                _ => None,
            },
    {
        match self {
            DepSource::Version { value, .. } => {
                let mut r = RangeExclusive::from_positioned(&value.value);
                if let Some(v) = value.key {
                    r = r.join(&v);
                }
                Some(r)
            },
            DepSource::Workspace(r) => Some(*r),
            _ => None,
        }
    }

    /// Whether `offset` lies in the version requirement or its key.
    pub fn contains(&self, offset: usize) -> (r: bool)
        ensures
            r == match self {
                DepSource::Version { value, .. } => covers(value.value.start, value.value.end, offset)
                    || (value.key matches Some(k) && covers(k.start, k.end, offset)),
                _ => false,
            },
    {
        match self {
            DepSource::Version { value, .. } => {
                value.value.contains(offset) || match value.key {
                    Some(v) => v.contains(offset),
                    None => false,
                }
            },
            _ => false,
        }
    }

    /// Where the version requirement ends.
    pub fn end(&self) -> (r: Option<u32>)
        ensures
            r == match self {
                DepSource::Version { value, .. } => Some(value.value.end),
                _ => None,
            },
    {
        match self {
            DepSource::Version { value, .. } => Some(value.value.end),
            _ => None,
        }
    }

    /// The version requirement.
    pub fn version(&self) -> (r: Option<&Positioned<String>>)
        ensures
            r == match self {
                DepSource::Version { value, .. } => Some(&value.value),
                _ => None,
            },
    {
        match self {
            DepSource::Version { value, .. } => Some(&value.value),
            _ => None,
        }
    }

    pub fn set_workspace(&mut self, range: RangeExclusive)
        ensures
            *final(self) == DepSource::Workspace(range),
    {
        *self = DepSource::Workspace(range)
    }

    /// Sets the version requirement, keeping the registry of a registry
    /// source.
    pub fn set_version(&mut self, key: OptionalKey)
        ensures
            *final(self) == match *old(self) {
                DepSource::Version { registry, .. } => DepSource::Version { value: key, registry },
                _ => DepSource::Version { value: key, registry: None },
            },
    {
        match self {
            DepSource::Version { value, .. } => {
                *value = key;
            },
            _ => {
                *self = DepSource::Version { value: key, registry: None }
            },
        }
    }

    /// Sets the repository, keeping the rest of a git source.
    pub fn set_git(&mut self, key: WithKey)
        ensures
            *final(self) == match *old(self) {
                DepSource::Git { rev, tag, branch, .. } => DepSource::Git { url: Some(key), rev, tag, branch },
                _ => DepSource::Git { url: Some(key), rev: None, tag: None, branch: None },
            },
    {
        match self {
            DepSource::Git { url, .. } => {
                *url = Some(key);
            },
            _ => {
                *self = DepSource::Git { url: Some(key), rev: None, tag: None, branch: None }
            },
        }
    }

    /// Sets the branch, keeping the rest of a git source.
    pub fn set_branch(&mut self, key: WithKey)
        ensures
            *final(self) == match *old(self) {
                DepSource::Git { url, rev, tag, .. } => DepSource::Git { url, rev, tag, branch: Some(key) },
                _ => DepSource::Git { url: None, rev: None, tag: None, branch: Some(key) },
            },
    {
        match self {
            DepSource::Git { branch, .. } => {
                *branch = Some(key);
            },
            _ => {
                *self = DepSource::Git { url: None, rev: None, tag: None, branch: Some(key) }
            },
        }
    }

    /// Sets the revision, keeping the rest of a git source.
    pub fn set_rev(&mut self, key: WithKey)
        ensures
            *final(self) == match *old(self) {
                DepSource::Git { url, tag, branch, .. } => DepSource::Git { url, rev: Some(key), tag, branch },
                _ => DepSource::Git { url: None, rev: Some(key), tag: None, branch: None },
            },
    {
        match self {
            DepSource::Git { rev, .. } => {
                *rev = Some(key);
            },
            _ => {
                *self = DepSource::Git { url: None, rev: Some(key), tag: None, branch: None }
            },
        }
    }

    /// Sets the tag, keeping the rest of a git source.
    pub fn set_tag(&mut self, key: WithKey)
        ensures
            *final(self) == match *old(self) {
                DepSource::Git { url, rev, branch, .. } => DepSource::Git { url, rev, tag: Some(key), branch },
                _ => DepSource::Git { url: None, rev: None, tag: Some(key), branch: None },
            },
    {
        match self {
            DepSource::Git { tag, .. } => {
                *tag = Some(key);
            },
            _ => {
                *self = DepSource::Git { url: None, rev: None, tag: Some(key), branch: None }
            },
        }
    }

    pub fn set_path(&mut self, key: WithKey)
        ensures
            *final(self) == DepSource::Path(key),
    {
        match self {
            DepSource::Path(value) => {
                *value = key;
            },
            _ => {
                *self = DepSource::Path(key);
            },
        }
    }

    /// Sets the registry, keeping the version requirement of a registry
    /// source; another source becomes a registry source with an empty
    /// requirement at offset 0.
    pub fn set_registry(&mut self, key: WithKey)
        ensures
            match *old(self) {
                DepSource::Version { value, .. } => *final(self) == DepSource::Version { value, registry: Some(key) },
                _ => *final(self) matches DepSource::Version { value, registry } && registry == Some(key)
                    && value.key is None && value.value.start == 0 && value.value.end == 0
                    && value.value.data@ == Seq::<char>::empty(),
            },
    {
        match self {
            DepSource::Version { registry, .. } => {
                *registry = Some(key);
            },
            _ => {
                *self = DepSource::Version {
                    value: OptionalKey { key: None, value: Positioned { start: 0, end: 0, data: String::new() } },
                    registry: Some(key),
                }
            },
        }
    }
}

/// A dependency of the manifest.
#[derive(Debug, Clone)]
pub struct Dependency {
    /// Name of the dependency
    pub name: Positioned<String>,
    /// Dev dependency or normal dependency
    pub kind: DependencyKind,
    /// Source of the dependency
    pub source: DepSource,
    /// Enable features for this dependency
    pub features: Positioned<Vec<Positioned<String>>>,
    pub features_key_range: Option<RangeExclusive>,
    pub default_features: Option<Positioned<bool>>,
    /// Keys that are being typed
    pub typing_keys: Vec<Positioned<String>>,
    /// Is optional dependency
    pub optional: Option<Positioned<bool>>,
    pub expanded: bool,
    /// Target platforms for this dependency
    /// if empty = all platforms
    pub target: Arc<Vec<Positioned<Target>>>,
}

/// A feature of the manifest.
#[derive(Debug)]
pub struct Feature {
    /// feature-name =
    pub name: Positioned<String>,
    /// = [...]
    pub args: Vec<FeatureArgKind>,
}

/// One entry of a feature's list.
#[derive(Debug)]
pub enum FeatureArgKind {
    /// "feautre-name"
    CrateFeature(Positioned<String>),
    /// "crate/feature-name"
    DependencyFeature { dependency: Positioned<String>, feature: Positioned<String> },
    /// "dep:crate"
    Dependency(Positioned<String>),
}

/// `dep:`, the prefix that names an optional dependency in a feature list.
pub open spec fn dep_prefix() -> Seq<char> {
    seq!['d', 'e', 'p', ':']
}

/// The number of bytes that the UTF-8 encoding of `s` takes.
pub open spec fn utf8_len(s: Seq<char>) -> nat {
    vstd::utf8::encode_utf8(s).len()
}

/// Whether an entry of a feature list that is split at `/` keeps its
/// offsets within `u32`.
pub open spec fn feature_arg_fits(value: Positioned<String>) -> bool {
    has_dep_prefix(value.data@) || match find_char(value.data@, '/') {
        Some(i) => value.start + utf8_len(value.data@.take(i)) <= u32::MAX,
        None => true,
    }
}

pub open spec fn has_dep_prefix(s: Seq<char>) -> bool {
    s.len() >= 4 && s.take(4) == dep_prefix()
}

impl FeatureArgKind {
    /// Reads an entry of a feature list: `dep:name` names an optional
    /// dependency, `crate/feature` a feature of a dependency (split at the
    /// first `/`, offsets counted in bytes), anything else a feature of this
    /// crate.
    pub fn from(value: Positioned<String>) -> (r: FeatureArgKind)
        requires
            feature_arg_fits(value),
        ensures
            has_dep_prefix(value.data@) ==> (r matches FeatureArgKind::Dependency(p)
                && p.start == value.start && p.end == value.end && p.data@ == value.data@.skip(4)),
            !has_dep_prefix(value.data@) ==> match find_char(value.data@, '/') {
                Some(i) => r matches FeatureArgKind::DependencyFeature { dependency, feature }
                    && dependency.data@ == value.data@.take(i) && feature.data@ == value.data@.skip(i + 1)
                    && dependency.start == value.start
                    && dependency.end == value.start + utf8_len(value.data@.take(i))
                    && feature.start == dependency.end && feature.end == value.end,
                None => r == FeatureArgKind::CrateFeature(value),
            },
    {
        let cs = chars_of(value.data.as_str());
        let n = cs.len();
        if n >= 4 && cs[0] == 'd' && cs[1] == 'e' && cs[2] == 'p' && cs[3] == ':' {
            assert(cs@.take(4) =~= dep_prefix());
            let name = string_from_range(&cs, 4, n);
            assert(cs@.subrange(4, n as int) == cs@.skip(4));
            return FeatureArgKind::Dependency(Positioned { start: value.start, end: value.end, data: name });
        }
        assert(!has_dep_prefix(value.data@)) by {
            if has_dep_prefix(value.data@) {
                assert(cs@[0] == value.data@.take(4)[0]);
                assert(cs@[1] == value.data@.take(4)[1]);
                assert(cs@[2] == value.data@.take(4)[2]);
                assert(cs@[3] == value.data@.take(4)[3]);
            }
        }
        assert(cs@.subrange(0, n as int) == cs@);
        match find_char_in(&cs, 0, n, '/') {
            Some(i) => {
                let crate_name = string_from_range(&cs, 0, i);
                let feature_name = string_from_range(&cs, i + 1, n);
                assert(cs@.take(i as int) == cs@.subrange(0, i as int));
                assert(cs@.skip(i + 1) == cs@.subrange(i + 1, n as int));
                let len = crate_name.as_str().len();
                assert(len == utf8_len(crate_name@));
                let mid = value.start + len as u32;
                FeatureArgKind::DependencyFeature {
                    dependency: Positioned { start: value.start, end: mid, data: crate_name },
                    feature: Positioned { start: mid, end: value.end, data: feature_name },
                }
            },
            None => FeatureArgKind::CrateFeature(value),
        }
    }

    /// The range that the entry covers.
    pub fn range(&self) -> (r: RangeExclusive)
        ensures
            r == match self {
                FeatureArgKind::CrateFeature(v) => RangeExclusive { start: v.start, end: v.end },
                FeatureArgKind::DependencyFeature { dependency, feature } => RangeExclusive {
                    start: dependency.start,
                    end: feature.end,
                },
                FeatureArgKind::Dependency(v) => RangeExclusive { start: v.start, end: v.end },
            },
    {
        match self {
            FeatureArgKind::CrateFeature(v) => RangeExclusive { start: v.start, end: v.end },
            FeatureArgKind::DependencyFeature { dependency, feature } => RangeExclusive {
                start: dependency.start,
                end: feature.end,
            },
            FeatureArgKind::Dependency(v) => RangeExclusive { start: v.start, end: v.end },
        }
    }
}

/// What a manifest declares.
#[derive(Debug)]
pub struct Toml {
    pub workspace: bool,
    pub children: Vec<String>,
    pub dependencies: Vec<Positioned<Dependency>>,
    pub features: Vec<Positioned<Feature>>,
}

impl Toml {
    /// Both declarations together: a workspace if either is, and the lists of
    /// `self` followed by those of `other`.
    pub fn join(self, other: Self) -> (r: Self)
        ensures
            r.workspace == (self.workspace || other.workspace),
            r.children@ == self.children@ + other.children@,
            r.dependencies@ == self.dependencies@ + other.dependencies@,
            r.features@ == self.features@ + other.features@,
    {
        let mut children = self.children;
        let mut oc = other.children;
        children.append(&mut oc);
        let mut dependencies = self.dependencies;
        let mut od = other.dependencies;
        dependencies.append(&mut od);
        let mut features = self.features;
        let mut of = other.features;
        features.append(&mut of);
        Self { workspace: self.workspace || other.workspace, children, dependencies, features }
    }
}

/// `s` between double quotes.
pub open spec fn quoted(s: Seq<char>) -> Seq<char> {
    seq!['"'] + s + seq!['"']
}

/// The text of an optional keyed value, empty when it is missing.
pub open spec fn key_text(v: Option<WithKey>) -> Seq<char> {
    match v {
        Some(w) => w.value.data@,
        None => seq![],
    }
}

/// How a source is written inside an inline table.
pub open spec fn source_text(s: DepSource) -> Seq<char> {
    match s {
        DepSource::Version { value, registry } => match registry {
            Some(r) => "version = "@ + quoted(value.value.data@) + ", registry = "@ + quoted(r.value.data@),
            None => "version = "@ + quoted(value.value.data@),
        },
        DepSource::Git { url, rev, tag, branch } => match (rev, tag, branch) {
            (Some(rev), None, None) => "git = "@ + quoted(key_text(url)) + ", rev = "@ + quoted(rev.value.data@),
            (None, Some(tag), None) => "git = "@ + quoted(key_text(url)) + ", tag = "@ + quoted(tag.value.data@),
            (None, None, Some(branch)) => "git = "@ + quoted(key_text(url)) + ", branch = "@ + quoted(
                branch.value.data@,
            ),
            _ => "git = "@ + quoted(key_text(url)),
        },
        DepSource::Path(p) => "path = "@ + quoted(p.value.data@),
        DepSource::Unset => "version = "@ + quoted(seq![]),
        DepSource::Workspace(_) => "workspace = true"@,
    }
}

fn push_quoted(out: &mut Vec<char>, s: &str)
    ensures
        final(out)@ == old(out)@ + quoted(s@),
{
    out.push('"');
    push_str(out, s);
    out.push('"');
}

fn push_key_quoted(out: &mut Vec<char>, v: &Option<WithKey>)
    ensures
        final(out)@ == old(out)@ + quoted(key_text(*v)),
{
    out.push('"');
    if let Some(w) = v {
        push_str(out, w.value.data.as_str());
    }
    out.push('"');
}

impl DepSource {
    /// Writes the source as the entries of an inline table, such as
    /// `git = "url", tag = "v1"`.
    pub fn to_string(&self) -> (r: String)
        ensures
            r@ == source_text(*self),
    {
        let mut out: Vec<char> = Vec::new();
        match self {
            DepSource::Version { value, registry } => {
                push_str(&mut out, "version = ");
                push_quoted(&mut out, value.value.data.as_str());
                if let Some(r) = registry {
                    push_str(&mut out, ", registry = ");
                    push_quoted(&mut out, r.value.data.as_str());
                }
            },
            DepSource::Git { url, rev, tag, branch } => {
                push_str(&mut out, "git = ");
                push_key_quoted(&mut out, url);
                match (rev, tag, branch) {
                    (Some(rev), None, None) => {
                        push_str(&mut out, ", rev = ");
                        push_quoted(&mut out, rev.value.data.as_str());
                    },
                    (None, Some(tag), None) => {
                        push_str(&mut out, ", tag = ");
                        push_quoted(&mut out, tag.value.data.as_str());
                    },
                    (None, None, Some(branch)) => {
                        push_str(&mut out, ", branch = ");
                        push_quoted(&mut out, branch.value.data.as_str());
                    },
                    _ => {},
                }
            },
            DepSource::Path(p) => {
                push_str(&mut out, "path = ");
                push_quoted(&mut out, p.value.data.as_str());
            },
            DepSource::Unset => {
                push_str(&mut out, "version = ");
                out.push('"');
                out.push('"');
            },
            DepSource::Workspace(_) => {
                push_str(&mut out, "workspace = true");
            },
        }
        assert(out@ =~= source_text(*self));
        string_from(&out)
    }
}

/// The names of the requested features.
pub open spec fn feature_names(fs: Seq<Positioned<String>>) -> Seq<Seq<char>> {
    fs.map_values(|f: Positioned<String>| f.data@)
}

/// The entries that an expanded dependency is written with.
pub open spec fn entries_text(d: Dependency) -> Seq<Seq<char>> {
    let a = seq![source_text(d.source)];
    let b = if d.optional matches Some(o) && o.data { a.push("optional = true"@) } else { a };
    let c = match d.default_features {
        Some(v) => b.push("default-features = "@ + if v.data { "true"@ } else { "false"@ }),
        None => b,
    };
    if d.features.data@.len() > 0 {
        c.push("features = [ "@ + join_with(feature_names(d.features.data@), ", "@) + " ]"@)
    } else {
        c
    }
}

/// How a dependency is written as a line of the manifest.
pub open spec fn dependency_text(d: Dependency) -> Seq<char> {
    if (d.optional matches Some(o) && o.data) || d.expanded {
        d.name.data@ + " = { "@ + join_with(entries_text(d), ", "@) + " }"@
    } else {
        match d.source {
            DepSource::Version { value, .. } => d.name.data@ + " = "@ + quoted(value.value.data@),
            DepSource::Git { url, .. } => d.name.data@ + ".git = "@ + quoted(key_text(url)),
            DepSource::Path(p) => d.name.data@ + ".path = "@ + quoted(p.value.data@),
            DepSource::Unset => d.name.data@,
            DepSource::Workspace(_) => d.name.data@ + ".workspace = true"@,
        }
    }
}

fn chars_of_string(s: &String) -> (r: Vec<char>)
    ensures
        r@ == s@,
{
    chars_of(s.as_str())
}

impl Dependency {
    fn entries(&self) -> (r: Vec<Vec<char>>)
        ensures
            views_of(r@) == entries_text(*self),
    {
        let mut items: Vec<Vec<char>> = Vec::new();
        let src = self.source.to_string();
        items.push(chars_of_string(&src));
        let ghost a = views_of(items@);
        assert(a == seq![source_text(self.source)]);
        if let Some(v) = self.optional {
            if v.data {
                items.push(chars_of("optional = true"));
                assert(views_of(items@) == a.push("optional = true"@));
            }
        }
        let ghost b = views_of(items@);
        if let Some(v) = self.default_features {
            let mut e: Vec<char> = Vec::new();
            push_str(&mut e, "default-features = ");
            if v.data {
                push_str(&mut e, "true");
            } else {
                push_str(&mut e, "false");
            }
            items.push(e);
            assert(views_of(items@) == b.push("default-features = "@ + if v.data { "true"@ } else { "false"@ }));
        }
        let ghost c = views_of(items@);
        if self.features.data.len() > 0 {
            let mut names: Vec<Vec<char>> = Vec::new();
            let mut i: usize = 0;
            while i < self.features.data.len()
                invariant
                    i <= self.features.data@.len(),
                    views_of(names@) == feature_names(self.features.data@).take(i as int),
                decreases self.features.data.len() - i,
            {
                let ghost before = names@;
                let f = chars_of_string(&self.features.data[i].data);
                names.push(f);
                assert(names@ == before.push(f));
                assert(views_of(names@) =~= views_of(before).push(f@));
                assert(feature_names(self.features.data@).take(i + 1) =~= feature_names(self.features.data@).take(
                    i as int,
                ).push(self.features.data@[i as int].data@));
                i = i + 1;
            }
            assert(feature_names(self.features.data@).take(self.features.data@.len() as int) == feature_names(
                self.features.data@,
            ));
            let mut e: Vec<char> = Vec::new();
            push_str(&mut e, "features = [ ");
            let sep = chars_of(", ");
            let joined = join_chars(&names, &sep);
            append_chars(&mut e, &joined);
            push_str(&mut e, " ]");
            items.push(e);
            assert(views_of(items@) == c.push(
                "features = [ "@ + join_with(feature_names(self.features.data@), ", "@) + " ]"@,
            ));
        }
        items
    }

    /// Writes the dependency as a line of the manifest: as an inline table
    /// when it is optional or expanded, else in the short form of its source.
    pub fn to_string(&self) -> (r: String)
        ensures
            r@ == dependency_text(*self),
    {
        let mut out: Vec<char> = Vec::new();
        let opt = match self.optional {
            Some(o) => o.data,
            None => false,
        };
        push_str(&mut out, self.name.data.as_str());
        if opt || self.expanded {
            push_str(&mut out, " = { ");
            let items = self.entries();
            let sep = chars_of(", ");
            let joined = join_chars(&items, &sep);
            append_chars(&mut out, &joined);
            push_str(&mut out, " }");
        } else {
            match &self.source {
                DepSource::Version { value, .. } => {
                    push_str(&mut out, " = ");
                    push_quoted(&mut out, value.value.data.as_str());
                },
                DepSource::Git { url, .. } => {
                    push_str(&mut out, ".git = ");
                    push_key_quoted(&mut out, url);
                },
                DepSource::Path(p) => {
                    push_str(&mut out, ".path = ");
                    push_quoted(&mut out, p.value.data.as_str());
                },
                DepSource::Unset => {},
                DepSource::Workspace(_) => {
                    push_str(&mut out, ".workspace = true");
                },
            }
        }
        assert(out@ =~= dependency_text(*self));
        string_from(&out)
    }
}

/// A text and its byte range.
pub struct PosText {
    pub start: u32,
    pub end: u32,
    pub text: Seq<char>,
}

pub open spec fn pos_text(p: Positioned<String>) -> PosText {
    PosText { start: p.start, end: p.end, text: p.data@ }
}

pub open spec fn pos_texts(ps: Seq<Positioned<String>>) -> Seq<PosText> {
    ps.map_values(|p: Positioned<String>| pos_text(p))
}

pub struct KeyedView {
    pub key: RangeExclusive,
    pub value: PosText,
}

pub open spec fn keyed(w: WithKey) -> KeyedView {
    KeyedView { key: w.key, value: pos_text(w.value) }
}

pub open spec fn opt_keyed(w: Option<WithKey>) -> Option<KeyedView> {
    match w {
        Some(v) => Some(keyed(v)),
        None => None,
    }
}

pub struct OptKeyView {
    pub key: Option<RangeExclusive>,
    pub value: PosText,
}

/// The mathematical value of a [`DepSource`].
pub enum SourceView {
    Version { value: OptKeyView, registry: Option<KeyedView> },
    Git { url: Option<KeyedView>, rev: Option<KeyedView>, tag: Option<KeyedView>, branch: Option<KeyedView> },
    Path(KeyedView),
    Unset,
    Workspace(RangeExclusive),
}

impl View for DepSource {
    type V = SourceView;

    open spec fn view(&self) -> SourceView {
        match self {
            DepSource::Version { value, registry } => SourceView::Version {
                value: OptKeyView { key: value.key, value: pos_text(value.value) },
                registry: opt_keyed(*registry),
            },
            DepSource::Git { url, rev, tag, branch } => SourceView::Git {
                url: opt_keyed(*url),
                rev: opt_keyed(*rev),
                tag: opt_keyed(*tag),
                branch: opt_keyed(*branch),
            },
            DepSource::Path(p) => SourceView::Path(keyed(*p)),
            DepSource::Unset => SourceView::Unset,
            DepSource::Workspace(r) => SourceView::Workspace(*r),
        }
    }
}

/// The mathematical value of a [`Dependency`], its target list aside.
pub struct DependencyView {
    pub name: PosText,
    pub kind: DependencyKind,
    pub source: SourceView,
    pub features_start: u32,
    pub features_end: u32,
    pub features: Seq<PosText>,
    pub features_key_range: Option<RangeExclusive>,
    pub default_features: Option<Positioned<bool>>,
    pub typing_keys: Seq<PosText>,
    pub optional: Option<Positioned<bool>>,
    pub expanded: bool,
    pub targets: Seq<PosText>,
}

/// A target platform at its range.
pub open spec fn target_text(p: Positioned<Target>) -> PosText {
    match p.data {
        Target::Unknown(s) => PosText { start: p.start, end: p.end, text: s@ },
    }
}

pub open spec fn target_texts(ps: Seq<Positioned<Target>>) -> Seq<PosText> {
    ps.map_values(|p: Positioned<Target>| target_text(p))
}

impl View for Dependency {
    type V = DependencyView;

    open spec fn view(&self) -> DependencyView {
        DependencyView {
            name: pos_text(self.name),
            kind: self.kind,
            source: self.source@,
            features_start: self.features.start,
            features_end: self.features.end,
            features: pos_texts(self.features.data@),
            features_key_range: self.features_key_range,
            default_features: self.default_features,
            typing_keys: pos_texts(self.typing_keys@),
            optional: self.optional,
            expanded: self.expanded,
            targets: target_texts(self.target@),
        }
    }
}

/// The mathematical value of a [`FeatureArgKind`].
pub enum ArgView {
    CrateFeature(PosText),
    DependencyFeature { dependency: PosText, feature: PosText },
    Dependency(PosText),
}

impl View for FeatureArgKind {
    type V = ArgView;

    open spec fn view(&self) -> ArgView {
        match self {
            FeatureArgKind::CrateFeature(p) => ArgView::CrateFeature(pos_text(*p)),
            FeatureArgKind::DependencyFeature { dependency, feature } => ArgView::DependencyFeature {
                dependency: pos_text(*dependency),
                feature: pos_text(*feature),
            },
            FeatureArgKind::Dependency(p) => ArgView::Dependency(pos_text(*p)),
        }
    }
}

/// How an entry of a feature list reads (see [`FeatureArgKind::from`]).
pub open spec fn arg_of(p: PosText) -> ArgView {
    if has_dep_prefix(p.text) {
        ArgView::Dependency(PosText { text: p.text.skip(4), ..p })
    } else {
        match find_char(p.text, '/') {
            Some(i) => {
                let mid = (p.start + utf8_len(p.text.take(i))) as u32;
                ArgView::DependencyFeature {
                    dependency: PosText { start: p.start, end: mid, text: p.text.take(i) },
                    feature: PosText { start: mid, end: p.end, text: p.text.skip(i + 1) },
                }
            },
            None => ArgView::CrateFeature(p),
        }
    }
}

/// The range that an entry of a feature list covers.
pub open spec fn arg_range(a: ArgView) -> RangeExclusive {
    match a {
        ArgView::CrateFeature(v) => RangeExclusive { start: v.start, end: v.end },
        ArgView::DependencyFeature { dependency, feature } => RangeExclusive { start: dependency.start, end: feature.end },
        ArgView::Dependency(v) => RangeExclusive { start: v.start, end: v.end },
    }
}

/// Whether an entry of a feature list at `p` keeps its offsets within `u32`.
pub open spec fn arg_fits(p: PosText) -> bool {
    has_dep_prefix(p.text) || match find_char(p.text, '/') {
        Some(i) => p.start + utf8_len(p.text.take(i)) <= u32::MAX,
        None => true,
    }
}

pub open spec fn arg_views(args: Seq<FeatureArgKind>) -> Seq<ArgView> {
    args.map_values(|a: FeatureArgKind| a@)
}

/// The mathematical value of a [`Feature`].
pub struct FeatureView {
    pub name: PosText,
    pub args: Seq<ArgView>,
}

impl View for Feature {
    type V = FeatureView;

    open spec fn view(&self) -> FeatureView {
        FeatureView { name: pos_text(self.name), args: arg_views(self.args@) }
    }
}

/// A feature entry split as `arg_of` describes it reads back as
/// `arg_of` of its text.
pub proof fn lemma_arg_of(value: Positioned<String>, r: FeatureArgKind)
    requires
        has_dep_prefix(value.data@) ==> (r matches FeatureArgKind::Dependency(p)
            && p.start == value.start && p.end == value.end && p.data@ == value.data@.skip(4)),
        !has_dep_prefix(value.data@) ==> match find_char(value.data@, '/') {
            Some(i) => r matches FeatureArgKind::DependencyFeature { dependency, feature }
                && dependency.data@ == value.data@.take(i) && feature.data@ == value.data@.skip(i + 1)
                && dependency.start == value.start
                && dependency.end == value.start + utf8_len(value.data@.take(i))
                && feature.start == dependency.end && feature.end == value.end,
            None => r == FeatureArgKind::CrateFeature(value),
        },
    ensures
        r@ == arg_of(pos_text(value)),
{
}

} // verus!
