//! The editor's model of a manifest: dependencies and features with the byte
//! ranges where they are written, without workspace information.
use std::sync::Arc;
use vstd::prelude::*;
use crate::raw::RangeExclusive;
use crate::text::{chars_of, string_from_range, find_char_in, find_char};
use crate::toml::{has_dep_prefix, dep_prefix, utf8_len};

verus! {

/// Every dependency and feature of a manifest.
#[derive(Debug)]
pub struct PositionedInfo {
    /// Every dependency in the Cargo.toml file
    pub dependencies: Vec<Positioned<Dependency>>,
    /// Every feature in the Cargo.toml file
    pub features: Vec<Positioned<Feature>>,
}

impl PositionedInfo {
    /// No dependencies and no features.
    pub fn default() -> (r: Self)
        ensures
            r.dependencies@.len() == 0,
            r.features@.len() == 0,
    {
        PositionedInfo { dependencies: Vec::new(), features: Vec::new() }
    }
}

/// Byte offset of start and end of a value
#[derive(Debug, Clone, Copy)]
pub struct Positioned<T> {
    /// Byte offset of the start of the value
    pub start: u32,
    /// Byte offset of the end of the value
    pub end: u32,
    /// Value
    pub data: T,
}

impl<T> Positioned<T> {
    /// Whether `pos` lies in the value, both ends included.
    pub fn contains_inclusive(&self, pos: u32) -> (r: bool)
        ensures
            r == (self.start <= pos && pos <= self.end),
    {
        self.start <= pos && pos <= self.end
    }

    /// Whether the value and `min..=max` share an offset.
    pub fn is_in_range(&self, min: u32, max: u32) -> (r: bool)
        ensures
            r == (self.start <= max && min <= self.end),
    {
        self.start <= max && min <= self.end
    }
}

/// A dependency in the Cargo.toml file
#[derive(Debug)]
pub struct Dependency {
    /// Name of the dependency
    pub name: Positioned<String>,
    /// Dev dependency or normal dependency
    pub kind: DependencyKind,
    /// Source of the dependency
    pub source: Source,
    /// Enable features for this dependency
    pub features: Vec<Positioned<String>>,
    pub features_key_range: Option<RangeExclusive>,
    pub default_features: Option<Positioned<bool>>,
    /// Keys that are being typed
    pub typing_keys: Vec<Positioned<String>>,
    /// Is optional dependency
    pub optional: Option<Positioned<bool>>,
    /// Target platforms for this dependency
    /// if empty = all platforms
    pub target: Arc<Vec<Positioned<Target>>>,
}

/// A text found under an offset: one of the dependency's own, or one made
/// for the key that was hit.
pub enum FoundText<'a> {
    Borrowed(&'a Positioned<String>),
    Owned(Positioned<String>),
}

/// The first text of `fs` that holds `pos`.
pub open spec fn first_holding(fs: Seq<Positioned<String>>, pos: u32) -> Option<int>
    decreases fs.len(),
{
    if fs.len() == 0 {
        None
    } else if fs[0].start <= pos && pos <= fs[0].end {
        Some(0)
    } else {
        match first_holding(fs.drop_first(), pos) {
            Some(i) => Some(i + 1),
            None => None,
        }
    }
}

fn find_holding(fs: &Vec<Positioned<String>>, pos: u32) -> (r: Option<usize>)
    ensures
        match r {
            Some(i) => first_holding(fs@, pos) == Some(i as int) && i < fs@.len(),
            None => first_holding(fs@, pos) is None,
        },
{
    let mut i: usize = 0;
    assert(fs@.skip(0) == fs@);
    while i < fs.len()
        invariant
            i <= fs@.len(),
            first_holding(fs@, pos) == match first_holding(fs@.skip(i as int), pos) {
                Some(j) => Some(j + i),
                None => None::<int>,
            },
        decreases fs.len() - i,
    {
        assert(fs@.skip(i as int).drop_first() == fs@.skip(i + 1));
        if fs[i].contains_inclusive(pos) {
            return Some(i);
        }
        i = i + 1;
    }
    None
}

impl Dependency {
    /// What is under `byte_offset` among the features: the `features` key
    /// (as an empty text over its range), or the first requested feature
    /// that holds it.
    pub fn get_feature<'a>(&'a self, byte_offset: u32) -> (r: Option<FoundText<'a>>)
        ensures
            match self.features_key_range {
                Some(k) if k.start <= byte_offset && byte_offset <= k.end => r matches Some(FoundText::Owned(p))
                    && p.start == k.start && p.end == k.end && p.data@.len() == 0,
                _ => match first_holding(self.features@, byte_offset) {
                    Some(i) => r == Some(FoundText::Borrowed(&self.features@[i])),
                    None => r is None,
                },
            },
    {
        if let Some(features_key_range) = &self.features_key_range {
            if features_key_range.contains_inclusive(byte_offset) {
                return Some(
                    FoundText::Owned(
                        Positioned { start: features_key_range.start, end: features_key_range.end, data: String::new() },
                    ),
                );
            }
        }
        match find_holding(&self.features, byte_offset) {
            Some(i) => Some(FoundText::Borrowed(&self.features[i])),
            None => None,
        }
    }

    /// What is under `byte_offset` in the version requirement: the
    /// `version` key (as the text `version` over its range), or the
    /// requirement itself.
    pub fn get_version<'a>(&'a self, byte_offset: u32) -> (r: Option<FoundText<'a>>)
        ensures
            match self.source {
                Source::Version { value, .. } => match value.key {
                    Some(k) if k.start <= byte_offset && byte_offset <= k.end => r matches Some(FoundText::Owned(p))
                        && p.start == k.start && p.end == k.end && p.data@ == "version"@,
                    _ => if value.value.start <= byte_offset && byte_offset <= value.value.end {
                        r == Some(FoundText::Borrowed(&value.value))
                    } else {
                        r is None
                    },
                },
                _ => r is None,
            },
    {
        match &self.source {
            Source::Version { value, .. } => {
                if let Some(range) = value.key {
                    if range.contains_inclusive(byte_offset) {
                        return Some(
                            FoundText::Owned(
                                Positioned { start: range.start, end: range.end, data: crate::text::owned("version") },
                            ),
                        );
                    }
                }
                if value.value.contains_inclusive(byte_offset) {
                    Some(FoundText::Borrowed(&value.value))
                } else {
                    None
                }
            },
            _ => None,
        }
    }
}

/// A target platform that a dependency is restricted to.
#[derive(Debug)]
pub enum Target {
    Unknown(String),
}

/// Where a dependency comes from.
#[derive(Debug)]
pub enum Source {
    /// registry source
    Version { value: OptionalKey, registry: Option<WithKey> },
    /// Git source
    Git { url: Option<WithKey>, rev: Option<WithKey>, tag: Option<WithKey>, branch: Option<WithKey> },
    /// Local source
    Path(WithKey),
    /// Broken file
    /// for suggestions while typing the name
    Unset,
}

impl Source {
    /// Where the version requirement ends.
    pub fn end(&self) -> (r: Option<u32>)
        ensures
            r == match self {
                Source::Version { value, .. } => Some(value.value.end),
                _ => None,
            },
    {
        match self {
            Source::Version { value, .. } => Some(value.value.end),
            _ => None,
        }
    }

    /// The version requirement.
    pub fn version(&self) -> (r: Option<&Positioned<String>>)
        ensures
            r == match self {
                Source::Version { value, .. } => Some(&value.value),
                _ => None,
            },
    {
        match self {
            Source::Version { value, .. } => Some(&value.value),
            _ => None,
        }
    }

    /// Sets the version requirement, keeping the registry of a registry
    /// source.
    pub fn set_version(&mut self, key: OptionalKey)
        ensures
            *final(self) == match *old(self) {
                Source::Version { registry, .. } => Source::Version { value: key, registry },
                _ => Source::Version { value: key, registry: None },
            },
    {
        match self {
            Source::Version { value, .. } => {
                *value = key;
            },
            _ => {
                *self = Source::Version { value: key, registry: None }
            },
        }
    }

    /// Sets the repository, keeping the rest of a git source.
    pub fn set_git(&mut self, key: WithKey)
        ensures
            *final(self) == match *old(self) {
                Source::Git { rev, tag, branch, .. } => Source::Git { url: Some(key), rev, tag, branch },
                _ => Source::Git { url: Some(key), rev: None, tag: None, branch: None },
            },
    {
        match self {
            Source::Git { url, .. } => {
                *url = Some(key);
            },
            _ => {
                *self = Source::Git { url: Some(key), rev: None, tag: None, branch: None }
            },
        }
    }

    /// Sets the branch, keeping the rest of a git source.
    pub fn set_branch(&mut self, key: WithKey)
        ensures
            *final(self) == match *old(self) {
                Source::Git { url, rev, tag, .. } => Source::Git { url, rev, tag, branch: Some(key) },
                _ => Source::Git { url: None, rev: None, tag: None, branch: Some(key) },
            },
    {
        match self {
            Source::Git { branch, .. } => {
                *branch = Some(key);
            },
            _ => {
                *self = Source::Git { url: None, rev: None, tag: None, branch: Some(key) }
            },
        }
    }

    /// Sets the revision, keeping the rest of a git source.
    pub fn set_rev(&mut self, key: WithKey)
        ensures
            *final(self) == match *old(self) {
                Source::Git { url, tag, branch, .. } => Source::Git { url, rev: Some(key), tag, branch },
                _ => Source::Git { url: None, rev: Some(key), tag: None, branch: None },
            },
    {
        match self {
            Source::Git { rev, .. } => {
                *rev = Some(key);
            },
            _ => {
                *self = Source::Git { url: None, rev: Some(key), tag: None, branch: None }
            },
        }
    }

    /// Sets the tag, keeping the rest of a git source.
    pub fn set_tag(&mut self, key: WithKey)
        ensures
            *final(self) == match *old(self) {
                Source::Git { url, rev, branch, .. } => Source::Git { url, rev, tag: Some(key), branch },
                _ => Source::Git { url: None, rev: None, tag: Some(key), branch: None },
            },
    {
        match self {
            Source::Git { tag, .. } => {
                *tag = Some(key);
            },
            _ => {
                *self = Source::Git { url: None, rev: None, tag: Some(key), branch: None }
            },
        }
    }

    pub fn set_path(&mut self, key: WithKey)
        ensures
            *final(self) == Source::Path(key),
    {
        match self {
            Source::Path(value) => {
                *value = key;
            },
            _ => {
                *self = Source::Path(key);
            },
        }
    }

    /// Sets the registry, keeping the version requirement of a registry
    /// source; another source becomes a registry source with an empty
    /// requirement at offset 0.
    pub fn set_registry(&mut self, key: WithKey)
        ensures
            match *old(self) {
                Source::Version { value, .. } => *final(self) == Source::Version { value, registry: Some(key) },
                _ => *final(self) matches Source::Version { value, registry } && registry == Some(key)
                    && value.key is None && value.value.start == 0 && value.value.end == 0
                    && value.value.data@ == Seq::<char>::empty(),
            },
    {
        match self {
            Source::Version { registry, .. } => {
                *registry = Some(key);
            },
            _ => {
                *self = Source::Version {
                    value: OptionalKey { key: None, value: Positioned { start: 0, end: 0, data: String::new() } },
                    registry: Some(key),
                }
            },
        }
    }
}

/// A value together with the range of the key that introduced it.
#[derive(Debug)]
pub struct WithKey {
    pub key: RangeExclusive,
    pub value: Positioned<String>,
}

impl WithKey {
    pub fn new(range: RangeExclusive, value: Positioned<String>) -> (r: Self)
        ensures
            r.key == range,
            r.value == value,
    {
        Self { key: range, value }
    }
}

/// A value that may have been written with its key or without.
#[derive(Debug)]
pub struct OptionalKey {
    pub key: Option<RangeExclusive>,
    pub value: Positioned<String>,
}

impl OptionalKey {
    pub fn with_key(range: RangeExclusive, value: Positioned<String>) -> (r: Self)
        ensures
            r.key == Some(range),
            r.value == value,
    {
        Self { key: Some(range), value }
    }

    pub fn no_key(value: Positioned<String>) -> (r: Self)
        ensures
            r.key is None,
            r.value == value,
    {
        Self { key: None, value }
    }
}

#[derive(Clone, Copy, Debug, PartialEq, Eq, Structural)]
pub enum DependencyKind {
    /// dependencies
    Normal,
    /// dev-dependencies
    Development,
    /// build-dependencies
    Build,
}

/// A feature of the manifest.
#[derive(Debug)]
pub struct Feature {
    /// feature-name =
    pub name: Positioned<String>,
    /// = [...]
    pub args: Vec<FeatureArgKind>,
}

/// One entry of a feature's list.
#[derive(Debug)]
pub enum FeatureArgKind {
    /// "feautre-name"
    CrateFeature(Positioned<String>),
    /// "crate/feature-name"
    DependencyFeature { dependency: Positioned<String>, feature: Positioned<String> },
    /// "dep:crate"
    Dependency(Positioned<String>),
}

/// Whether an entry of a feature list keeps its offsets within `u32`.
pub open spec fn entry_fits(value: Positioned<String>) -> bool {
    has_dep_prefix(value.data@) || match find_char(value.data@, '/') {
        Some(i) => value.start + utf8_len(value.data@.take(i)) <= u32::MAX,
        None => true,
    }
}

impl FeatureArgKind {
    /// Reads an entry of a feature list: `dep:name` names an optional
    /// dependency, `crate/feature` a feature of a dependency (split at the
    /// first `/`, offsets counted in bytes), anything else a feature of this
    /// crate.
    pub fn from(value: Positioned<String>) -> (r: FeatureArgKind)
        requires
            entry_fits(value),
        ensures
            has_dep_prefix(value.data@) ==> (r matches FeatureArgKind::Dependency(p)
                && p.start == value.start && p.end == value.end && p.data@ == value.data@.skip(4)),
            !has_dep_prefix(value.data@) ==> match find_char(value.data@, '/') {
                Some(i) => r matches FeatureArgKind::DependencyFeature { dependency, feature }
                    && dependency.data@ == value.data@.take(i) && feature.data@ == value.data@.skip(i + 1)
                    && dependency.start == value.start
                    && dependency.end == value.start + utf8_len(value.data@.take(i))
                    && feature.start == dependency.end && feature.end == value.end,
                None => r == FeatureArgKind::CrateFeature(value),
            },
    {
        let cs = chars_of(value.data.as_str());
        let n = cs.len();
        if n >= 4 && cs[0] == 'd' && cs[1] == 'e' && cs[2] == 'p' && cs[3] == ':' {
            assert(cs@.take(4) =~= dep_prefix());
            let name = string_from_range(&cs, 4, n);
            assert(cs@.subrange(4, n as int) == cs@.skip(4));
            return FeatureArgKind::Dependency(Positioned { start: value.start, end: value.end, data: name });
        }
        assert(!has_dep_prefix(value.data@)) by {
            if has_dep_prefix(value.data@) {
                assert(cs@[0] == value.data@.take(4)[0]);
                assert(cs@[1] == value.data@.take(4)[1]);
                assert(cs@[2] == value.data@.take(4)[2]);
                assert(cs@[3] == value.data@.take(4)[3]);
            }
        }
        assert(cs@.subrange(0, n as int) == cs@);
        match find_char_in(&cs, 0, n, '/') {
            Some(i) => {
                let crate_name = string_from_range(&cs, 0, i);
                let feature_name = string_from_range(&cs, i + 1, n);
                assert(cs@.take(i as int) == cs@.subrange(0, i as int));
                assert(cs@.skip(i + 1) == cs@.subrange(i + 1, n as int));
                let len = crate_name.as_str().len();
                let mid = value.start + len as u32;
                FeatureArgKind::DependencyFeature {
                    dependency: Positioned { start: value.start, end: mid, data: crate_name },
                    feature: Positioned { start: mid, end: value.end, data: feature_name },
                }
            },
            None => FeatureArgKind::CrateFeature(value),
        }
    }
}

} // verus!
