//! What the editor is offered for a dependency: the texts of its code
//! actions, of its hovers, and of its completions.
use std::sync::Arc;
use vstd::prelude::*;
use crate::info_api::{Root1, ViewMode, string_views};
use crate::lock::{chars_in_bytes, starts_with, Package, Source};
use crate::manifest::arc_clone;
use crate::offline::OfflineCrate;
use crate::rust_version::{parse_version, version_order, version_text, versions_match, RustVersion, VersionView};
use crate::text::{chars_of, owned, push_str, string_from, string_from_range, same_text, append_chars};
use crate::toml::{
    dependency_text, feature_names, source_text, DepSource, Dependency, DependencyKind, OptionalKey,
    Positioned, Toml, covers,
};
use crate::tree::RangeExclusive;

verus! {

fn clone_text(p: &Positioned<String>) -> (r: Positioned<String>)
    ensures
        r == *p,
{
    Positioned { start: p.start, end: p.end, data: p.data.clone() }
}

fn clone_opt_key(w: &Option<crate::toml::WithKey>) -> (r: Option<crate::toml::WithKey>)
    ensures
        r == *w,
{
    match w {
        Some(v) => Some(crate::toml::WithKey { key: v.key, value: clone_text(&v.value) }),
        None => None,
    }
}

/// An exact copy of a source.
pub fn clone_source(s: &DepSource) -> (r: DepSource)
    ensures
        r == *s,
{
    match s {
        DepSource::Version { value, registry } => DepSource::Version {
            value: OptionalKey { key: value.key, value: clone_text(&value.value) },
            registry: clone_opt_key(registry),
        },
        DepSource::Git { url, rev, tag, branch } => DepSource::Git {
            url: clone_opt_key(url),
            rev: clone_opt_key(rev),
            tag: clone_opt_key(tag),
            branch: clone_opt_key(branch),
        },
        DepSource::Path(p) => DepSource::Path(crate::toml::WithKey { key: p.key, value: clone_text(&p.value) }),
        DepSource::Unset => DepSource::Unset,
        DepSource::Workspace(r) => DepSource::Workspace(*r),
    }
}

fn clone_texts(v: &Vec<Positioned<String>>) -> (r: Vec<Positioned<String>>)
    ensures
        r@ == v@,
{
    let mut out: Vec<Positioned<String>> = Vec::new();
    let mut i: usize = 0;
    while i < v.len()
        invariant
            i <= v@.len(),
            out@ == v@.take(i as int),
        decreases v.len() - i,
    {
        out.push(clone_text(&v[i]));
        assert(out@ =~= v@.take(i + 1));
        i = i + 1;
    }
    assert(v@.take(v@.len() as int) == v@);
    out
}

/// Whether two dependencies are written the same way: the same name,
/// source, optional and expanded flags, default features and requested
/// features.
pub open spec fn written_alike(a: Dependency, b: Dependency) -> bool {
    &&& a.name == b.name
    &&& a.source == b.source
    &&& a.optional == b.optional
    &&& a.expanded == b.expanded
    &&& a.default_features == b.default_features
    &&& a.features.data@ == b.features.data@
}

/// Dependencies written alike have the same text.
pub proof fn lemma_written_alike(a: Dependency, b: Dependency)
    requires
        written_alike(a, b),
    ensures
        dependency_text(a) == dependency_text(b),
{
}

/// A copy of a dependency that is written like it.
pub fn clone_dependency(d: &Dependency) -> (r: Dependency)
    ensures
        written_alike(r, *d),
        r.kind == d.kind,
        r.features.start == d.features.start,
        r.features.end == d.features.end,
        r.features_key_range == d.features_key_range,
        r.typing_keys@ == d.typing_keys@,
        r.target == d.target,
{
    Dependency {
        name: clone_text(&d.name),
        kind: d.kind,
        source: clone_source(&d.source),
        features: Positioned { start: d.features.start, end: d.features.end, data: clone_texts(&d.features.data) },
        features_key_range: d.features_key_range,
        default_features: d.default_features,
        typing_keys: clone_texts(&d.typing_keys),
        optional: d.optional,
        expanded: d.expanded,
        target: arc_clone(&d.target),
    }
}

/// The action that switches a dependency between its short form and an
/// inline table: its title, and the new text (the dependency with the other
/// form and without the optional flag).
pub fn expand_action(dep: &Dependency) -> (r: (String, String))
    ensures
        r.0@ == if dep.expanded { "Collapse"@ } else { "Expand"@ },
        r.1@ == dependency_text(Dependency { expanded: !dep.expanded, optional: None, ..*dep }),
{
    let mut d = clone_dependency(dep);
    d.expanded = !d.expanded;
    d.optional = None;
    proof { lemma_written_alike(d, Dependency { expanded: !dep.expanded, optional: None, ..*dep }); }
    let title = if dep.expanded { owned("Collapse") } else { owned("Expand") };
    (title, d.to_string())
}

/// The optional flag after the toggle: flipped where it is written, else set.
pub open spec fn toggled_optional(o: Option<Positioned<bool>>) -> Option<Positioned<bool>> {
    match o {
        Some(p) => Some(Positioned { data: !p.data, ..p }),
        None => Some(Positioned { start: 0, end: 0, data: true }),
    }
}

/// The action that toggles whether a dependency is optional: its title, and
/// the new text.
pub fn optional_action(dep: &Dependency) -> (r: (String, String))
    ensures
        r.0@ == if dep.optional matches Some(o) && o.data { "Remove optional"@ } else { "Make optional"@ },
        r.1@ == dependency_text(Dependency { optional: toggled_optional(dep.optional), ..*dep }),
{
    let mut d = clone_dependency(dep);
    let on = match dep.optional {
        Some(o) => o.data,
        None => false,
    };
    d.optional = match dep.optional {
        Some(o) => Some(Positioned { start: o.start, end: o.end, data: !o.data }),
        None => Some(Positioned { start: 0, end: 0, data: true }),
    };
    proof { lemma_written_alike(d, Dependency { optional: toggled_optional(dep.optional), ..*dep }); }
    let title = if on { owned("Remove optional") } else { owned("Make optional") };
    (title, d.to_string())
}

/// Expanding a dependency written in short form, then collapsing it, gives
/// back its text.
pub proof fn lemma_collapse_after_expand(d: Dependency)
    requires
        !d.expanded,
        !(d.optional matches Some(o) && o.data),
    ensures
        ({
            let e = Dependency { expanded: !d.expanded, optional: None, ..d };
            let c = Dependency { expanded: !e.expanded, optional: None, ..e };
            dependency_text(c) == dependency_text(d)
        }),
{
}

/// Toggling the optional flag twice gives back the text of the dependency.
pub proof fn lemma_optional_twice(d: Dependency)
    ensures
        ({
            let once = Dependency { optional: toggled_optional(d.optional), ..d };
            let twice = Dependency { optional: toggled_optional(once.optional), ..once };
            dependency_text(twice) == dependency_text(d)
        }),
{
    let once = Dependency { optional: toggled_optional(d.optional), ..d };
    let twice = Dependency { optional: toggled_optional(once.optional), ..once };
    assert(crate::toml::entries_text(twice) == crate::toml::entries_text(d));
}

/// Every version completion starts with what was typed.
pub proof fn lemma_version_completions_match_query(dep: Dependency, items: Seq<Root1>, query: Seq<char>)
    ensures
        forall|i: int| 0 <= i < version_completions(dep, items, query).len() ==> starts_with(
            (#[trigger] version_completions(dep, items, query)[i]).0,
            query,
        ),
    decreases items.len(),
{
    if items.len() > 0 {
        lemma_version_completions_match_query(dep, items.drop_last(), query);
        let rest = version_completions(dep, items.drop_last(), query);
        let all = version_completions(dep, items, query);
        assert forall|i: int| 0 <= i < all.len() implies starts_with((#[trigger] all[i]).0, query) by {
            if starts_with(items.last().vers@, query) {
                if i > 0 {
                    assert(all[i] == rest[i - 1]);
                }
            } else {
                assert(all[i] == rest[i]);
            }
        }
    }
}

/// Every feature completion starts with what was typed.
pub proof fn lemma_feature_completions_match_query(names: Seq<Seq<char>>, query: Seq<char>)
    ensures
        forall|i: int| 0 <= i < feature_completions(names, query).len() ==> starts_with(
            (#[trigger] feature_completions(names, query)[i]).0,
            query,
        ),
    decreases names.len(),
{
    if names.len() > 0 {
        lemma_feature_completions_match_query(names.drop_last(), query);
        let rest = feature_completions(names.drop_last(), query);
        let all = feature_completions(names, query);
        assert forall|i: int| 0 <= i < all.len() implies starts_with((#[trigger] all[i]).0, query) by {
            if i < rest.len() {
                assert(all[i] == rest[i]);
            }
        }
    }
}

/// The text that makes a dependency inherit from the workspace.
pub fn workspace_member_text(dep: &Dependency) -> (r: String)
    ensures
        r@ == dependency_text(Dependency { source: DepSource::Workspace(RangeExclusive { start: 0, end: 0 }), ..*dep }),
{
    let mut d = clone_dependency(dep);
    d.source = DepSource::Workspace(RangeExclusive::default());
    proof {
        lemma_written_alike(d, Dependency { source: DepSource::Workspace(RangeExclusive { start: 0, end: 0 }), ..*dep });
    }
    d.to_string()
}

/// The line that declares a dependency in the workspace manifest: its name
/// and source as an inline table, and a line break.
pub fn workspace_entry_text(dep: &Dependency) -> (r: String)
    ensures
        r@ == dep.name.data@ + " = { "@ + source_text(dep.source) + " }"@ + "\n"@,
{
    let d = Dependency {
        name: clone_text(&dep.name),
        kind: DependencyKind::Normal,
        source: clone_source(&dep.source),
        features: Positioned { start: 0, end: 0, data: Vec::new() },
        features_key_range: None,
        default_features: None,
        typing_keys: Vec::new(),
        optional: None,
        expanded: true,
        target: Arc::new(Vec::new()),
    };
    proof {
        assert(crate::toml::entries_text(d) =~= seq![source_text(dep.source)]);
        assert(crate::text::join_with(seq![source_text(dep.source)], ", "@) == source_text(dep.source));
    }
    let mut out = chars_of(d.to_string().as_str());
    push_str(&mut out, "\n");
    string_from(&out)
}

/// The text that replaces a version requirement by a newer version: the
/// newer version between quotes, when `latest` is after the requirement
/// and the requirement reads as a version; nothing otherwise.
pub fn upgrade_text(version: &Positioned<String>, latest: Option<RustVersion>) -> (r: Option<String>)
    ensures
        match (latest, parse_version(version.data@)) {
            (Some(l), Ok(cur)) => if version_order(l@, cur) > 0 {
                r matches Some(t) && t@ == "\""@ + version_text(l@) + "\""@
            } else {
                r is None
            },
            _ => r is None,
        },
{
    let ver = match latest {
        Some(v) => v,
        None => {
            return None;
        },
    };
    let current = match RustVersion::try_from(version.data.as_str()) {
        Ok(v) => v,
        Err(_) => {
            return None;
        },
    };
    if !ver.gt(&current) {
        return None;
    }
    let mut out: Vec<char> = Vec::new();
    push_str(&mut out, "\"");
    push_str(&mut out, ver.to_string().as_str());
    push_str(&mut out, "\"");
    Some(string_from(&out))
}

/// Whether an index entry may be offered: any entry, or with `stable_only`
/// one whose version reads and is no pre-release.
pub open spec fn offered(e: Root1, stable_only: bool) -> bool {
    !stable_only || (parse_version(e.vers@) matches Ok(v) && v.pre is None)
}

/// The last entry that may be offered.
pub open spec fn last_offered(items: Seq<Root1>, stable_only: bool) -> Option<int>
    decreases items.len(),
{
    if items.len() == 0 {
        None
    } else if offered(items.last(), stable_only) {
        Some(items.len() - 1)
    } else {
        last_offered(items.drop_last(), stable_only)
    }
}

/// The line that adds a dependency to the workspace manifest at the newest
/// version that may be offered; nothing when there is none.
pub fn workspace_add_text(name: &str, items: &Vec<Root1>, stable_only: bool) -> (r: Option<String>)
    ensures
        match last_offered(items@, stable_only) {
            Some(i) => r matches Some(t) && t@ == name@ + " = \""@ + items@[i].vers@ + "\""@,
            None => r is None,
        },
{
    let mut found: Option<usize> = None;
    let mut i: usize = 0;
    while i < items.len()
        invariant
            i <= items@.len(),
            found matches Some(k) ==> k < i && last_offered(items@.take(i as int), stable_only) == Some(k as int),
            found is None ==> last_offered(items@.take(i as int), stable_only) is None,
        decreases items.len() - i,
    {
        assert(items@.take(i + 1).drop_last() == items@.take(i as int));
        assert(items@.take(i + 1).last() == items@[i as int]);
        let ok = if !stable_only {
            true
        } else {
            match items[i].ver() {
                Some(v) => !v.is_pre_release(),
                None => false,
            }
        };
        if ok {
            found = Some(i);
        }
        i = i + 1;
    }
    assert(items@.take(items@.len() as int) == items@);
    match found {
        Some(k) => {
            let mut out: Vec<char> = Vec::new();
            push_str(&mut out, name);
            push_str(&mut out, " = \"");
            push_str(&mut out, items[k].vers.as_str());
            push_str(&mut out, "\"");
            Some(string_from(&out))
        },
        None => None,
    }
}

/// The lines of a list: each item after `- `, separated by line breaks.
pub open spec fn bullet_lines(items: Seq<Seq<char>>) -> Seq<char> {
    crate::text::join_with(items.map_values(|v: Seq<char>| "- "@ + v), "\n"@)
}

fn bullets(items: &Vec<Vec<char>>) -> (r: Vec<char>)
    ensures
        r@ == bullet_lines(crate::text::views_of(items@)),
{
    let mut lines: Vec<Vec<char>> = Vec::new();
    let mut i: usize = 0;
    while i < items.len()
        invariant
            i <= items@.len(),
            crate::text::views_of(lines@) == crate::text::views_of(items@).map_values(|v: Seq<char>| "- "@ + v).take(
                i as int,
            ),
        decreases items.len() - i,
    {
        let ghost before = lines@;
        assert(crate::text::views_of(before).len() == before.len());
        let mut line = chars_of("- ");
        append_chars(&mut line, &items[i]);
        lines.push(line);
        assert(crate::text::views_of(lines@) =~= crate::text::views_of(items@).map_values(|v: Seq<char>| "- "@ + v).take(
            i + 1,
        ));
        i = i + 1;
    }
    assert(crate::text::views_of(items@).map_values(|v: Seq<char>| "- "@ + v).take(items@.len() as int)
        == crate::text::views_of(items@).map_values(|v: Seq<char>| "- "@ + v));
    let sep = chars_of("\n");
    crate::text::join_chars(&lines, &sep)
}

/// The versions of the index entries, newest (last) first.
pub open spec fn versions_newest_first(items: Seq<Root1>) -> Seq<Seq<char>> {
    Seq::new(items.len(), |i: int| items[items.len() - 1 - i].vers@)
}

/// The hover text that lists every version the registry knows, newest
/// first.
pub fn version_list(items: &Vec<Root1>) -> (r: String)
    ensures
        r@ == "List of all availanle versions: \n"@ + bullet_lines(versions_newest_first(items@)),
{
    let mut vs: Vec<Vec<char>> = Vec::new();
    let mut i: usize = items.len();
    while i > 0
        invariant
            i <= items@.len(),
            crate::text::views_of(vs@) == versions_newest_first(items@).take(items@.len() - i),
        decreases i,
    {
        i = i - 1;
        let ghost before = vs@;
        assert(crate::text::views_of(before).len() == before.len());
        vs.push(chars_of(items[i].vers.as_str()));
        assert(crate::text::views_of(vs@) =~= versions_newest_first(items@).take(items@.len() - i));
    }
    assert(versions_newest_first(items@).take(items@.len() as int) == versions_newest_first(items@));
    let mut out = chars_of("List of all availanle versions: \n");
    let b = bullets(&vs);
    append_chars(&mut out, &b);
    string_from(&out)
}

/// The last entry whose version reads and matches `ver`.
pub open spec fn last_with_version(items: Seq<Root1>, ver: VersionView) -> Option<int>
    decreases items.len(),
{
    if items.len() == 0 {
        None
    } else if parse_version(items.last().vers@) matches Ok(v) && versions_match(v, ver) {
        Some(items.len() - 1)
    } else {
        last_with_version(items.drop_last(), ver)
    }
}

fn find_last_with_version(items: &Vec<Root1>, ver: &RustVersion) -> (r: Option<usize>)
    ensures
        r matches Some(k) ==> k < items@.len() && last_with_version(items@, ver@) == Some(k as int),
        r is None ==> last_with_version(items@, ver@) is None,
{
    let mut found: Option<usize> = None;
    let mut i: usize = 0;
    while i < items.len()
        invariant
            i <= items@.len(),
            found matches Some(k) ==> k < i && last_with_version(items@.take(i as int), ver@) == Some(k as int),
            found is None ==> last_with_version(items@.take(i as int), ver@) is None,
        decreases items.len() - i,
    {
        assert(items@.take(i + 1).drop_last() == items@.take(i as int));
        assert(items@.take(i + 1).last() == items@[i as int]);
        if let Some(v) = items[i].ver() {
            if v.eq(ver) {
                found = Some(i);
            }
        }
        i = i + 1;
    }
    assert(items@.take(items@.len() as int) == items@);
    found
}

/// The hover text that lists the features of the last entry whose version
/// matches `ver`, as `features` shows them in `mode`; an empty list when no
/// entry matches.
pub fn feature_list(items: &Vec<Root1>, ver: &RustVersion, mode: ViewMode) -> (r: String)
    ensures
        last_with_version(items@, ver@) is None ==> r@ == "List of all available features: \n"@,
        last_with_version(items@, ver@) matches Some(i) ==> exists|fs: Seq<Seq<char>>|
            crate::sorted::strictly_sorted(fs) && fs.to_set() == items@[i].feature_candidates(mode).to_set()
                && r@ == "List of all available features: \n"@ + bullet_lines(fs),
{
    let mut out = chars_of("List of all available features: \n");
    match find_last_with_version(items, ver) {
        Some(i) => {
            let fs = items[i].features(mode);
            let mut cs: Vec<Vec<char>> = Vec::new();
            let mut k: usize = 0;
            while k < fs.len()
                invariant
                    k <= fs@.len(),
                    crate::text::views_of(cs@) == string_views(fs@).take(k as int),
                decreases fs.len() - k,
            {
                let ghost before = cs@;
                assert(crate::text::views_of(before).len() == before.len());
                cs.push(chars_of(fs[k].as_str()));
                assert(crate::text::views_of(cs@) =~= string_views(fs@).take(k + 1));
                k = k + 1;
            }
            assert(string_views(fs@).take(fs@.len() as int) == string_views(fs@));
            let b = bullets(&cs);
            append_chars(&mut out, &b);
            assert(out@ == "List of all available features: \n"@ + bullet_lines(string_views(fs@)));
            assert(crate::sorted::strictly_sorted(string_views(fs@)) && string_views(fs@).to_set()
                == items@[i as int].feature_candidates(mode).to_set() && out@ == "List of all available features: \n"@
                + bullet_lines(string_views(fs@)));
        },
        None => {
            assert(bullet_lines(Seq::<Seq<char>>::empty()) =~= Seq::<char>::empty());
        },
    }
    string_from(&out)
}

/// The registry of crates.io, as a lock file names it.
pub open spec fn crates_io_index() -> Seq<char> {
    "https://github.com/rust-lang/crates.io-index"@
}

/// Whether the readme of a locked package may be shown: only for packages
/// from crates.io.
pub fn readme_allowed(p: &Package) -> (r: bool)
    ensures
        r == (p.source matches Some(Source::Registry(s)) && s@ == crates_io_index()),
{
    match &p.source {
        Some(Source::Registry(s)) => same_text(s.as_str(), "https://github.com/rust-lang/crates.io-index"),
        _ => false,
    }
}

/// Whether a document is a manifest that the server works on: its URI ends
/// with `/Cargo.toml`.
pub fn shoud_allow_user(uri: &str) -> (r: bool)
    ensures
        r == (uri@.len() >= "/Cargo.toml"@.len() && uri@.skip(uri@.len() - "/Cargo.toml"@.len()) == "/Cargo.toml"@),
{
    let cs = chars_of(uri);
    let tail = chars_of("/Cargo.toml");
    if cs.len() < tail.len() {
        return false;
    }
    let start = cs.len() - tail.len();
    let _n = cs.len();
    let mut i: usize = 0;
    while i < tail.len()
        invariant
            i <= tail@.len(),
            start + tail@.len() == cs@.len(),
            cs@.len() <= usize::MAX,
            cs@ == uri@,
            tail@ == "/Cargo.toml"@,
            forall|k: int| 0 <= k < i ==> cs@[start + k] == tail@[k],
        decreases tail.len() - i,
    {
        if cs[start + i] != tail[i] {
            assert(uri@.skip(start as int)[i as int] == cs@[start + i]);
            return false;
        }
        i = i + 1;
    }
    assert(uri@.skip(start as int) =~= tail@);
    true
}

/// The number of leading characters of `cs` that take `n` bytes, if a
/// character boundary lies there.
pub(crate) fn chars_for_bytes(cs: &Vec<char>, n: usize) -> (r: Option<usize>)
    ensures
        r matches Some(k) ==> k <= cs@.len() && chars_in_bytes(cs@, n as nat) == Some(k as nat),
        r is None ==> chars_in_bytes(cs@, n as nat) is None,
{
    let _len = cs.len();
    let mut k: usize = 0;
    let mut left: usize = n;
    assert(cs@.skip(0) == cs@);
    while left > 0
        invariant
            k <= cs@.len(),
            cs@.len() <= usize::MAX,
            chars_in_bytes(cs@, n as nat) == match chars_in_bytes(cs@.skip(k as int), left as nat) {
                Some(j) => Some((j + k) as nat),
                None => None::<nat>,
            },
        decreases left,
    {
        if k == cs.len() {
            return None;
        }
        let ghost rest = cs@.skip(k as int);
        assert(rest[0] == cs@[k as int]);
        let w = crate::text::char_width(cs[k]);
        if w > left {
            return None;
        }
        assert(rest.drop_first() == cs@.skip(k + 1));
        left = left - w;
        k = k + 1;
    }
    Some(k)
}

/// What `str::get(..n)` gives, or the whole text when it gives nothing:
/// the characters in the first `n` bytes when a character boundary lies
/// there.
pub open spec fn prefix_or_all(s: Seq<char>, n: nat) -> Seq<char> {
    match chars_in_bytes(s, n) {
        Some(k) => s.take(k as int),
        None => s,
    }
}

fn text_prefix(s: &String, n: usize) -> (r: String)
    ensures
        r@ == prefix_or_all(s@, n as nat),
{
    let cs = chars_of(s.as_str());
    match chars_for_bytes(&cs, n) {
        Some(k) => {
            assert(cs@.subrange(0, k as int) == cs@.take(k as int));
            string_from_range(&cs, 0, k)
        },
        None => s.clone(),
    }
}

/// `a - b`, or 0 when `b` is larger.
pub open spec fn saturating_sub(a: int, b: int) -> nat {
    if a >= b {
        (a - b) as nat
    } else {
        0
    }
}

/// What a completion at a byte offset is about.
pub enum CompletionSpot {
    /// The name of a dependency, typed up to the cursor.
    Name { dep: usize, query: String },
    /// The version requirement of a dependency, typed up to the cursor.
    Version { dep: usize, query: String },
    /// A requested feature of a dependency, typed up to the cursor.
    Feature { dep: usize, feature: usize, query: String },
    Nothing,
}

/// The mathematical value of a [`CompletionSpot`].
pub enum SpotView {
    Name { dep: int, query: Seq<char> },
    Version { dep: int, query: Seq<char> },
    Feature { dep: int, feature: int, query: Seq<char> },
    Nothing,
}

impl View for CompletionSpot {
    type V = SpotView;

    open spec fn view(&self) -> SpotView {
        match self {
            CompletionSpot::Name { dep, query } => SpotView::Name { dep: *dep as int, query: query@ },
            CompletionSpot::Version { dep, query } => SpotView::Version { dep: *dep as int, query: query@ },
            CompletionSpot::Feature { dep, feature, query } => SpotView::Feature {
                dep: *dep as int,
                feature: *feature as int,
                query: query@,
            },
            CompletionSpot::Nothing => SpotView::Nothing,
        }
    }
}

/// The first dependency whose range holds `pos`.
pub open spec fn first_dep_at(deps: Seq<Positioned<Dependency>>, pos: usize) -> Option<int>
    decreases deps.len(),
{
    if deps.len() == 0 {
        None
    } else if covers(deps.last().start, deps.last().end, pos) && first_dep_at(deps.drop_last(), pos) is None {
        Some(deps.len() - 1)
    } else {
        first_dep_at(deps.drop_last(), pos)
    }
}

/// The first requested feature whose range holds `pos`.
pub open spec fn first_feature_at(fs: Seq<Positioned<String>>, pos: usize) -> Option<int>
    decreases fs.len(),
{
    if fs.len() == 0 {
        None
    } else if covers(fs.last().start, fs.last().end, pos) && first_feature_at(fs.drop_last(), pos) is None {
        Some(fs.len() - 1)
    } else {
        first_feature_at(fs.drop_last(), pos)
    }
}

/// What a completion at `pos` is about: in the first dependency that holds
/// it, its name (typed up to `pos`), else its registry version (typed up to
/// the byte before `pos`, past the opening quote), else the first requested
/// feature that holds it (likewise).
pub open spec fn completion_spot(toml: Toml, pos: usize) -> SpotView {
    match first_dep_at(toml.dependencies@, pos) {
        None => SpotView::Nothing,
        Some(i) => {
            let d = toml.dependencies@[i].data;
            if covers(d.name.start, d.name.end, pos) {
                SpotView::Name { dep: i, query: prefix_or_all(d.name.data@, saturating_sub(pos as int, d.name.start as int)) }
            } else if d.source is Version && covers(
                d.source->Version_value.value.start,
                d.source->Version_value.value.end,
                pos,
            ) {
                let value = d.source->Version_value;
                SpotView::Version {
                    dep: i,
                    query: prefix_or_all(value.value.data@, saturating_sub(pos as int, value.value.start + 1)),
                }
            } else {
                match first_feature_at(d.features.data@, pos) {
                    Some(j) => SpotView::Feature {
                        dep: i,
                        feature: j,
                        query: prefix_or_all(
                            d.features.data@[j].data@,
                            saturating_sub(pos as int, d.features.data@[j].start + 1),
                        ),
                    },
                    None => SpotView::Nothing,
                }
            }
        },
    }
}

fn find_dep_at(deps: &Vec<Positioned<Dependency>>, pos: usize) -> (r: Option<usize>)
    ensures
        r matches Some(k) ==> k < deps@.len() && first_dep_at(deps@, pos) == Some(k as int),
        r is None ==> first_dep_at(deps@, pos) is None,
{
    let mut found: Option<usize> = None;
    let mut i: usize = 0;
    while i < deps.len()
        invariant
            i <= deps@.len(),
            found matches Some(k) ==> k < i && first_dep_at(deps@.take(i as int), pos) == Some(k as int),
            found is None ==> first_dep_at(deps@.take(i as int), pos) is None,
        decreases deps.len() - i,
    {
        assert(deps@.take(i + 1).drop_last() == deps@.take(i as int));
        assert(deps@.take(i + 1).last() == deps@[i as int]);
        if found.is_none() && deps[i].contains(pos) {
            found = Some(i);
        }
        i = i + 1;
    }
    assert(deps@.take(deps@.len() as int) == deps@);
    found
}

fn find_feature_at(fs: &Vec<Positioned<String>>, pos: usize) -> (r: Option<usize>)
    ensures
        r matches Some(k) ==> k < fs@.len() && first_feature_at(fs@, pos) == Some(k as int),
        r is None ==> first_feature_at(fs@, pos) is None,
{
    let mut found: Option<usize> = None;
    let mut i: usize = 0;
    while i < fs.len()
        invariant
            i <= fs@.len(),
            found matches Some(k) ==> k < i && first_feature_at(fs@.take(i as int), pos) == Some(k as int),
            found is None ==> first_feature_at(fs@.take(i as int), pos) is None,
        decreases fs.len() - i,
    {
        assert(fs@.take(i + 1).drop_last() == fs@.take(i as int));
        assert(fs@.take(i + 1).last() == fs@[i as int]);
        if found.is_none() && fs[i].contains(pos) {
            found = Some(i);
        }
        i = i + 1;
    }
    assert(fs@.take(fs@.len() as int) == fs@);
    found
}

fn saturating(a: usize, b: usize) -> (r: usize)
    ensures
        r == saturating_sub(a as int, b as int),
{
    if a >= b {
        a - b
    } else {
        0
    }
}

/// What a completion at byte offset `pos` is about (see `completion_spot`).
pub fn completion_at(toml: &Toml, pos: usize) -> (r: CompletionSpot)
    ensures
        r@ == completion_spot(*toml, pos),
{
    let i = match find_dep_at(&toml.dependencies, pos) {
        Some(i) => i,
        None => {
            return CompletionSpot::Nothing;
        },
    };
    let d = &toml.dependencies[i].data;
    if d.name.contains(pos) {
        let end = saturating(pos, d.name.start as usize);
        return CompletionSpot::Name { dep: i, query: text_prefix(&d.name.data, end) };
    }
    if let DepSource::Version { value, .. } = &d.source {
        if value.value.contains(pos) {
            let end = saturating(saturating(pos, value.value.start as usize), 1);
            return CompletionSpot::Version { dep: i, query: text_prefix(&value.value.data, end) };
        }
    }
    match find_feature_at(&d.features.data, pos) {
        Some(j) => {
            let f = &d.features.data[j];
            let end = saturating(saturating(pos, f.start as usize), 1);
            CompletionSpot::Feature { dep: i, feature: j, query: text_prefix(&f.data, end) }
        },
        None => CompletionSpot::Nothing,
    }
}

/// How a dependency reads with a registry version `v` in place of its
/// source.
pub open spec fn text_with_version(d: Dependency, v: Seq<char>) -> Seq<char> {
    if (d.optional matches Some(o) && o.data) || d.expanded {
        d.name.data@ + " = { "@ + crate::text::join_with(
            seq!["version = "@ + crate::toml::quoted(v)] + crate::toml::entries_text(d).drop_first(),
            ", "@,
        ) + " }"@
    } else {
        d.name.data@ + " = "@ + crate::toml::quoted(v)
    }
}

/// A dependency with a plain registry version reads as `text_with_version`.
pub proof fn lemma_text_with_version(d: Dependency)
    requires
        d.source matches DepSource::Version { value, registry } && value.key is None && registry is None,
    ensures
        dependency_text(d) == text_with_version(d, d.source->Version_value.value.data@),
{
    let e = crate::toml::entries_text(d);
    assert(e[0] == source_text(d.source));
    assert(e =~= seq![e[0]] + e.drop_first());
}

/// The version that a name completion writes: the newest stable one, else
/// the newest; or the other way round unless `stable`; none when the
/// registry gives neither.
pub open spec fn chosen_version(c: crate::info_api::Crate, stable: bool) -> Seq<char> {
    let first = if stable { c.max_stable_version } else { c.max_version };
    let second = if stable { c.max_version } else { c.max_stable_version };
    match first {
        Some(v) => v@,
        None => match second {
            Some(v) => v@,
            None => seq![],
        },
    }
}

/// Which version a name completion writes: with `stable`, the newest stable
/// version when the registry gives one, else the newest; without it, the
/// newest, else the newest stable one; nothing when it gives neither.
pub proof fn lemma_chosen_version(c: crate::info_api::Crate, stable: bool)
    ensures
        stable && c.max_stable_version is Some ==> chosen_version(c, stable) == c.max_stable_version->Some_0@,
        stable && c.max_stable_version is None && c.max_version is Some ==> chosen_version(c, stable)
            == c.max_version->Some_0@,
        !stable && c.max_version is Some ==> chosen_version(c, stable) == c.max_version->Some_0@,
        !stable && c.max_version is None && c.max_stable_version is Some ==> chosen_version(c, stable)
            == c.max_stable_version->Some_0@,
        c.max_version is None && c.max_stable_version is None ==> chosen_version(c, stable) == Seq::<char>::empty(),
{
}

/// The text that a name completion writes for the crate `krate`: the
/// dependency renamed; a dependency without a source gets `workspace = true`
/// inside a workspace, else the chosen version.
pub fn name_completion_text(dep: &Dependency, krate: &crate::info_api::Crate, in_workspace: bool, stable: bool) -> (r: String)
    ensures
        ({
            let renamed = Dependency { name: Positioned { data: krate.name, ..dep.name }, ..*dep };
            r@ == match dep.source {
                DepSource::Unset => if in_workspace {
                    dependency_text(Dependency { source: DepSource::Workspace(RangeExclusive { start: 0, end: 0 }), ..renamed })
                } else {
                    text_with_version(renamed, chosen_version(*krate, stable))
                },
                _ => dependency_text(renamed),
            }
        }),
        dep.source is Unset && !in_workspace && stable && krate.max_stable_version is Some ==> r@ == text_with_version(
            Dependency { name: Positioned { data: krate.name, ..dep.name }, ..*dep },
            krate.max_stable_version->Some_0@,
        ),
        dep.source is Unset && !in_workspace && !stable && krate.max_version is Some ==> r@ == text_with_version(
            Dependency { name: Positioned { data: krate.name, ..dep.name }, ..*dep },
            krate.max_version->Some_0@,
        ),
{
    proof { lemma_chosen_version(*krate, stable); }
    let mut d = clone_dependency(dep);
    d.name = Positioned { start: dep.name.start, end: dep.name.end, data: krate.name.clone() };
    let ghost renamed = Dependency { name: Positioned { data: krate.name, ..dep.name }, ..*dep };
    match &dep.source {
        DepSource::Unset => {
            if in_workspace {
                d.source = DepSource::Workspace(RangeExclusive::default());
                proof {
                    lemma_written_alike(d, Dependency { source: DepSource::Workspace(RangeExclusive { start: 0, end: 0 }), ..renamed });
                }
            } else {
                let (first, second) = if stable {
                    (&krate.max_stable_version, &krate.max_version)
                } else {
                    (&krate.max_version, &krate.max_stable_version)
                };
                let ver = match first {
                    Some(v) => v.clone(),
                    None => match second {
                        Some(v) => v.clone(),
                        None => String::new(),
                    },
                };
                assert(ver@ == chosen_version(*krate, stable));
                d.source = DepSource::Version { value: OptionalKey::no_key(Positioned::new(0, 0, ver)), registry: None };
                proof {
                    lemma_text_with_version(d);
                    assert(crate::toml::entries_text(d).drop_first() =~= crate::toml::entries_text(renamed).drop_first());
                }
            }
        },
        _ => {
            proof { lemma_written_alike(d, renamed); }
        },
    }
    d.to_string()
}

/// `s` with a registry version `v` in place of its requirement, keeping the
/// registry of a registry source.
pub open spec fn with_version(s: DepSource, v: String) -> DepSource {
    let value = OptionalKey { key: None, value: Positioned { start: 0, end: 0, data: v } };
    match s {
        DepSource::Version { registry, .. } => DepSource::Version { value, registry },
        _ => DepSource::Version { value, registry: None },
    }
}

/// The version completions for a dependency, newest (last) first: each
/// version of the index that starts with `query`, with the dependency's text
/// at that version.
pub open spec fn version_completions(dep: Dependency, items: Seq<Root1>, query: Seq<char>) -> Seq<(Seq<char>, Seq<char>)>
    decreases items.len(),
{
    if items.len() == 0 {
        seq![]
    } else {
        let e = items.last();
        let rest = version_completions(dep, items.drop_last(), query);
        if starts_with(e.vers@, query) {
            seq![(e.vers@, dependency_text(Dependency { source: with_version(dep.source, e.vers), ..dep }))] + rest
        } else {
            rest
        }
    }
}

pub open spec fn pair_texts(v: Seq<(String, String)>) -> Seq<(Seq<char>, Seq<char>)> {
    v.map_values(|p: (String, String)| (p.0@, p.1@))
}

pub(crate) fn text_starts_with(s: &str, p: &str) -> (r: bool)
    ensures
        r == starts_with(s@, p@),
{
    let a = chars_of(s);
    let b = chars_of(p);
    if a.len() < b.len() {
        return false;
    }
    let mut i: usize = 0;
    while i < b.len()
        invariant
            i <= b@.len() <= a@.len(),
            a@ == s@,
            b@ == p@,
            forall|k: int| 0 <= k < i ==> a@[k] == b@[k],
        decreases b.len() - i,
    {
        if a[i] != b[i] {
            assert(a@.take(b@.len() as int)[i as int] == a@[i as int]);
            return false;
        }
        i = i + 1;
    }
    assert(a@.take(b@.len() as int) =~= b@);
    true
}

/// The version completions for a dependency (see `version_completions`):
/// each as its label and the text that replaces the dependency.
pub fn version_completion_items(dep: &Dependency, items: &Vec<Root1>, query: &str) -> (r: Vec<(String, String)>)
    ensures
        pair_texts(r@) == version_completions(*dep, items@, query@),
{
    let mut out: Vec<(String, String)> = Vec::new();
    let mut i: usize = items.len();
    assert(items@.take(i as int) == items@);
    assert(pair_texts(out@) =~= Seq::<(Seq<char>, Seq<char>)>::empty());
    assert(version_completions(*dep, items@, query@) =~= pair_texts(out@) + version_completions(*dep, items@, query@));
    while i > 0
        invariant
            i <= items@.len(),
            version_completions(*dep, items@, query@) == pair_texts(out@) + version_completions(
                *dep,
                items@.take(i as int),
                query@,
            ),
        decreases i,
    {
        assert(items@.take(i as int).drop_last() == items@.take(i - 1));
        assert(items@.take(i as int).last() == items@[i - 1]);
        i = i - 1;
        let e = &items[i];
        if text_starts_with(e.vers.as_str(), query) {
            let mut d = clone_dependency(dep);
            d.source.set_version(OptionalKey::no_key(Positioned::new(0, 0, e.vers.clone())));
            proof { lemma_written_alike(d, Dependency { source: with_version(dep.source, e.vers), ..*dep }); }
            let text = d.to_string();
            let ghost before = out@;
            assert(pair_texts(before).len() == before.len());
            out.push((e.vers.clone(), text));
            assert(pair_texts(out@) =~= pair_texts(before) + seq![(e.vers@, text@)]);
        }
    }
    assert(items@.take(0) =~= Seq::<Root1>::empty());
    assert(pair_texts(out@) =~= pair_texts(out@) + Seq::<(Seq<char>, Seq<char>)>::empty());
    out
}

/// The feature completions: each name that starts with `query`, in order,
/// with the name between quotes as the text to write.
pub open spec fn feature_completions(names: Seq<Seq<char>>, query: Seq<char>) -> Seq<(Seq<char>, Seq<char>)>
    decreases names.len(),
{
    if names.len() == 0 {
        seq![]
    } else {
        let rest = feature_completions(names.drop_last(), query);
        let n = names.last();
        if starts_with(n, query) {
            rest.push((n, crate::toml::quoted(n)))
        } else {
            rest
        }
    }
}

/// The feature completions (see `feature_completions`).
pub fn feature_completion_items(names: &Vec<String>, query: &str) -> (r: Vec<(String, String)>)
    ensures
        pair_texts(r@) == feature_completions(string_views(names@), query@),
{
    let mut out: Vec<(String, String)> = Vec::new();
    let mut i: usize = 0;
    while i < names.len()
        invariant
            i <= names@.len(),
            pair_texts(out@) == feature_completions(string_views(names@).take(i as int), query@),
        decreases names.len() - i,
    {
        assert(string_views(names@).take(i + 1).drop_last() == string_views(names@).take(i as int));
        assert(string_views(names@).take(i + 1).last() == names@[i as int]@);
        let ghost before = out@;
        assert(pair_texts(before).len() == before.len());
        if text_starts_with(names[i].as_str(), query) {
            let mut t: Vec<char> = Vec::new();
            t.push('"');
            push_str(&mut t, names[i].as_str());
            t.push('"');
            assert(t@ =~= crate::toml::quoted(names@[i as int]@));
            let text = string_from(&t);
            out.push((names[i].clone(), text));
            assert(pair_texts(out@) =~= pair_texts(before).push((names@[i as int]@, crate::toml::quoted(names@[i as int]@))));
        }
        i = i + 1;
    }
    assert(string_views(names@).take(names@.len() as int) == string_views(names@));
    out
}

/// Whether an index entry's version equals a version that may be missing:
/// both missing, or both there and matching.
pub open spec fn same_optional_version(e: Root1, ver: Option<VersionView>) -> bool {
    match (parse_version(e.vers@), ver) {
        (Ok(a), Some(b)) => versions_match(a, b),
        (Err(_), None) => true,
        _ => false,
    }
}

/// The last entry whose version equals `ver` in that sense.
pub open spec fn last_same_version(items: Seq<Root1>, ver: Option<VersionView>) -> Option<int>
    decreases items.len(),
{
    if items.len() == 0 {
        None
    } else if same_optional_version(items.last(), ver) {
        Some(items.len() - 1)
    } else {
        last_same_version(items.drop_last(), ver)
    }
}

/// Every name a feature of the entry for `ver` can enable; none when no
/// entry has that version.
pub fn feature_names_for(items: &Vec<Root1>, ver: &Option<RustVersion>) -> (r: Vec<String>)
    ensures
        match last_same_version(items@, match ver { Some(v) => Some(v@), None => None }) {
            Some(i) => string_views(r@) == crate::analyze::entry_feature_names(items@[i]),
            None => r@.len() == 0,
        },
{
    let ghost want = match ver { Some(v) => Some(v@), None => None::<VersionView> };
    let mut found: Option<usize> = None;
    let mut i: usize = 0;
    while i < items.len()
        invariant
            i <= items@.len(),
            want == match ver { Some(v) => Some(v@), None => None::<VersionView> },
            found matches Some(k) ==> k < i && last_same_version(items@.take(i as int), want) == Some(k as int),
            found is None ==> last_same_version(items@.take(i as int), want) is None,
        decreases items.len() - i,
    {
        assert(items@.take(i + 1).drop_last() == items@.take(i as int));
        assert(items@.take(i + 1).last() == items@[i as int]);
        let same = match (items[i].ver(), ver) {
            (Some(a), Some(b)) => a.eq(b),
            (None, None) => true,
            _ => false,
        };
        if same {
            found = Some(i);
        }
        i = i + 1;
    }
    assert(items@.take(items@.len() as int) == items@);
    match found {
        Some(k) => items[k].feature_all(),
        None => Vec::new(),
    }
}

/// An action that opens a page about a dependency.
pub enum PageAction {
    /// Opens `url`.
    OpenUrl { title: String, url: String },
    /// Opens the source of the crate at this version.
    OpenSource { name: String, version: String },
}

/// The mathematical value of a [`PageAction`].
pub enum PageView {
    OpenUrl { title: Seq<char>, url: Seq<char> },
    OpenSource { name: Seq<char>, version: Seq<char> },
}

impl View for PageAction {
    type V = PageView;

    open spec fn view(&self) -> PageView {
        match self {
            PageAction::OpenUrl { title, url } => PageView::OpenUrl { title: title@, url: url@ },
            PageAction::OpenSource { name, version } => PageView::OpenSource { name: name@, version: version@ },
        }
    }
}

pub open spec fn page_views(v: Seq<PageAction>) -> Seq<PageView> {
    v.map_values(|p: PageAction| p@)
}

/// The pages of a crate that the offline list knows: its repository, its
/// documentation and its homepage, those it has, in that order.
pub open spec fn offline_pages(c: Option<OfflineCrate>) -> Seq<PageView> {
    match c {
        None => seq![],
        Some(c) => {
            let a: Seq<PageView> = match c.repository {
                Some(u) => seq![PageView::OpenUrl { title: "Open Repository"@, url: u@ }],
                None => seq![],
            };
            let b: Seq<PageView> = match c.documentation {
                Some(u) => seq![PageView::OpenUrl { title: "Open Documentation"@, url: u@ }],
                None => seq![],
            };
            let h: Seq<PageView> = match c.homepage {
                Some(u) => seq![PageView::OpenUrl { title: "Open Homepage"@, url: u@ }],
                None => seq![],
            };
            a + b + h
        },
    }
}

/// The page actions of a registry dependency: offline, the pages the offline
/// list knows; online, its documentation on docs.rs and its source; then its
/// page on crates.io.
pub open spec fn pages_for(name: Seq<char>, version: Seq<char>, offline: bool, local: Option<OfflineCrate>) -> Seq<PageView> {
    (if offline {
        offline_pages(local)
    } else {
        seq![
            PageView::OpenUrl { title: "Open Documentation"@, url: "https://docs.rs/"@ + name + "/"@ + version + "/"@ },
            PageView::OpenSource { name, version },
        ]
    }) + seq![PageView::OpenUrl { title: "Open crates.io"@, url: "https://crates.io/crates/"@ + name }]
}

fn open_url(title: &str, url: String) -> (r: PageAction)
    ensures
        r@ == (PageView::OpenUrl { title: title@, url: url@ }),
{
    PageAction::OpenUrl { title: owned(title), url }
}

/// The pages offered on the first line of a manifest: the server's
/// documentation, its issue tracker, and the Cargo manifest reference.
pub open spec fn first_line_pages() -> Seq<PageView> {
    seq![
        PageView::OpenUrl { title: "Open LSP docs"@, url: "https://github.com/frederik-uni/cargotom/blob/main/README.md"@ },
        PageView::OpenUrl { title: "Report LSP issue/Suggest feature"@, url: "https://github.com/frederik-uni/cargotom/issues"@ },
        PageView::OpenUrl { title: "Open Cargo manifest docs"@, url: "https://doc.rust-lang.org/cargo/reference/manifest.html"@ },
    ]
}

/// The actions for a selection from line `start_line` to line `end_line`:
/// the first-line pages (see `first_line_pages`) when the selection starts
/// or ends on the first line, else none.
pub fn first_line_actions(start_line: u32, end_line: u32) -> (r: Vec<PageAction>)
    ensures
        page_views(r@) == (if start_line == 0 || end_line == 0 {
            first_line_pages()
        } else {
            Seq::empty()
        }),
{
    let mut out: Vec<PageAction> = Vec::new();
    if start_line == 0 || end_line == 0 {
        out.push(open_url("Open LSP docs", owned("https://github.com/frederik-uni/cargotom/blob/main/README.md")));
        out.push(open_url("Report LSP issue/Suggest feature", owned("https://github.com/frederik-uni/cargotom/issues")));
        out.push(open_url("Open Cargo manifest docs", owned("https://doc.rust-lang.org/cargo/reference/manifest.html")));
        assert(page_views(out@) =~= first_line_pages());
    } else {
        assert(page_views(out@) =~= Seq::<PageView>::empty());
    }
    out
}

/// The page actions of a registry dependency (see `pages_for`).
pub fn page_actions(name: &str, version: &str, offline: bool, local: Option<&OfflineCrate>) -> (r: Vec<PageAction>)
    ensures
        page_views(r@) == pages_for(name@, version@, offline, match local { Some(c) => Some(*c), None => None }),
{
    let mut out: Vec<PageAction> = Vec::new();
    if offline {
        if let Some(c) = local {
            if let Some(u) = &c.repository {
                out.push(open_url("Open Repository", u.clone()));
            }
            let ghost a = page_views(out@);
            if let Some(u) = &c.documentation {
                out.push(open_url("Open Documentation", u.clone()));
            }
            let ghost b = page_views(out@);
            if let Some(u) = &c.homepage {
                out.push(open_url("Open Homepage", u.clone()));
            }
            proof {
                assert(a =~= match c.repository {
                    Some(u) => seq![PageView::OpenUrl { title: "Open Repository"@, url: u@ }],
                    None => Seq::<PageView>::empty(),
                });
            }
            assert(page_views(out@) =~= offline_pages(Some(*c)));
        } else {
            assert(page_views(out@) =~= offline_pages(None));
        }
    } else {
        let mut docs = chars_of("https://docs.rs/");
        push_str(&mut docs, name);
        push_str(&mut docs, "/");
        push_str(&mut docs, version);
        push_str(&mut docs, "/");
        out.push(open_url("Open Documentation", string_from(&docs)));
        out.push(PageAction::OpenSource { name: owned(name), version: owned(version) });
    }
    let ghost head = page_views(out@);
    let mut krate = chars_of("https://crates.io/crates/");
    push_str(&mut krate, name);
    out.push(open_url("Open crates.io", string_from(&krate)));
    assert(page_views(out@) =~= head.push(PageView::OpenUrl { title: "Open crates.io"@, url: "https://crates.io/crates/"@ + name@ }));
    out
}

/// Where the source of a crate is: its repository when known, else its
/// source view on docs.rs when the name and version are given.
pub fn source_url(repository: Option<String>, name: Option<&str>, version: Option<&str>) -> (r: Option<String>)
    ensures
        match repository {
            Some(u) => r == Some(u),
            None => match (name, version) {
                (Some(n), Some(v)) => r matches Some(t) && t@ == "https://docs.rs/crate/"@ + n@ + "/"@ + v@ + "/source/"@,
                _ => r is None,
            },
        },
{
    match repository {
        Some(u) => Some(u),
        None => match (name, version) {
            (Some(n), Some(v)) => {
                let mut out = chars_of("https://docs.rs/crate/");
                push_str(&mut out, n);
                push_str(&mut out, "/");
                push_str(&mut out, v);
                push_str(&mut out, "/source/");
                Some(string_from(&out))
            },
            _ => None,
        },
    }
}

} // verus!
