//! Reading the dependencies, features and workspace members of a manifest
//! from its syntax tree.
use std::sync::Arc;
use vstd::prelude::*;
use crate::text::same_text;
use crate::toml::{
    DepSource, Dependency, DependencyKind, DependencyView, KeyedView, OptKeyView, OptionalKey, PosText,
    Positioned, SourceView, WithKey, join_ranges, keyed, pos_text, pos_texts, Target, Toml, Feature, target_texts,
    FeatureArgKind, FeatureView, ArgView, arg_of, arg_range, arg_fits, arg_views, lemma_arg_of,
};
use crate::tree::{
    RangeExclusive, TableKind, Tree, TreeValue, Value, closest_range_of, tree_keys_ranged, value_keys_ranged,
    value_range,
};

verus! {

#[verifier::external_body]
pub(crate) fn arc_clone<T>(a: &Arc<T>) -> (r: Arc<T>)
    ensures
        r == *a,
{
    Arc::clone(a)
}

pub open spec fn text_of(range: RangeExclusive, value: String) -> PosText {
    PosText { start: range.start, end: range.end, text: value@ }
}

/// The key range that belongs to an entry: the closest one before the end
/// of the entry.
pub open spec fn entry_key(n: TreeValue) -> RangeExclusive {
    closest_range_of(n.key.ranges@, n.pos.end)
}

pub open spec fn set_version_view(s: SourceView, v: OptKeyView) -> SourceView {
    match s {
        SourceView::Version { registry, .. } => SourceView::Version { value: v, registry },
        _ => SourceView::Version { value: v, registry: None },
    }
}

pub open spec fn set_registry_view(s: SourceView, k: KeyedView) -> SourceView {
    match s {
        SourceView::Version { value, .. } => SourceView::Version { value, registry: Some(k) },
        _ => SourceView::Version {
            value: OptKeyView { key: None, value: PosText { start: 0, end: 0, text: seq![] } },
            registry: Some(k),
        },
    }
}

pub open spec fn set_git_view(s: SourceView, k: KeyedView) -> SourceView {
    match s {
        SourceView::Git { rev, tag, branch, .. } => SourceView::Git { url: Some(k), rev, tag, branch },
        _ => SourceView::Git { url: Some(k), rev: None, tag: None, branch: None },
    }
}

pub open spec fn set_branch_view(s: SourceView, k: KeyedView) -> SourceView {
    match s {
        SourceView::Git { url, rev, tag, .. } => SourceView::Git { url, rev, tag, branch: Some(k) },
        _ => SourceView::Git { url: None, rev: None, tag: None, branch: Some(k) },
    }
}

pub open spec fn set_rev_view(s: SourceView, k: KeyedView) -> SourceView {
    match s {
        SourceView::Git { url, tag, branch, .. } => SourceView::Git { url, rev: Some(k), tag, branch },
        _ => SourceView::Git { url: None, rev: Some(k), tag: None, branch: None },
    }
}

pub open spec fn set_tag_view(s: SourceView, k: KeyedView) -> SourceView {
    match s {
        SourceView::Git { url, rev, branch, .. } => SourceView::Git { url, rev, tag: Some(k), branch },
        _ => SourceView::Git { url: None, rev: None, tag: Some(k), branch: None },
    }
}

/// The string elements of an array, with their ranges.
pub open spec fn string_items(vs: Seq<Value>) -> Seq<PosText>
    decreases vs.len(),
{
    if vs.len() == 0 {
        seq![]
    } else {
        let rest = string_items(vs.drop_last());
        match vs.last() {
            Value::String { value, range } => rest.push(text_of(range, value)),
            _ => rest,
        }
    }
}

/// What one entry of an inline or dotted dependency table changes.
pub open spec fn entry_effect(d: DependencyView, n: TreeValue) -> DependencyView {
    let k = entry_key(n);
    let key = n.key.value@;
    let keyed_string = match n.value {
        Value::String { value, range } => Some(KeyedView { key: k, value: text_of(range, value) }),
        _ => None,
    };
    if key == "version"@ {
        let v = match n.value {
            Value::String { value, range } => OptKeyView { key: Some(k), value: text_of(range, value) },
            _ => OptKeyView { key: Some(k), value: PosText { start: k.end, end: k.end, text: seq![] } },
        };
        DependencyView { source: set_version_view(d.source, v), ..d }
    } else if key == "registry"@ {
        match keyed_string {
            Some(w) => DependencyView { source: set_registry_view(d.source, w), ..d },
            None => d,
        }
    } else if key == "git"@ {
        match keyed_string {
            Some(w) => DependencyView { source: set_git_view(d.source, w), ..d },
            None => d,
        }
    } else if key == "path"@ {
        match keyed_string {
            Some(w) => DependencyView { source: SourceView::Path(w), ..d },
            None => d,
        }
    } else if key == "branch"@ {
        match keyed_string {
            Some(w) => DependencyView { source: set_branch_view(d.source, w), ..d },
            None => d,
        }
    } else if key == "tag"@ {
        match keyed_string {
            Some(w) => DependencyView { source: set_tag_view(d.source, w), ..d },
            None => d,
        }
    } else if key == "rev"@ {
        match keyed_string {
            Some(w) => DependencyView { source: set_rev_view(d.source, w), ..d },
            None => d,
        }
    } else if key == "features"@ {
        match n.value {
            Value::Array { value, range } => {
                let r = join_ranges(n.pos, range);
                DependencyView {
                    features_start: r.start,
                    features_end: r.end,
                    features_key_range: Some(k),
                    features: d.features + string_items(value@),
                    ..d
                }
            },
            _ => DependencyView { features_key_range: Some(k), ..d },
        }
    } else if key == "default-features"@ || key == "default_features"@ {
        match n.value {
            Value::Bool { value, range } => DependencyView {
                default_features: Some(Positioned { start: range.start, end: range.end, data: value }),
                ..d
            },
            _ => d,
        }
    } else if key == "optional"@ {
        match n.value {
            Value::Bool { value, range } => DependencyView {
                optional: Some(Positioned { start: range.start, end: range.end, data: value }),
                ..d
            },
            _ => d,
        }
    } else if key == "workspace"@ {
        let r = match value_range(n.value) {
            Some(v) => join_ranges(v, n.pos),
            None => n.pos,
        };
        DependencyView { source: SourceView::Workspace(r), ..d }
    } else {
        DependencyView { typing_keys: d.typing_keys.push(text_of(k, n.key.value)), ..d }
    }
}

/// The url, revision, tag and branch of a git source; none of them for
/// another source.
pub open spec fn git_parts(s: SourceView) -> (Option<KeyedView>, Option<KeyedView>, Option<KeyedView>, Option<KeyedView>) {
    match s {
        SourceView::Git { url, rev, tag, branch } => (url, rev, tag, branch),
        _ => (None, None, None, None),
    }
}

/// What a string entry holds: its text and range, with the entry's key
/// range.
pub open spec fn keyed_entry(n: TreeValue) -> Option<KeyedView> {
    match n.value {
        Value::String { value, range } => Some(KeyedView { key: entry_key(n), value: text_of(range, value) }),
        _ => None,
    }
}

/// How the string entries `git`, `rev`, `tag` and `branch` of a dependency
/// table set its source: each makes it a git source whose own part is the
/// entry, keeps the other three parts as they were (none unless it was a git
/// source), and changes nothing else of the dependency. A `path` entry makes
/// the source that path; a `registry` entry names the registry of a registry
/// source, keeping its version requirement.
pub proof fn lemma_git_entries(d: DependencyView, n: TreeValue)
    ensures
        keyed_entry(n) is Some ==> {
            let w = keyed_entry(n)->Some_0;
            let r = entry_effect(d, n);
            let (url, rev, tag, branch) = git_parts(d.source);
            &&& n.key.value@ == "git"@ ==> r.source is Git && git_parts(r.source) == (Some(w), rev, tag, branch)
                && r == DependencyView { source: r.source, ..d }
            &&& n.key.value@ == "rev"@ ==> r.source is Git && git_parts(r.source) == (url, Some(w), tag, branch)
                && r == DependencyView { source: r.source, ..d }
            &&& n.key.value@ == "tag"@ ==> r.source is Git && git_parts(r.source) == (url, rev, Some(w), branch)
                && r == DependencyView { source: r.source, ..d }
            &&& n.key.value@ == "branch"@ ==> r.source is Git && git_parts(r.source) == (url, rev, tag, Some(w))
                && r == DependencyView { source: r.source, ..d }
            &&& n.key.value@ == "path"@ ==> r == DependencyView { source: SourceView::Path(w), ..d }
            &&& n.key.value@ == "registry"@ ==> r.source is Version && r.source->Version_registry == Some(w)
                && (d.source is Version ==> r.source->Version_value == d.source->Version_value)
                && r == DependencyView { source: r.source, ..d }
        },
{
    reveal_strlit("version");
    reveal_strlit("registry");
    reveal_strlit("git");
    reveal_strlit("path");
    reveal_strlit("branch");
    reveal_strlit("tag");
    reveal_strlit("rev");
    if keyed_entry(n) is Some {
        let k = n.key.value@;
        assert("version"@.len() == 7 && "registry"@.len() == 8 && "git"@.len() == 3 && "path"@.len() == 4);
        assert("branch"@.len() == 6 && "tag"@.len() == 3 && "rev"@.len() == 3);
        assert("git"@[0] == 'g' && "tag"@[0] == 't' && "rev"@[0] == 'r');
        assert(k == "git"@ ==> k != "version"@ && k != "registry"@);
        assert(k == "rev"@ ==> k != "version"@ && k != "registry"@ && k != "git"@ && k != "path"@ && k != "branch"@
            && k != "tag"@);
        assert(k == "tag"@ ==> k != "version"@ && k != "registry"@ && k != "git"@ && k != "path"@ && k != "branch"@);
        assert(k == "branch"@ ==> k != "version"@ && k != "registry"@ && k != "git"@ && k != "path"@);
        assert(k == "path"@ ==> k != "version"@ && k != "registry"@ && k != "git"@);
        assert(k == "registry"@ ==> k != "version"@);
        match d.source {
            SourceView::Git { .. } => {},
            _ => {},
        }
    }
}

/// The effect of the entries of a dependency table, in order.
pub open spec fn entries_effect(d: DependencyView, nodes: Seq<TreeValue>) -> DependencyView
    decreases nodes.len(),
{
    if nodes.len() == 0 {
        d
    } else {
        entry_effect(entries_effect(d, nodes.drop_last()), nodes.last())
    }
}

fn string_value(n: &TreeValue, k: RangeExclusive) -> (r: Option<WithKey>)
    ensures
        match n.value {
            Value::String { value, range } => r matches Some(w) && keyed(w) == KeyedView { key: k, value: text_of(range, value) },
            _ => r is None,
        },
{
    match n.value.as_str() {
        Some(v) => Some(WithKey::new(k, v)),
        None => None,
    }
}

fn collect_strings(items: &Vec<Value>, out: &mut Vec<Positioned<String>>)
    ensures
        pos_texts(final(out)@) == pos_texts(old(out)@) + string_items(items@),
{
    let mut i: usize = 0;
    while i < items.len()
        invariant
            i <= items@.len(),
            pos_texts(out@) == pos_texts(old(out)@) + string_items(items@.take(i as int)),
        decreases items.len() - i,
    {
        assert(items@.take(i + 1).drop_last() == items@.take(i as int));
        let ghost before = out@;
        if let Some(f) = items[i].as_str() {
            out.push(f);
            assert(pos_texts(out@) == pos_texts(before).push(pos_text(f)));
        }
        i = i + 1;
    }
    assert(items@.take(items@.len() as int) == items@);
}

/// Applies one entry of a dependency table to `dep`.
fn apply_entry(tree_value: &TreeValue, dep: &mut Dependency)
    requires
        tree_value.key.ranges@.len() > 0,
    ensures
        final(dep)@ == entry_effect(old(dep)@, *tree_value),
        final(dep).name == old(dep).name,
        final(dep).target == old(dep).target,
{
    let k = tree_value.key.closest_range(tree_value.pos.end);
    let key = tree_value.key.value.as_str();
    if same_text(key, "version") {
        match tree_value.value.as_str() {
            Some(v) => dep.source.set_version(OptionalKey::with_key(k, v)),
            None => dep.source.set_version(
                OptionalKey::with_key(k, Positioned { start: k.end, end: k.end, data: String::new() }),
            ),
        }
    } else if same_text(key, "registry") {
        if let Some(w) = string_value(tree_value, k) {
            dep.source.set_registry(w);
        }
    } else if same_text(key, "git") {
        if let Some(w) = string_value(tree_value, k) {
            dep.source.set_git(w);
        }
    } else if same_text(key, "path") {
        if let Some(w) = string_value(tree_value, k) {
            dep.source.set_path(w);
        }
    } else if same_text(key, "branch") {
        if let Some(w) = string_value(tree_value, k) {
            dep.source.set_branch(w);
        }
    } else if same_text(key, "tag") {
        if let Some(w) = string_value(tree_value, k) {
            dep.source.set_tag(w);
        }
    } else if same_text(key, "rev") {
        if let Some(w) = string_value(tree_value, k) {
            dep.source.set_rev(w);
        }
    } else if same_text(key, "features") {
        match &tree_value.value {
            Value::Array { value, range } => {
                let range = tree_value.pos.join(range);
                dep.features.start = range.start;
                dep.features.end = range.end;
                dep.features_key_range = Some(k);
                collect_strings(value, &mut dep.features.data);
            },
            _ => {
                dep.features_key_range = Some(k);
            },
        }
    } else if same_text(key, "default-features") || same_text(key, "default_features") {
        if let Some(v) = tree_value.value.as_bool() {
            dep.default_features = Some(v);
        }
    } else if same_text(key, "optional") {
        if let Some(v) = tree_value.value.as_bool() {
            dep.optional = Some(v);
        }
    } else if same_text(key, "workspace") {
        let r = match tree_value.value.range() {
            Some(v) => v.join(&tree_value.pos),
            None => tree_value.pos,
        };
        dep.source.set_workspace(r);
    } else {
        let p = tree_value.key.to_positioned(tree_value.pos.end);
        let ghost before = dep.typing_keys@;
        dep.typing_keys.push(p);
        assert(pos_texts(dep.typing_keys@) == pos_texts(before).push(pos_text(p)));
    }
}

/// Applies the entries of a dependency table to `dep`.
fn dependency_tree_format_parser(value: &Tree, dep: &mut Dependency)
    requires
        tree_keys_ranged(*value),
    ensures
        final(dep)@ == entries_effect(old(dep)@, value.nodes@),
        final(dep).name == old(dep).name,
        final(dep).target == old(dep).target,
{
    proof { crate::tree::lemma_keys_ranged_all(value.nodes@); }
    let mut i: usize = 0;
    while i < value.nodes.len()
        invariant
            i <= value.nodes@.len(),
            forall|j: int| 0 <= j < value.nodes@.len() ==> (#[trigger] value.nodes@[j]).key.ranges@.len() > 0,
            dep@ == entries_effect(old(dep)@, value.nodes@.take(i as int)),
            dep.name == old(dep).name,
            dep.target == old(dep).target,
        decreases value.nodes.len() - i,
    {
        let tree_value = &value.nodes[i];
        assert(value.nodes@.take(i + 1).drop_last() == value.nodes@.take(i as int));
        assert(value.nodes@.take(i + 1).last() == *tree_value);
        apply_entry(tree_value, dep);
        i = i + 1;
    }
    assert(value.nodes@.take(value.nodes@.len() as int) == value.nodes@);
}

/// The dependency that an entry of a dependency table declares, before
/// any of its own entries: named by its key, from no source yet.
pub open spec fn fresh_dependency(n: TreeValue, kind: DependencyKind, tv: Seq<PosText>) -> DependencyView {
    DependencyView {
        name: text_of(entry_key(n), n.key.value),
        kind,
        source: SourceView::Unset,
        features_start: 0,
        features_end: 0,
        features: seq![],
        features_key_range: None,
        default_features: None,
        typing_keys: seq![],
        optional: None,
        expanded: true,
        targets: tv,
    }
}

/// The dependency that an entry declares: a table of entries (expanded
/// when written inline), a version requirement, or a bare key; other values
/// declare none.
pub open spec fn dependency_of(n: TreeValue, kind: DependencyKind, tv: Seq<PosText>) -> Option<DependencyView> {
    let d = fresh_dependency(n, kind, tv);
    match n.value {
        Value::Tree { value } => Some(
            DependencyView { expanded: value.kind == TableKind::Inline, ..entries_effect(d, value.nodes@) },
        ),
        Value::String { value, range } => Some(
            DependencyView {
                source: SourceView::Version {
                    value: OptKeyView { key: None, value: text_of(range, value) },
                    registry: None,
                },
                expanded: false,
                ..d
            },
        ),
        Value::NoContent => Some(DependencyView { expanded: false, ..d }),
        _ => None,
    }
}

/// A declared dependency and the range of its whole entry.
pub struct PlacedDependency {
    pub range: RangeExclusive,
    pub dependency: DependencyView,
}

/// The dependencies that the entries of a table declare, in order.
pub open spec fn dependencies_of(nodes: Seq<TreeValue>, kind: DependencyKind, tv: Seq<PosText>) -> Seq<PlacedDependency>
    decreases nodes.len(),
{
    if nodes.len() == 0 {
        seq![]
    } else {
        let rest = dependencies_of(nodes.drop_last(), kind, tv);
        match dependency_of(nodes.last(), kind, tv) {
            Some(d) => rest.push(PlacedDependency { range: nodes.last().pos, dependency: d }),
            None => rest,
        }
    }
}

pub open spec fn placed(ds: Seq<Positioned<Dependency>>) -> Seq<PlacedDependency> {
    ds.map_values(|d: Positioned<Dependency>| PlacedDependency { range: RangeExclusive { start: d.start, end: d.end }, dependency: d.data@ })
}

/// The dependencies that a dependency table declares; `None` when `value`
/// is not a table.
pub fn get_dependencies(
    value: &Value,
    kind: DependencyKind,
    targets: Arc<Vec<Positioned<Target>>>,
) -> (r: Option<Vec<Positioned<Dependency>>>)
    requires
        value_keys_ranged(*value),
    ensures
        match *value {
            Value::Tree { value: t } => r matches Some(ds) && placed(ds@) == dependencies_of(
                t.nodes@,
                kind,
                target_texts(targets@),
            ),
            _ => r is None,
        },
{
    let tree = match value.as_tree() {
        Some(t) => t,
        None => return None,
    };
    proof { crate::tree::lemma_keys_ranged_all(tree.nodes@); }
    let mut out: Vec<Positioned<Dependency>> = Vec::new();
    let mut i: usize = 0;
    while i < tree.nodes.len()
        invariant
            i <= tree.nodes@.len(),
            forall|j: int| 0 <= j < tree.nodes@.len() ==> (#[trigger] tree.nodes@[j]).key.ranges@.len() > 0,
            forall|j: int| 0 <= j < tree.nodes@.len() ==> value_keys_ranged((#[trigger] tree.nodes@[j]).value),
            placed(out@) == dependencies_of(tree.nodes@.take(i as int), kind, target_texts(targets@)),
        decreases tree.nodes.len() - i,
    {
        let dep_tree = &tree.nodes[i];
        assert(tree.nodes@.take(i + 1).drop_last() == tree.nodes@.take(i as int));
        assert(tree.nodes@.take(i + 1).last() == *dep_tree);
        if let Some(dep) = dependency_from_entry(dep_tree, kind, &targets) {
            let range = dep_tree.range();
            let ghost before = out@;
            out.push(Positioned { start: range.start, end: range.end, data: dep });
            assert(placed(out@) == placed(before).push(PlacedDependency { range: dep_tree.pos, dependency: dep@ }));
        }
        i = i + 1;
    }
    assert(tree.nodes@.take(tree.nodes@.len() as int) == tree.nodes@);
    Some(out)
}

fn dependency_from_entry(
    dep_tree: &TreeValue,
    kind: DependencyKind,
    targets: &Arc<Vec<Positioned<Target>>>,
) -> (r: Option<Dependency>)
    requires
        dep_tree.key.ranges@.len() > 0,
        value_keys_ranged(dep_tree.value),
    ensures
        match r {
            Some(d) => dependency_of(*dep_tree, kind, target_texts(targets@)) == Some(d@),
            None => dependency_of(*dep_tree, kind, target_texts(targets@)) is None,
        },
{
    let name = dep_tree.key.to_positioned(dep_tree.pos.end);
    let mut dep = Dependency {
        name,
        kind,
        expanded: true,
        source: DepSource::Unset,
        features: Positioned::new(0, 0, Vec::new()),
        optional: None,
        target: arc_clone(targets),
        default_features: None,
        features_key_range: None,
        typing_keys: Vec::new(),
    };
    assert(pos_texts(dep.features.data@) =~= Seq::<PosText>::empty());
    assert(pos_texts(dep.typing_keys@) =~= Seq::<PosText>::empty());
    assert(dep@ == fresh_dependency(*dep_tree, kind, target_texts(targets@)));
    match &dep_tree.value {
        Value::Tree { value } => {
            dependency_tree_format_parser(value, &mut dep);
            dep.expanded = value.kind == TableKind::Inline;
        },
        Value::String { value, range } => {
            dep.source = DepSource::Version {
                value: OptionalKey::no_key(Positioned { start: range.start, end: range.end, data: value.clone() }),
                registry: None,
            };
            dep.expanded = false;
        },
        Value::NoContent => {
            dep.expanded = false;
        },
        _ => {
            return None;
        },
    }
    Some(dep)
}

/// The entries of a feature list, read in order.
pub open spec fn args_of(items: Seq<PosText>) -> Seq<ArgView> {
    items.map_values(|p: PosText| arg_of(p))
}

/// The last offset that an entry of a feature list reaches, or `default`.
pub open spec fn max_arg_end(args: Seq<ArgView>, default: u32) -> u32
    decreases args.len(),
{
    if args.len() == 0 {
        default
    } else if args.len() == 1 {
        arg_range(args[0]).end
    } else {
        let m = max_arg_end(args.drop_last(), default);
        if arg_range(args.last()).end >= m { arg_range(args.last()).end } else { m }
    }
}

/// A declared feature and the range it covers.
pub struct PlacedFeature {
    pub range: RangeExclusive,
    pub feature: FeatureView,
}

/// The feature that an entry of the `[features]` table declares: a list
/// (its range reaching over the list's entries) or a bare key.
pub open spec fn feature_of(n: TreeValue) -> Option<PlacedFeature> {
    let k = entry_key(n);
    let name = text_of(k, n.key.value);
    match n.value {
        Value::Array { value, .. } => {
            let args = args_of(string_items(value@));
            let m = max_arg_end(args, k.end);
            Some(PlacedFeature {
                range: RangeExclusive { start: k.start, end: if k.end >= m { k.end } else { m } },
                feature: FeatureView { name, args },
            })
        },
        Value::NoContent => Some(PlacedFeature { range: k, feature: FeatureView { name, args: seq![] } }),
        _ => None,
    }
}

pub open spec fn features_of(nodes: Seq<TreeValue>) -> Seq<PlacedFeature>
    decreases nodes.len(),
{
    if nodes.len() == 0 {
        seq![]
    } else {
        let rest = features_of(nodes.drop_last());
        match feature_of(nodes.last()) {
            Some(f) => rest.push(f),
            None => rest,
        }
    }
}

pub open spec fn placed_features(fs: Seq<Positioned<Feature>>) -> Seq<PlacedFeature> {
    fs.map_values(|f: Positioned<Feature>| PlacedFeature { range: RangeExclusive { start: f.start, end: f.end }, feature: f.data@ })
}

/// Every string in the feature lists of the table keeps its offsets within
/// `u32` when read as an entry.
pub open spec fn feature_lists_fit(nodes: Seq<TreeValue>) -> bool {
    forall|i: int| 0 <= i < nodes.len() ==> list_fits(#[trigger] nodes[i].value)
}

/// Every string of an array keeps its offsets within `u32` when read as an
/// entry of a feature list.
pub open spec fn list_fits(v: Value) -> bool {
    match v {
        Value::Array { value, .. } => forall|j: int| 0 <= j < string_items(value@).len() ==> arg_fits(
            #[trigger] string_items(value@)[j],
        ),
        _ => true,
    }
}

proof fn lemma_string_items_fit(vs: Seq<Value>, k: int)
    requires
        0 <= k <= vs.len(),
    ensures
        string_items(vs.take(k)).len() <= string_items(vs).len(),
        forall|j: int| 0 <= j < string_items(vs.take(k)).len() ==> string_items(vs.take(k))[j] == string_items(vs)[j],
    decreases vs.len() - k,
{
    if k < vs.len() {
        lemma_string_items_fit(vs, k + 1);
        assert(vs.take(k + 1).drop_last() == vs.take(k));
    } else {
        assert(vs.take(k) == vs);
    }
}

fn feature_args(items: &Vec<Value>) -> (r: Vec<FeatureArgKind>)
    requires
        forall|j: int| 0 <= j < string_items(items@).len() ==> arg_fits(#[trigger] string_items(items@)[j]),
    ensures
        arg_views(r@) == args_of(string_items(items@)),
{
    let mut out: Vec<FeatureArgKind> = Vec::new();
    let mut i: usize = 0;
    while i < items.len()
        invariant
            i <= items@.len(),
            forall|j: int| 0 <= j < string_items(items@).len() ==> arg_fits(#[trigger] string_items(items@)[j]),
            arg_views(out@) == args_of(string_items(items@.take(i as int))),
        decreases items.len() - i,
    {
        assert(items@.take(i + 1).drop_last() == items@.take(i as int));
        proof { lemma_string_items_fit(items@, i + 1); }
        if let Some(v) = items[i].as_str() {
            let ghost p = pos_text(v);
            assert(string_items(items@.take(i + 1)) == string_items(items@.take(i as int)).push(p));
            assert(string_items(items@.take(i + 1))[string_items(items@.take(i as int)).len() as int] == p);
            let ghost idx = string_items(items@.take(i as int)).len() as int;
            assert(string_items(items@)[idx] == p);
            assert(arg_fits(string_items(items@)[idx]));
            assert(arg_fits(p));
            let a = FeatureArgKind::from(v);
            proof { lemma_arg_of(v, a); }
            let ghost before = out@;
            out.push(a);
            assert(arg_views(out@) == arg_views(before).push(a@));
            assert(args_of(string_items(items@.take(i + 1))) == args_of(string_items(items@.take(i as int))).push(
                arg_of(p),
            ));
        }
        i = i + 1;
    }
    assert(items@.take(items@.len() as int) == items@);
    out
}

fn max_end(args: &Vec<FeatureArgKind>, default: u32) -> (r: u32)
    ensures
        r == max_arg_end(arg_views(args@), default),
{
    let mut m = default;
    let mut i: usize = 0;
    while i < args.len()
        invariant
            i <= args@.len(),
            m == max_arg_end(arg_views(args@).take(i as int), default),
        decreases args.len() - i,
    {
        assert(arg_views(args@).take(i + 1).drop_last() == arg_views(args@).take(i as int));
        assert(arg_views(args@)[i as int] == args@[i as int]@);
        let e = args[i].range().end;
        if i == 0 || e >= m {
            m = e;
        }
        i = i + 1;
    }
    assert(arg_views(args@).take(args@.len() as int) == arg_views(args@));
    m
}

/// The features that the `[features]` table declares; `None` when `value`
/// is not a table.
pub fn get_features(value: &Value) -> (r: Option<Vec<Positioned<Feature>>>)
    requires
        value_keys_ranged(*value),
        value matches Value::Tree { value: t } ==> feature_lists_fit(t.nodes@),
    ensures
        match *value {
            Value::Tree { value: t } => r matches Some(fs) && placed_features(fs@) == features_of(t.nodes@),
            _ => r is None,
        },
{
    let tree = match value.as_tree() {
        Some(t) => t,
        None => return None,
    };
    proof { crate::tree::lemma_keys_ranged_all(tree.nodes@); }
    let mut out: Vec<Positioned<Feature>> = Vec::new();
    let mut i: usize = 0;
    while i < tree.nodes.len()
        invariant
            i <= tree.nodes@.len(),
            forall|j: int| 0 <= j < tree.nodes@.len() ==> (#[trigger] tree.nodes@[j]).key.ranges@.len() > 0,
            feature_lists_fit(tree.nodes@),
            placed_features(out@) == features_of(tree.nodes@.take(i as int)),
        decreases tree.nodes.len() - i,
    {
        let tree_value = &tree.nodes[i];
        assert(tree.nodes@.take(i + 1).drop_last() == tree.nodes@.take(i as int));
        assert(tree.nodes@.take(i + 1).last() == *tree_value);
        let name = tree_value.key.to_positioned(tree_value.pos.end);
        let range = tree_value.key.closest_range(tree_value.pos.end);
        let ghost before = out@;
        match &tree_value.value {
            Value::Array { value, .. } => {
                assert(tree.nodes@[i as int] == *tree_value);
                assert(list_fits(tree.nodes@[i as int].value));
                let args = feature_args(value);
                let max = max_end(&args, range.end);
                let end = if range.end >= max { range.end } else { max };
                out.push(Positioned { start: range.start, end, data: Feature { name, args } });
            },
            Value::NoContent => {
                let args: Vec<FeatureArgKind> = Vec::new();
                assert(arg_views(args@) =~= Seq::<ArgView>::empty());
                out.push(Positioned { start: range.start, end: range.end, data: Feature { name, args } });
            },
            _ => {},
        }
        assert(placed_features(out@) =~= features_of(tree.nodes@.take(i + 1)));
        i = i + 1;
    }
    assert(tree.nodes@.take(tree.nodes@.len() as int) == tree.nodes@);
    Some(out)
}

/// The mathematical value of a [`Toml`].
pub struct TomlView {
    pub workspace: bool,
    pub children: Seq<Seq<char>>,
    pub dependencies: Seq<PlacedDependency>,
    pub features: Seq<PlacedFeature>,
}

pub open spec fn texts(v: Seq<String>) -> Seq<Seq<char>> {
    v.map_values(|s: String| s@)
}

pub open spec fn toml_view(t: Toml) -> TomlView {
    TomlView {
        workspace: t.workspace,
        children: texts(t.children@),
        dependencies: placed(t.dependencies@),
        features: placed_features(t.features@),
    }
}

/// Both declarations: a workspace if either is, the lists one after the other.
pub open spec fn join_views(a: TomlView, b: TomlView) -> TomlView {
    TomlView {
        workspace: a.workspace || b.workspace,
        children: a.children + b.children,
        dependencies: a.dependencies + b.dependencies,
        features: a.features + b.features,
    }
}

/// The dependencies of a table value; none for another value.
pub open spec fn table_dependencies(v: Value, kind: DependencyKind, tv: Seq<PosText>) -> Seq<PlacedDependency> {
    match v {
        Value::Tree { value } => dependencies_of(value.nodes@, kind, tv),
        _ => seq![],
    }
}

/// The features of a table value; none for another value.
pub open spec fn table_features(v: Value) -> Seq<PlacedFeature> {
    match v {
        Value::Tree { value } => features_of(value.nodes@),
        _ => seq![],
    }
}

/// The strings of an array value; none for another value.
pub open spec fn members_of(v: Value) -> Seq<Seq<char>> {
    match v {
        Value::Array { value, .. } => string_items(value@).map_values(|p: PosText| p.text),
        _ => seq![],
    }
}

/// What a `[workspace]` table declares, entry by entry: members and
/// dependencies.
pub open spec fn workspace_entries(nodes: Seq<TreeValue>, tv: Seq<PosText>) -> (Seq<Seq<char>>, Seq<PlacedDependency>)
    decreases nodes.len(),
{
    if nodes.len() == 0 {
        (seq![], seq![])
    } else {
        let (m, d) = workspace_entries(nodes.drop_last(), tv);
        let n = nodes.last();
        let key = n.key.value@;
        if key == "members"@ || key == "default-members"@ {
            (m + members_of(n.value), d)
        } else if key == "dependencies"@ {
            (m, d + table_dependencies(n.value, DependencyKind::Normal, tv))
        } else {
            (m, d)
        }
    }
}

/// What a `[workspace]` value declares; `None` when it is not a table.
pub open spec fn workspace_of(v: Value, tv: Seq<PosText>) -> Option<(Seq<Seq<char>>, Seq<PlacedDependency>)> {
    match v {
        Value::Tree { value } => Some(workspace_entries(value.nodes@, tv)),
        _ => None,
    }
}

/// What the entries of a manifest table collect before they are combined.
pub struct Gathered {
    pub dependencies: Seq<PlacedDependency>,
    pub features: Seq<PlacedFeature>,
    pub targets: Seq<TomlView>,
    pub workspaces: Seq<Option<(Seq<Seq<char>>, Seq<PlacedDependency>)>>,
}

/// The target list that a key of a `[target]` table restricts to: the
/// expression inside `cfg(...)` (without the wrapper), or the whole key.
pub open spec fn target_of_key(sub: TreeValue) -> Seq<PosText> {
    let key = sub.key.value@;
    let r = entry_key(sub);
    if key.len() >= 5 && key.last() == ')' && key.take(4) == "cfg("@ {
        seq![PosText { start: (r.start + 4) as u32, end: (r.end - 1) as u32, text: key.subrange(4, key.len() - 1) }]
    } else {
        seq![PosText { start: r.start, end: r.end, text: key }]
    }
}

/// The entries of `nodes[..n]` collected.
pub open spec fn gather(nodes: Seq<TreeValue>, n: nat, tv: Seq<PosText>) -> Gathered
    decreases nodes, n,
{
    if n == 0 || n > nodes.len() {
        Gathered { dependencies: seq![], features: seq![], targets: seq![], workspaces: seq![] }
    } else {
        let g = gather(nodes, (n - 1) as nat, tv);
        let e = nodes[n - 1];
        let key = e.key.value@;
        if key == "dependencies"@ {
            Gathered { dependencies: g.dependencies + table_dependencies(e.value, DependencyKind::Normal, tv), ..g }
        } else if key == "dev-dependencies"@ {
            Gathered { dependencies: g.dependencies + table_dependencies(e.value, DependencyKind::Development, tv), ..g }
        } else if key == "build-dependencies"@ {
            Gathered { dependencies: g.dependencies + table_dependencies(e.value, DependencyKind::Build, tv), ..g }
        } else if key == "target"@ {
            match e.value {
                Value::Tree { value } => Gathered {
                    targets: g.targets + target_tables(value.nodes@, value.nodes@.len()),
                    ..g
                },
                _ => g,
            }
        } else if key == "features"@ {
            Gathered { features: g.features + table_features(e.value), ..g }
        } else if key == "workspace"@ {
            Gathered { workspaces: g.workspaces.push(workspace_of(e.value, tv)), ..g }
        } else {
            g
        }
    }
}

/// What the tables of a `[target]` table declare, each restricted to its
/// target.
pub open spec fn target_tables(subs: Seq<TreeValue>, n: nat) -> Seq<TomlView>
    decreases subs, n,
{
    if n == 0 || n > subs.len() {
        seq![]
    } else {
        let rest = target_tables(subs, (n - 1) as nat);
        match subs[n - 1].value {
            Value::Tree { value } => rest.push(toml_of(value, target_of_key(subs[n - 1]))),
            _ => rest,
        }
    }
}

/// The members that the workspace tables name, in order.
pub open spec fn workspace_members(ws: Seq<Option<(Seq<Seq<char>>, Seq<PlacedDependency>)>>) -> Seq<Seq<char>>
    decreases ws.len(),
{
    if ws.len() == 0 {
        seq![]
    } else {
        match ws.last() {
            Some((m, _)) => workspace_members(ws.drop_last()) + m,
            None => workspace_members(ws.drop_last()),
        }
    }
}

/// The dependencies that the workspace tables declare, in order.
pub open spec fn workspace_dependencies(ws: Seq<Option<(Seq<Seq<char>>, Seq<PlacedDependency>)>>) -> Seq<PlacedDependency>
    decreases ws.len(),
{
    if ws.len() == 0 {
        seq![]
    } else {
        match ws.last() {
            Some((_, d)) => workspace_dependencies(ws.drop_last()) + d,
            None => workspace_dependencies(ws.drop_last()),
        }
    }
}

/// The target tables joined in order.
pub open spec fn join_all(ts: Seq<TomlView>) -> TomlView
    decreases ts.len(),
{
    if ts.len() <= 1 {
        ts[0]
    } else {
        join_views(join_all(ts.drop_last()), ts.last())
    }
}

/// What a manifest table declares: with a `[workspace]` table, the
/// workspace's members and dependencies take the place of the package's
/// dependencies; the tables of `[target]` are joined after.
pub open spec fn toml_of(t: Tree, tv: Seq<PosText>) -> TomlView
    decreases t, 0nat,
{
    let g = gather(t.nodes@, t.nodes@.len(), tv);
    let workspace = g.workspaces.len() > 0;
    let r = TomlView {
        workspace,
        children: workspace_members(g.workspaces),
        dependencies: if workspace { workspace_dependencies(g.workspaces) } else { g.dependencies },
        features: g.features,
    };
    if g.targets.len() == 0 {
        r
    } else {
        join_views(r, join_all(g.targets))
    }
}

/// Whether a key of a `[target]` table is a `cfg(...)` expression whose
/// inner range stays within `u32`.
pub open spec fn cfg_fits(sub: TreeValue) -> bool {
    let key = sub.key.value@;
    key.len() >= 5 && key.last() == ')' && key.take(4) == "cfg("@ ==> entry_key(sub).start + 4 <= u32::MAX
        && entry_key(sub).end >= 1
}

/// What reading a manifest table needs: feature lists that stay within
/// `u32`, and `[target]` tables whose entries are tables that are readable
/// in turn.
pub open spec fn manifest_ok(t: Tree) -> bool
    decreases t, 0nat,
{
    entries_ok(t.nodes@, t.nodes@.len())
}

pub open spec fn entries_ok(nodes: Seq<TreeValue>, n: nat) -> bool
    decreases nodes, n,
{
    if n == 0 || n > nodes.len() {
        true
    } else {
        let e = nodes[n - 1];
        let key = e.key.value@;
        &&& entries_ok(nodes, (n - 1) as nat)
        &&& key == "features"@ ==> match e.value {
            Value::Tree { value } => feature_lists_fit(value.nodes@),
            _ => true,
        }
        &&& key == "target"@ ==> match e.value {
            Value::Tree { value } => target_entries_ok(value.nodes@, value.nodes@.len()),
            _ => false,
        }
    }
}

pub open spec fn target_entries_ok(subs: Seq<TreeValue>, n: nat) -> bool
    decreases subs, n,
{
    if n == 0 || n > subs.len() {
        true
    } else {
        &&& target_entries_ok(subs, (n - 1) as nat)
        &&& cfg_fits(subs[n - 1])
        &&& match subs[n - 1].value {
            Value::Tree { value } => manifest_ok(value),
            _ => false,
        }
    }
}

pub open spec fn workspace_views(
    ws: Seq<Option<(Vec<String>, Vec<Positioned<Dependency>>)>>,
) -> Seq<Option<(Seq<Seq<char>>, Seq<PlacedDependency>)>> {
    ws.map_values(
        |w: Option<(Vec<String>, Vec<Positioned<Dependency>>)>|
            match w {
                Some((m, d)) => Some((texts(m@), placed(d@))),
                None => None,
            },
    )
}

pub open spec fn toml_views(ts: Seq<Toml>) -> Seq<TomlView> {
    ts.map_values(|t: Toml| toml_view(t))
}

/// The strings of an array; `None` when `value` is not an array.
fn get_workspace_members(value: &Value) -> (r: Option<Vec<String>>)
    ensures
        match *value {
            Value::Array { .. } => r matches Some(m) && texts(m@) == members_of(*value),
            _ => r is None,
        },
{
    let items = match value.as_array() {
        Some(v) => v,
        None => return None,
    };
    let mut strs: Vec<Positioned<String>> = Vec::new();
    collect_strings(items, &mut strs);
    assert(pos_texts(strs@) == string_items(items@));
    let mut out: Vec<String> = Vec::new();
    let mut i: usize = 0;
    while i < strs.len()
        invariant
            i <= strs@.len(),
            pos_texts(strs@) == string_items(items@),
            texts(out@) == string_items(items@).take(i as int).map_values(|p: PosText| p.text),
        decreases strs.len() - i,
    {
        let ghost before = out@;
        out.push(strs[i].data.clone());
        assert(texts(out@) == texts(before).push(strs@[i as int].data@));
        assert(string_items(items@)[i as int] == pos_text(strs@[i as int]));
        assert(string_items(items@).take(i + 1).map_values(|p: PosText| p.text) == string_items(items@).take(
            i as int,
        ).map_values(|p: PosText| p.text).push(strs@[i as int].data@));
        i = i + 1;
    }
    assert(string_items(items@).take(strs@.len() as int) == string_items(items@));
    Some(out)
}

/// What a `[workspace]` table declares: its members and its dependencies;
/// `None` when `value` is not a table.
pub fn generate_workspace(
    value: &Value,
    targets: Arc<Vec<Positioned<Target>>>,
) -> (r: Option<(Vec<String>, Vec<Positioned<Dependency>>)>)
    requires
        value_keys_ranged(*value),
    ensures
        match r {
            Some((m, d)) => workspace_of(*value, target_texts(targets@)) == Some((texts(m@), placed(d@))),
            None => workspace_of(*value, target_texts(targets@)) is None,
        },
{
    let tree = match value.as_tree() {
        Some(t) => t,
        None => return None,
    };
    proof { crate::tree::lemma_keys_ranged_all(tree.nodes@); }
    let ghost tv = target_texts(targets@);
    let mut depend: Vec<Positioned<Dependency>> = Vec::new();
    let mut mem: Vec<String> = Vec::new();
    let mut i: usize = 0;
    while i < tree.nodes.len()
        invariant
            i <= tree.nodes@.len(),
            forall|j: int| 0 <= j < tree.nodes@.len() ==> value_keys_ranged((#[trigger] tree.nodes@[j]).value),
            tv == target_texts(targets@),
            (texts(mem@), placed(depend@)) == workspace_entries(tree.nodes@.take(i as int), tv),
        decreases tree.nodes.len() - i,
    {
        let tree_value = &tree.nodes[i];
        assert(tree.nodes@.take(i + 1).drop_last() == tree.nodes@.take(i as int));
        assert(tree.nodes@.take(i + 1).last() == *tree_value);
        let key = tree_value.key.value.as_str();
        if same_text(key, "members") || same_text(key, "default-members") {
            let mut m = match get_workspace_members(&tree_value.value) {
                Some(m) => m,
                None => Vec::new(),
            };
            assert(texts(m@) == members_of(tree_value.value));
            let ghost before = mem@;
            mem.append(&mut m);
            assert(texts(mem@) == texts(before) + members_of(tree_value.value));
        } else if same_text(key, "dependencies") {
            let mut d = match get_dependencies(&tree_value.value, DependencyKind::Normal, arc_clone(&targets)) {
                Some(d) => d,
                None => Vec::new(),
            };
            assert(placed(d@) == table_dependencies(tree_value.value, DependencyKind::Normal, tv));
            let ghost before = depend@;
            depend.append(&mut d);
            assert(placed(depend@) == placed(before) + table_dependencies(tree_value.value, DependencyKind::Normal, tv));
        }
        i = i + 1;
    }
    assert(tree.nodes@.take(tree.nodes@.len() as int) == tree.nodes@);
    Some((mem, depend))
}

/// The target that a key of a `[target]` table restricts to.
fn target_for_key(sub: &TreeValue) -> (r: Arc<Vec<Positioned<Target>>>)
    requires
        sub.key.ranges@.len() > 0,
        cfg_fits(*sub),
    ensures
        target_texts(r@) == target_of_key(*sub),
{
    let key = &sub.key.value;
    let range = sub.key.closest_range(sub.pos.end);
    let cs = crate::text::chars_of(key.as_str());
    let n = cs.len();
    if n >= 5 && cs[n - 1] == ')' && cs[0] == 'c' && cs[1] == 'f' && cs[2] == 'g' && cs[3] == '(' {
        assert(cs@.take(4) =~= "cfg("@) by {
            reveal_strlit("cfg(");
        }
        let inner = crate::text::string_from_range(&cs, 4, n - 1);
        let v = vec![Positioned { start: range.start + 4, end: range.end - 1, data: Target::Unknown(inner) }];
        assert(target_texts(v@) =~= target_of_key(*sub));
        Arc::new(v)
    } else {
        assert(!(cs@.len() >= 5 && cs@.last() == ')' && cs@.take(4) == "cfg("@)) by {
            reveal_strlit("cfg(");
            if cs@.len() >= 5 && cs@.take(4) == "cfg("@ {
                assert(cs@[0] == cs@.take(4)[0]);
                assert(cs@[1] == cs@.take(4)[1]);
                assert(cs@[2] == cs@.take(4)[2]);
                assert(cs@[3] == cs@.take(4)[3]);
            }
        }
        let v = vec![Positioned { start: range.start, end: range.end, data: Target::Unknown(key.clone()) }];
        assert(target_texts(v@) =~= target_of_key(*sub));
        Arc::new(v)
    }
}

/// What the tables of a `[target]` table declare, each restricted to its
/// target.
fn target_structs(tt: &Tree) -> (r: Vec<Toml>)
    requires
        tree_keys_ranged(*tt),
        target_entries_ok(tt.nodes@, tt.nodes@.len()),
    ensures
        toml_views(r@) == target_tables(tt.nodes@, tt.nodes@.len()),
    decreases *tt, 1nat,
{
    proof {
        crate::tree::lemma_keys_ranged_all(tt.nodes@);
        lemma_target_entries_ok(tt.nodes@, tt.nodes@.len());
    }
    let mut out: Vec<Toml> = Vec::new();
    let mut i: usize = 0;
    while i < tt.nodes.len()
        invariant
            i <= tt.nodes@.len(),
            forall|j: int| 0 <= j < tt.nodes@.len() ==> (#[trigger] tt.nodes@[j]).key.ranges@.len() > 0,
            forall|j: int| 0 <= j < tt.nodes@.len() ==> value_keys_ranged((#[trigger] tt.nodes@[j]).value),
            forall|j: int| 0 <= j < tt.nodes@.len() ==> cfg_fits(#[trigger] tt.nodes@[j]),
            forall|j: int| 0 <= j < tt.nodes@.len() ==> ((#[trigger] tt.nodes@[j]).value matches Value::Tree { value } && manifest_ok(value)),
            toml_views(out@) == target_tables(tt.nodes@, i as nat),
        decreases tt.nodes.len() - i,
    {
        let sub = &tt.nodes[i];
        assert(tt.nodes@[i as int] == *sub);
        let targets = target_for_key(sub);
        match &sub.value {
            Value::Tree { value } => {
                assert(decreases_to!(*tt => tt.nodes@[i as int].value));
                let t = to_struct(value, targets);
                let ghost before = out@;
                out.push(t);
                assert(toml_views(out@) == toml_views(before).push(toml_view(t)));
            },
            _ => {},
        }
        i = i + 1;
    }
    out
}

proof fn lemma_target_entries_ok(subs: Seq<TreeValue>, n: nat)
    requires
        target_entries_ok(subs, n),
        n <= subs.len(),
    ensures
        forall|j: int| 0 <= j < n ==> cfg_fits(#[trigger] subs[j]),
        forall|j: int| 0 <= j < n ==> ((#[trigger] subs[j]).value matches Value::Tree { value } && manifest_ok(value)),
    decreases n,
{
    if n > 0 {
        lemma_target_entries_ok(subs, (n - 1) as nat);
    }
}

proof fn lemma_entries_ok(nodes: Seq<TreeValue>, n: nat)
    requires
        entries_ok(nodes, n),
        n <= nodes.len(),
    ensures
        forall|j: int| 0 <= j < n && (#[trigger] nodes[j]).key.value@ == "features"@ ==> match nodes[j].value {
            Value::Tree { value } => feature_lists_fit(value.nodes@),
            _ => true,
        },
        forall|j: int| 0 <= j < n && (#[trigger] nodes[j]).key.value@ == "target"@ ==> match nodes[j].value {
            Value::Tree { value } => target_entries_ok(value.nodes@, value.nodes@.len()),
            _ => false,
        },
    decreases n,
{
    if n > 0 {
        lemma_entries_ok(nodes, (n - 1) as nat);
    }
}

/// What a manifest table declares; `target` is the target list that its
/// dependencies are restricted to.
pub fn to_struct(tree: &Tree, target: Arc<Vec<Positioned<Target>>>) -> (r: Toml)
    requires
        tree_keys_ranged(*tree),
        manifest_ok(*tree),
    ensures
        toml_view(r) == toml_of(*tree, target_texts(target@)),
    decreases *tree, 0nat,
{
    proof {
        crate::tree::lemma_keys_ranged_all(tree.nodes@);
        lemma_entries_ok(tree.nodes@, tree.nodes@.len());
    }
    let ghost tv = target_texts(target@);
    let mut dep: Vec<Positioned<Dependency>> = Vec::new();
    let mut features: Vec<Positioned<Feature>> = Vec::new();
    let mut tar: Vec<Toml> = Vec::new();
    let mut mem: Vec<Option<(Vec<String>, Vec<Positioned<Dependency>>)>> = Vec::new();
    let mut i: usize = 0;
    while i < tree.nodes.len()
        invariant
            i <= tree.nodes@.len(),
            tv == target_texts(target@),
            forall|j: int| 0 <= j < tree.nodes@.len() ==> value_keys_ranged((#[trigger] tree.nodes@[j]).value),
            forall|j: int| 0 <= j < tree.nodes@.len() && (#[trigger] tree.nodes@[j]).key.value@ == "features"@ ==> match tree.nodes@[j].value {
                Value::Tree { value } => feature_lists_fit(value.nodes@),
                _ => true,
            },
            forall|j: int| 0 <= j < tree.nodes@.len() && (#[trigger] tree.nodes@[j]).key.value@ == "target"@ ==> match tree.nodes@[j].value {
                Value::Tree { value } => target_entries_ok(value.nodes@, value.nodes@.len()),
                _ => false,
            },
            ({
                let g = gather(tree.nodes@, i as nat, tv);
                &&& placed(dep@) == g.dependencies
                &&& placed_features(features@) == g.features
                &&& toml_views(tar@) == g.targets
                &&& workspace_views(mem@) == g.workspaces
            }),
        decreases tree.nodes.len() - i,
    {
        let value = &tree.nodes[i];
        assert(tree.nodes@[i as int] == *value);
        let key = value.key.value.as_str();
        let ghost g = gather(tree.nodes@, i as nat, tv);
        if same_text(key, "dependencies") {
            let mut d = match get_dependencies(&value.value, DependencyKind::Normal, arc_clone(&target)) {
                Some(d) => d,
                None => Vec::new(),
            };
            let ghost before = dep@;
            dep.append(&mut d);
            assert(placed(dep@) == placed(before) + table_dependencies(value.value, DependencyKind::Normal, tv));
        } else if same_text(key, "dev-dependencies") {
            let mut d = match get_dependencies(&value.value, DependencyKind::Development, arc_clone(&target)) {
                Some(d) => d,
                None => Vec::new(),
            };
            let ghost before = dep@;
            dep.append(&mut d);
            assert(placed(dep@) == placed(before) + table_dependencies(value.value, DependencyKind::Development, tv));
        } else if same_text(key, "build-dependencies") {
            let mut d = match get_dependencies(&value.value, DependencyKind::Build, arc_clone(&target)) {
                Some(d) => d,
                None => Vec::new(),
            };
            let ghost before = dep@;
            dep.append(&mut d);
            assert(placed(dep@) == placed(before) + table_dependencies(value.value, DependencyKind::Build, tv));
        } else if same_text(key, "target") {
            match &value.value {
                Value::Tree { value: tt } => {
                    assert(value_keys_ranged(tree.nodes@[i as int].value));
                    assert(tree_keys_ranged(*tt));
                    assert(decreases_to!(*tree => tree.nodes@[i as int].value));
                    let mut t = target_structs(tt);
                    let ghost before = tar@;
                    tar.append(&mut t);
                    assert(toml_views(tar@) == toml_views(before) + target_tables(tt.nodes@, tt.nodes@.len()));
                },
                _ => {},
            }
        } else if same_text(key, "features") {
            let mut f = match get_features(&value.value) {
                Some(f) => f,
                None => Vec::new(),
            };
            let ghost before = features@;
            features.append(&mut f);
            assert(placed_features(features@) == placed_features(before) + table_features(value.value));
        } else if same_text(key, "workspace") {
            let w = generate_workspace(&value.value, arc_clone(&target));
            let ghost before = mem@;
            mem.push(w);
            assert(workspace_views(mem@) == workspace_views(before).push(workspace_of(value.value, tv)));
        }
        i = i + 1;
    }
    let ghost g = gather(tree.nodes@, tree.nodes@.len(), tv);
    let workspace = mem.len() > 0;
    assert(workspace == (g.workspaces.len() > 0));
    let (children, dep_w) = combine_workspaces(mem);
    let r = Toml {
        workspace,
        children,
        dependencies: if workspace { dep_w } else { dep },
        features,
    };
    let ghost base = TomlView {
        workspace: g.workspaces.len() > 0,
        children: workspace_members(g.workspaces),
        dependencies: if g.workspaces.len() > 0 { workspace_dependencies(g.workspaces) } else { g.dependencies },
        features: g.features,
    };
    assert(toml_view(r) == base);
    assert(toml_views(tar@).len() == tar@.len());
    match join_tables(tar) {
        Some(t) => {
            let j = r.join(t);
            proof { lemma_join_view(r, t, j); }
            j
        },
        None => r,
    }
}

/// The members and dependencies of all workspace tables, in order.
fn combine_workspaces(
    mem: Vec<Option<(Vec<String>, Vec<Positioned<Dependency>>)>>,
) -> (r: (Vec<String>, Vec<Positioned<Dependency>>))
    ensures
        texts(r.0@) == workspace_members(workspace_views(mem@)),
        placed(r.1@) == workspace_dependencies(workspace_views(mem@)),
{
    let ghost all = mem@;
    let mut strs: Vec<String> = Vec::new();
    let mut deps: Vec<Positioned<Dependency>> = Vec::new();
    for w in it: mem.into_iter()
        invariant
            it.seq() == all,
            texts(strs@) == workspace_members(workspace_views(all.take(it.index() as int))),
            placed(deps@) == workspace_dependencies(workspace_views(all.take(it.index() as int))),
    {
        assert(workspace_views(all.take(it.index() + 1)).drop_last() == workspace_views(all.take(it.index() as int)));
        assert(all.take(it.index() + 1).last() == w);
        if let Some((mut s, mut d)) = w {
            let ghost bs = strs@;
            let ghost bd = deps@;
            let ghost sv = s@;
            let ghost dv = d@;
            strs.append(&mut s);
            deps.append(&mut d);
            assert(texts(strs@) == texts(bs) + texts(sv));
            assert(placed(deps@) == placed(bd) + placed(dv));
        }
    }
    assert(all.take(all.len() as int) == all);
    (strs, deps)
}

/// The tables joined in order; `None` when there are none.
fn join_tables(tar: Vec<Toml>) -> (r: Option<Toml>)
    ensures
        tar@.len() == 0 ==> r is None,
        tar@.len() > 0 ==> (r matches Some(t) && toml_view(t) == join_all(toml_views(tar@))),
{
    let ghost all = tar@;
    let mut acc: Option<Toml> = None;
    for t in it: tar.into_iter()
        invariant
            it.seq() == all,
            it.index() == 0 ==> acc is None,
            it.index() > 0 ==> (acc matches Some(a) && toml_view(a) == join_all(toml_views(all.take(it.index() as int)))),
    {
        assert(toml_views(all.take(it.index() + 1)).drop_last() == toml_views(all.take(it.index() as int)));
        assert(all.take(it.index() + 1).last() == t);
        acc = match acc {
            None => Some(t),
            Some(a) => {
                let j = a.join(t);
                proof { lemma_join_view(a, t, j); }
                Some(j)
            },
        };
    }
    assert(all.take(all.len() as int) == all);
    acc
}

proof fn lemma_join_view(a: Toml, b: Toml, j: Toml)
    requires
        j.workspace == (a.workspace || b.workspace),
        j.children@ == a.children@ + b.children@,
        j.dependencies@ == a.dependencies@ + b.dependencies@,
        j.features@ == a.features@ + b.features@,
    ensures
        toml_view(j) == join_views(toml_view(a), toml_view(b)),
{
    assert(texts(j.children@) =~= texts(a.children@) + texts(b.children@));
    assert(placed(j.dependencies@) =~= placed(a.dependencies@) + placed(b.dependencies@));
    assert(placed_features(j.features@) =~= placed_features(a.features@) + placed_features(b.features@));
}

} // verus!
