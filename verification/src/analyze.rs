//! The checks run on a manifest: repeated features and dependencies,
//! dependencies that name a workspace they are not in, versions the registry
//! does not know, unknown features, and newer versions.
use vstd::prelude::*;
use crate::info_api::{CacheItemOut, Root1, optional_names, entry_keys, string_views};
use crate::rust_version::{parse_version, versions_match, version_order, RustVersion, VersionView};
use crate::text::{owned, push_str, same_text, string_from, join_with};
use crate::toml::{
    DepSource, Dependency, DependencyKind, OptionalKey, Positioned, Target, Toml, join_ranges,
    target_texts, PosText,
};
use crate::tree::RangeExclusive;

verus! {

/// How bad a finding is.
#[derive(Debug, Clone, Copy, PartialEq, Eq, Structural)]
pub enum Level {
    Warn,
    Error,
}

/// A finding placed at a line and a column.
#[derive(Debug)]
pub struct Warning {
    pub level: Level,
    pub msg: String,
    pub start: (usize, usize),
    pub end: (usize, usize),
}

/// A problem found at a range of the manifest.
#[derive(Debug, Clone)]
pub struct Finding {
    pub range: RangeExclusive,
    pub msg: String,
}

/// The mathematical value of a [`Finding`].
pub struct FindingView {
    pub range: RangeExclusive,
    pub msg: Seq<char>,
}

impl View for Finding {
    type V = FindingView;

    open spec fn view(&self) -> FindingView {
        FindingView { range: self.range, msg: self.msg@ }
    }
}

pub open spec fn finding_views(v: Seq<Finding>) -> Seq<FindingView> {
    v.map_values(|f: Finding| f@)
}

pub open spec fn range_of(p: Positioned<String>) -> RangeExclusive {
    RangeExclusive { start: p.start, end: p.end }
}

/// How often `t` is among the texts of `items`.
pub open spec fn text_count(items: Seq<Positioned<String>>, t: Seq<char>) -> nat
    decreases items.len(),
{
    if items.len() == 0 {
        0
    } else {
        text_count(items.drop_last(), t) + if items.last().data@ == t {
            1nat
        } else {
            0nat
        }
    }
}

/// A finding at each requested feature whose name is requested more than
/// once, in the order they are written.
pub open spec fn repeated_features(fs: Seq<Positioned<String>>, all: Seq<Positioned<String>>) -> Seq<FindingView>
    decreases fs.len(),
{
    if fs.len() == 0 {
        seq![]
    } else {
        let rest = repeated_features(fs.drop_last(), all);
        if text_count(all, fs.last().data@) > 1 {
            rest.push(FindingView { range: range_of(fs.last()), msg: "Duplicate feature name"@ })
        } else {
            rest
        }
    }
}

fn count_text(items: &Vec<Positioned<String>>, t: &str) -> (r: usize)
    ensures
        r == text_count(items@, t@),
{
    let mut n: usize = 0;
    let mut i: usize = 0;
    while i < items.len()
        invariant
            i <= items@.len(),
            n == text_count(items@.take(i as int), t@),
            n <= i,
        decreases items.len() - i,
    {
        assert(items@.take(i + 1).drop_last() == items@.take(i as int));
        if same_text(items[i].data.as_str(), t) {
            n = n + 1;
        }
        i = i + 1;
    }
    assert(items@.take(items@.len() as int) == items@);
    n
}

/// Findings at the features of `dep` that it requests more than once.
pub fn duplicate_features(dep: &Dependency) -> (r: Vec<Finding>)
    ensures
        finding_views(r@) == repeated_features(dep.features.data@, dep.features.data@),
{
    let fs = &dep.features.data;
    let mut out: Vec<Finding> = Vec::new();
    let mut i: usize = 0;
    while i < fs.len()
        invariant
            i <= fs@.len(),
            finding_views(out@) == repeated_features(fs@.take(i as int), fs@),
        decreases fs.len() - i,
    {
        assert(fs@.take(i + 1).drop_last() == fs@.take(i as int));
        let ghost before = out@;
        assert(finding_views(before).len() == before.len());
        if count_text(fs, fs[i].data.as_str()) > 1 {
            let f = Finding { range: RangeExclusive::from_positioned(&fs[i]), msg: owned("Duplicate feature name") };
            out.push(f);
            assert(finding_views(out@) =~= finding_views(before).push(f@));
        }
        i = i + 1;
    }
    assert(fs@.take(fs@.len() as int) == fs@);
    out
}

/// The name of a dependency table kind, as `Debug` writes it.
pub open spec fn kind_name(k: DependencyKind) -> Seq<char> {
    match k {
        DependencyKind::Normal => "Normal"@,
        DependencyKind::Development => "Development"@,
        DependencyKind::Build => "Build"@,
    }
}

pub open spec fn target_words(ts: Seq<PosText>) -> Seq<Seq<char>> {
    ts.map_values(|t: PosText| t.text)
}

/// What makes two dependencies the same one: the name, then the kind, then
/// the target platforms separated by spaces.
pub open spec fn dep_key(d: Dependency) -> Seq<char> {
    d.name.data@ + kind_name(d.kind) + join_with(target_words(target_texts(d.target@)), seq![' '])
}

fn dependency_key(d: &Dependency) -> (r: Vec<char>)
    ensures
        r@ == dep_key(*d),
{
    let mut out: Vec<char> = Vec::new();
    push_str(&mut out, d.name.data.as_str());
    match d.kind {
        DependencyKind::Normal => push_str(&mut out, "Normal"),
        DependencyKind::Development => push_str(&mut out, "Development"),
        DependencyKind::Build => push_str(&mut out, "Build"),
    }
    let ts = &*d.target;
    let mut words: Vec<Vec<char>> = Vec::new();
    let mut i: usize = 0;
    while i < ts.len()
        invariant
            i <= ts@.len(),
            *ts == *d.target,
            crate::text::views_of(words@) == target_words(target_texts(ts@)).take(i as int),
        decreases ts.len() - i,
    {
        let ghost before = words@;
        assert(crate::text::views_of(before).len() == before.len());
        let w = match &ts[i].data {
            Target::Unknown(s) => crate::text::chars_of(s.as_str()),
        };
        words.push(w);
        assert(crate::text::views_of(words@) =~= target_words(target_texts(ts@)).take(i + 1));
        i = i + 1;
    }
    assert(target_words(target_texts(ts@)).take(ts@.len() as int) == target_words(target_texts(ts@)));
    let sep = vec![' '];
    assert(sep@ =~= seq![' ']);
    let joined = crate::text::join_chars(&words, &sep);
    crate::text::append_chars(&mut out, &joined);
    out
}

/// How often `k` is the key of one of `deps`.
pub open spec fn key_count(deps: Seq<Positioned<Dependency>>, k: Seq<char>) -> nat
    decreases deps.len(),
{
    if deps.len() == 0 {
        0
    } else {
        key_count(deps.drop_last(), k) + if dep_key(deps.last().data) == k {
            1nat
        } else {
            0nat
        }
    }
}

/// A finding at the name of each dependency that is declared more than once
/// (same name, kind and targets), in the order they are written.
pub open spec fn repeated_dependencies(ds: Seq<Positioned<Dependency>>, all: Seq<Positioned<Dependency>>) -> Seq<FindingView>
    decreases ds.len(),
{
    if ds.len() == 0 {
        seq![]
    } else {
        let rest = repeated_dependencies(ds.drop_last(), all);
        if key_count(all, dep_key(ds.last().data)) > 1 {
            rest.push(FindingView { range: range_of(ds.last().data.name), msg: "Duplicate dependency name"@ })
        } else {
            rest
        }
    }
}

/// The target platforms of a dependency, separated by spaces.
pub open spec fn targets_joined(d: Dependency) -> Seq<char> {
    join_with(target_words(target_texts(d.target@)), seq![' '])
}

/// Whether two dependencies declare the same thing: the same name, the same
/// kind of table, and the same targets (separated by spaces).
pub open spec fn same_declaration(a: Dependency, b: Dependency) -> bool {
    &&& a.name.data@ == b.name.data@
    &&& a.kind == b.kind
    &&& targets_joined(a) == targets_joined(b)
}

/// Whether a name `y` that extends the name `x` does not go on with the
/// first letter of a table kind (`N`, `D`, `B`); only such names can make
/// the keys of different declarations meet.
pub open spec fn extends_apart(x: Seq<char>, y: Seq<char>) -> bool {
    x.len() < y.len() && y.take(x.len() as int) == x ==> y[x.len() as int] != 'N' && y[x.len() as int] != 'D'
        && y[x.len() as int] != 'B'
}

/// No dependency name extends another with the first letter of a table kind.
pub open spec fn names_apart(deps: Seq<Positioned<Dependency>>) -> bool {
    forall|i: int, j: int|
        0 <= i < deps.len() && 0 <= j < deps.len() ==> extends_apart(
            #[trigger] deps[i].data.name.data@,
            #[trigger] deps[j].data.name.data@,
        )
}

proof fn lemma_kind_first(k: DependencyKind)
    ensures
        kind_name(k).len() > 0,
        kind_name(k)[0] == match k {
            DependencyKind::Normal => 'N',
            DependencyKind::Development => 'D',
            DependencyKind::Build => 'B',
        },
{
    reveal_strlit("Normal");
    reveal_strlit("Development");
    reveal_strlit("Build");
}

/// Equal keys of declarations whose names are apart come from the same
/// name, kind and targets.
proof fn lemma_key_parts(a: Dependency, b: Dependency)
    requires
        dep_key(a) == dep_key(b),
        extends_apart(a.name.data@, b.name.data@),
        extends_apart(b.name.data@, a.name.data@),
    ensures
        same_declaration(a, b),
{
    let na = a.name.data@;
    let nb = b.name.data@;
    let ka = kind_name(a.kind);
    let kb = kind_name(b.kind);
    let ta = targets_joined(a);
    let tb = targets_joined(b);
    let key = dep_key(a);
    lemma_kind_first(a.kind);
    lemma_kind_first(b.kind);
    assert(key == na + ka + ta);
    assert(key == nb + kb + tb);
    if na.len() < nb.len() {
        assert(key.take(na.len() as int) =~= na);
        assert(key.take(na.len() as int) =~= nb.take(na.len() as int));
        assert(key[na.len() as int] == ka[0]);
        assert(key[na.len() as int] == nb[na.len() as int]);
    } else if nb.len() < na.len() {
        assert(key.take(nb.len() as int) =~= nb);
        assert(key.take(nb.len() as int) =~= na.take(nb.len() as int));
        assert(key[nb.len() as int] == kb[0]);
        assert(key[nb.len() as int] == na[nb.len() as int]);
    } else {
        assert(key.take(na.len() as int) =~= na);
        assert(key.take(na.len() as int) =~= nb);
        assert(key[na.len() as int] == ka[0]);
        assert(key[na.len() as int] == kb[0]);
        assert(a.kind == b.kind);
        assert(key.skip((na.len() + ka.len()) as int) =~= ta);
        assert(key.skip((na.len() + ka.len()) as int) =~= tb);
    }
}

proof fn lemma_count_positive(s: Seq<Positioned<Dependency>>, k: Seq<char>)
    requires
        key_count(s, k) > 0,
    ensures
        exists|j: int| 0 <= j < s.len() && dep_key(s[j].data) == k,
    decreases s.len(),
{
    if dep_key(s.last().data) != k {
        lemma_count_positive(s.drop_last(), k);
        let j = choose|j: int| 0 <= j < s.drop_last().len() && dep_key(s.drop_last()[j].data) == k;
        assert(s[j] == s.drop_last()[j]);
    } else {
        assert(dep_key(s[s.len() - 1].data) == k);
    }
}

proof fn lemma_count_other(s: Seq<Positioned<Dependency>>, k: Seq<char>, i: int)
    requires
        0 <= i < s.len(),
        dep_key(s[i].data) == k,
        key_count(s, k) > 1,
    ensures
        exists|j: int| 0 <= j < s.len() && j != i && dep_key(s[j].data) == k,
    decreases s.len(),
{
    let pre = s.drop_last();
    if i == s.len() - 1 {
        lemma_count_positive(pre, k);
        let j = choose|j: int| 0 <= j < pre.len() && dep_key(pre[j].data) == k;
        assert(s[j] == pre[j]);
    } else if dep_key(s.last().data) == k {
        assert(dep_key(s[s.len() - 1].data) == k);
    } else {
        assert(pre[i] == s[i]);
        lemma_count_other(pre, k, i);
        let j = choose|j: int| 0 <= j < pre.len() && j != i && dep_key(pre[j].data) == k;
        assert(s[j] == pre[j]);
    }
}

proof fn lemma_count_two(s: Seq<Positioned<Dependency>>, k: Seq<char>, i: int, j: int)
    requires
        0 <= i < s.len(),
        0 <= j < s.len(),
        i != j,
        dep_key(s[i].data) == k,
        dep_key(s[j].data) == k,
    ensures
        key_count(s, k) > 1,
    decreases s.len(),
{
    let pre = s.drop_last();
    if i == s.len() - 1 {
        assert(pre[j] == s[j]);
        lemma_count_one(pre, k, j);
    } else if j == s.len() - 1 {
        assert(pre[i] == s[i]);
        lemma_count_one(pre, k, i);
    } else {
        assert(pre[i] == s[i]);
        assert(pre[j] == s[j]);
        lemma_count_two(pre, k, i, j);
    }
}

proof fn lemma_count_one(s: Seq<Positioned<Dependency>>, k: Seq<char>, i: int)
    requires
        0 <= i < s.len(),
        dep_key(s[i].data) == k,
    ensures
        key_count(s, k) > 0,
    decreases s.len(),
{
    if i < s.len() - 1 {
        assert(s.drop_last()[i] == s[i]);
        lemma_count_one(s.drop_last(), k, i);
    }
}

/// The finding at the name of a dependency declared twice.
pub open spec fn duplicate_at(p: Positioned<Dependency>) -> FindingView {
    FindingView { range: range_of(p.data.name), msg: "Duplicate dependency name"@ }
}

proof fn lemma_repeated_sound(ds: Seq<Positioned<Dependency>>, all: Seq<Positioned<Dependency>>)
    ensures
        forall|k: int| 0 <= k < repeated_dependencies(ds, all).len() ==> exists|i: int| 0 <= i < ds.len()
            && key_count(all, dep_key(ds[i].data)) > 1 && #[trigger] repeated_dependencies(ds, all)[k] == duplicate_at(ds[i]),
    decreases ds.len(),
{
    if ds.len() > 0 {
        let pre = ds.drop_last();
        lemma_repeated_sound(pre, all);
        let rest = repeated_dependencies(pre, all);
        let r = repeated_dependencies(ds, all);
        let l = ds.len() - 1;
        assert(ds[l] == ds.last());
        assert forall|k: int| 0 <= k < r.len() implies exists|i: int| 0 <= i < ds.len() && key_count(
            all,
            dep_key(ds[i].data),
        ) > 1 && #[trigger] r[k] == duplicate_at(ds[i]) by {
            if k < rest.len() {
                assert(r[k] == rest[k]);
                let i = choose|i: int| 0 <= i < pre.len() && key_count(all, dep_key(pre[i].data)) > 1 && rest[k] == duplicate_at(pre[i]);
                assert(pre[i] == ds[i]);
            } else {
                assert(r[k] == duplicate_at(ds[l]));
            }
        }
    }
}

proof fn lemma_repeated_complete(ds: Seq<Positioned<Dependency>>, all: Seq<Positioned<Dependency>>, i: int)
    requires
        0 <= i < ds.len(),
        key_count(all, dep_key(ds[i].data)) > 1,
    ensures
        exists|k: int| 0 <= k < repeated_dependencies(ds, all).len() && #[trigger] repeated_dependencies(ds, all)[k] == duplicate_at(ds[i]),
    decreases ds.len(),
{
    let pre = ds.drop_last();
    let rest = repeated_dependencies(pre, all);
    let r = repeated_dependencies(ds, all);
    let l = ds.len() - 1;
    assert(ds[l] == ds.last());
    if i == l {
        assert(r[rest.len() as int] == duplicate_at(ds[l]));
    } else {
        assert(pre[i] == ds[i]);
        lemma_repeated_complete(pre, all, i);
        let k = choose|k: int| 0 <= k < rest.len() && rest[k] == duplicate_at(pre[i]);
        assert(r[k] == rest[k]);
    }
}

/// Whether `f` is the finding at the name of a dependency that another one
/// declares the same way.
pub open spec fn declared_twice_at(deps: Seq<Positioned<Dependency>>, f: FindingView) -> bool {
    exists|i: int, j: int|
        0 <= i < deps.len() && 0 <= j < deps.len() && i != j && same_declaration(deps[i].data, deps[j].data) && f
            == duplicate_at(deps[i])
}

/// Which dependencies are reported as declared twice: a finding is at the
/// name of a dependency that another one declares the same way (same name,
/// kind and targets), as long as no name extends another with the first
/// letter of a table kind; and every dependency declared the same way as
/// another gets a finding.
pub proof fn lemma_duplicates_are_same_declarations(deps: Seq<Positioned<Dependency>>)
    ensures
        names_apart(deps) ==> forall|k: int| 0 <= k < repeated_dependencies(deps, deps).len() ==> declared_twice_at(
            deps,
            #[trigger] repeated_dependencies(deps, deps)[k],
        ),
        forall|i: int, j: int|
            0 <= i < deps.len() && 0 <= j < deps.len() && i != j && #[trigger] same_declaration(deps[i].data, deps[j].data)
                ==> exists|k: int| 0 <= k < repeated_dependencies(deps, deps).len() && repeated_dependencies(deps, deps)[k]
                == duplicate_at(deps[i]),
{
    lemma_repeated_sound(deps, deps);
    let r = repeated_dependencies(deps, deps);
    if names_apart(deps) {
        assert forall|k: int| 0 <= k < r.len() implies declared_twice_at(deps, #[trigger] r[k]) by {
            let i = choose|i: int| 0 <= i < deps.len() && key_count(deps, dep_key(deps[i].data)) > 1 && r[k] == duplicate_at(deps[i]);
            lemma_count_other(deps, dep_key(deps[i].data), i);
            let j = choose|j: int| 0 <= j < deps.len() && j != i && dep_key(deps[j].data) == dep_key(deps[i].data);
            assert(extends_apart(deps[i].data.name.data@, deps[j].data.name.data@));
            assert(extends_apart(deps[j].data.name.data@, deps[i].data.name.data@));
            lemma_key_parts(deps[i].data, deps[j].data);
            assert(0 <= i < deps.len() && 0 <= j < deps.len() && i != j && same_declaration(deps[i].data, deps[j].data)
                && r[k] == duplicate_at(deps[i]));
            assert(declared_twice_at(deps, r[k]));
        }
    }
    assert forall|i: int, j: int|
        0 <= i < deps.len() && 0 <= j < deps.len() && i != j && #[trigger] same_declaration(deps[i].data, deps[j].data) implies exists|k: int|
        0 <= k < r.len() && r[k] == duplicate_at(deps[i]) by {
        assert(dep_key(deps[i].data) == dep_key(deps[j].data));
        lemma_count_two(deps, dep_key(deps[i].data), i, j);
        lemma_repeated_complete(deps, deps, i);
    }
}

fn same_chars(a: &Vec<char>, b: &Vec<char>) -> (r: bool)
    ensures
        r == (a@ == b@),
{
    let s = crate::text::lex_sign(a, b);
    proof { crate::order::lemma_char_seq_order_basics(a@, b@); }
    s == 0
}

/// Findings at the names of the dependencies declared more than once.
pub fn duplicate_dependencies(deps: &Vec<Positioned<Dependency>>) -> (r: Vec<Finding>)
    ensures
        finding_views(r@) == repeated_dependencies(deps@, deps@),
        names_apart(deps@) ==> forall|k: int| 0 <= k < r@.len() ==> declared_twice_at(deps@, #[trigger] finding_views(r@)[k]),
        forall|i: int, j: int|
            0 <= i < deps@.len() && 0 <= j < deps@.len() && i != j && #[trigger] same_declaration(deps@[i].data, deps@[j].data)
                ==> exists|k: int| 0 <= k < r@.len() && finding_views(r@)[k] == duplicate_at(deps@[i]),
{
    let mut keys: Vec<Vec<char>> = Vec::new();
    let mut i: usize = 0;
    while i < deps.len()
        invariant
            i <= deps@.len(),
            keys@.len() == i,
            forall|k: int| 0 <= k < i ==> (#[trigger] keys@[k])@ == dep_key(deps@[k].data),
        decreases deps.len() - i,
    {
        keys.push(dependency_key(&deps[i].data));
        i = i + 1;
    }
    let mut out: Vec<Finding> = Vec::new();
    let mut i: usize = 0;
    while i < deps.len()
        invariant
            i <= deps@.len(),
            keys@.len() == deps@.len(),
            forall|k: int| 0 <= k < deps@.len() ==> (#[trigger] keys@[k])@ == dep_key(deps@[k].data),
            finding_views(out@) == repeated_dependencies(deps@.take(i as int), deps@),
        decreases deps.len() - i,
    {
        assert(deps@.take(i + 1).drop_last() == deps@.take(i as int));
        let mut n: usize = 0;
        let mut j: usize = 0;
        while j < deps.len()
            invariant
                j <= deps@.len(),
                i < deps@.len(),
                keys@.len() == deps@.len(),
                forall|k: int| 0 <= k < deps@.len() ==> (#[trigger] keys@[k])@ == dep_key(deps@[k].data),
                n == key_count(deps@.take(j as int), dep_key(deps@[i as int].data)),
                n <= j,
            decreases deps.len() - j,
        {
            assert(deps@.take(j + 1).drop_last() == deps@.take(j as int));
            if same_chars(&keys[j], &keys[i]) {
                n = n + 1;
            }
            j = j + 1;
        }
        assert(deps@.take(deps@.len() as int) == deps@);
        let ghost before = out@;
        assert(finding_views(before).len() == before.len());
        if n > 1 {
            let f = Finding {
                range: RangeExclusive::from_positioned(&deps[i].data.name),
                msg: owned("Duplicate dependency name"),
            };
            out.push(f);
            assert(finding_views(out@) =~= finding_views(before).push(f@));
        }
        i = i + 1;
    }
    assert(deps@.take(deps@.len() as int) == deps@);
    proof { lemma_duplicates_are_same_declarations(deps@); }
    out
}

/// The range of a source's version requirement with its key, or of its
/// `workspace = true` entry.
pub open spec fn source_range(s: DepSource) -> Option<RangeExclusive> {
    match s {
        DepSource::Version { value, .. } => {
            let v = RangeExclusive { start: value.value.start, end: value.value.end };
            Some(
                match value.key {
                    Some(k) => join_ranges(v, k),
                    None => v,
                },
            )
        },
        DepSource::Workspace(w) => Some(w),
        _ => None,
    }
}

/// The first dependency of `deps` with the given name.
pub open spec fn first_named(deps: Seq<Positioned<Dependency>>, name: Seq<char>) -> Option<int>
    decreases deps.len(),
{
    if deps.len() == 0 {
        None
    } else if deps[0].data.name.data@ == name {
        Some(0)
    } else {
        match first_named(deps.drop_first(), name) {
            Some(i) => Some(i + 1),
            None => None,
        }
    }
}

/// The source that decides a dependency's version, with the range to report
/// on: its own source and range; for `workspace = true`, the source of the
/// workspace's dependency of the same name with the range of the entry, or
/// nothing when there is no such dependency.
pub open spec fn resolved_source(dep: Dependency, ws: Option<Toml>) -> Option<(DepSource, Option<RangeExclusive>)> {
    match dep.source {
        DepSource::Workspace(range) => match ws {
            Some(w) => match first_named(w.dependencies@, dep.name.data@) {
                Some(i) => Some((w.dependencies@[i].data.source, Some(range))),
                None => None,
            },
            None => None,
        },
        _ => Some((dep.source, source_range(dep.source))),
    }
}

fn find_named(deps: &Vec<Positioned<Dependency>>, name: &str) -> (r: Option<usize>)
    ensures
        match r {
            Some(i) => first_named(deps@, name@) == Some(i as int) && i < deps@.len(),
            None => first_named(deps@, name@) is None,
        },
{
    let mut i: usize = 0;
    assert(deps@.skip(0) == deps@);
    while i < deps.len()
        invariant
            i <= deps@.len(),
            first_named(deps@, name@) == match first_named(deps@.skip(i as int), name@) {
                Some(j) => Some(j + i),
                None => None::<int>,
            },
        decreases deps.len() - i,
    {
        assert(deps@.skip(i as int).drop_first() == deps@.skip(i + 1));
        if same_text(deps[i].data.name.data.as_str(), name) {
            return Some(i);
        }
        i = i + 1;
    }
    None
}

/// The source that decides a dependency's version (see `resolved_source`).
pub fn resolve_source<'a>(dep: &'a Dependency, workspace: Option<&'a Toml>) -> (r: Option<(&'a DepSource, Option<RangeExclusive>)>)
    ensures
        match resolved_source(*dep, match workspace { Some(w) => Some(*w), None => None }) {
            Some((s, range)) => r matches Some((rs, rr)) && *rs == s && rr == range,
            None => r is None,
        },
{
    match &dep.source {
        DepSource::Workspace(range) => match workspace {
            Some(w) => match find_named(&w.dependencies, dep.name.data.as_str()) {
                Some(i) => Some((&w.dependencies[i].data.source, Some(*range))),
                None => None,
            },
            None => None,
        },
        _ => Some((&dep.source, dep.source.range())),
    }
}

/// What to ask the registry about for a dependency: its registry (if not the
/// default one) and its name, when its version comes from a registry.
pub fn info_request(dep: &Dependency, workspace: Option<&Toml>) -> (r: Option<(Option<String>, String)>)
    ensures
        match resolved_source(*dep, match workspace { Some(w) => Some(*w), None => None }) {
            Some((DepSource::Version { registry, .. }, _)) => r matches Some((reg, name)) && name@ == dep.name.data@
                && match registry {
                Some(w) => reg matches Some(x) && x@ == w.value.data@,
                None => reg is None,
            },
            _ => r is None,
        },
{
    match resolve_source(dep, workspace) {
        Some((DepSource::Version { registry, .. }, _)) => {
            let reg = match registry {
                Some(w) => Some(w.value.data.clone()),
                None => None,
            };
            Some((reg, dep.name.data.clone()))
        },
        _ => None,
    }
}

/// The version an index entry announces, when it reads as one.
pub open spec fn entry_version(e: Root1) -> Option<VersionView> {
    match parse_version(e.vers@) {
        Ok(v) => Some(v),
        Err(_) => None,
    }
}

/// The last entry whose version matches `ver`.
pub open spec fn last_matching(items: Seq<Root1>, ver: VersionView) -> Option<int>
    decreases items.len(),
{
    if items.len() == 0 {
        None
    } else if entry_version(items.last()) matches Some(v) && versions_match(v, ver) {
        Some(items.len() - 1)
    } else {
        last_matching(items.drop_last(), ver)
    }
}

/// Whether index entry `i` announces a version that meets the requirement
/// `ver`.
pub open spec fn entry_meets(items: Seq<Root1>, i: int, ver: VersionView) -> bool {
    0 <= i < items.len() && parse_version(items[i].vers@) is Ok && versions_match(
        parse_version(items[i].vers@)->Ok_0,
        ver,
    )
}

proof fn lemma_last_matching(items: Seq<Root1>, ver: VersionView)
    ensures
        last_matching(items, ver) matches Some(i) ==> entry_meets(items, i, ver) && forall|j: int|
            i < j < items.len() ==> !#[trigger] entry_meets(items, j, ver),
        last_matching(items, ver) is None ==> forall|j: int| !#[trigger] entry_meets(items, j, ver),
    decreases items.len(),
{
    if items.len() > 0 {
        let pre = items.drop_last();
        lemma_last_matching(pre, ver);
        assert(items.last() == items[items.len() - 1]);
        assert forall|j: int| 0 <= j < pre.len() implies (entry_meets(pre, j, ver) <==> entry_meets(items, j, ver)) by {
            assert(pre[j] == items[j]);
        }
    }
}

/// The last entry with a version after `ver`, among the releases only when
/// `stable_only`.
pub open spec fn last_newer(items: Seq<Root1>, ver: VersionView, stable_only: bool) -> Option<int>
    decreases items.len(),
{
    if items.len() == 0 {
        None
    } else if entry_version(items.last()) matches Some(v) && (stable_only ==> v.pre is None) && version_order(
        v,
        ver,
    ) > 0 {
        Some(items.len() - 1)
    } else {
        last_newer(items.drop_last(), ver, stable_only)
    }
}

/// Every name a feature of an index entry can enable.
pub open spec fn entry_feature_names(p: Root1) -> Seq<Seq<char>> {
    optional_names(p.deps@) + entry_keys(p.features@) + match p.features2 {
        Some(f2) => entry_keys(f2@),
        None => seq![],
    }
}

/// A finding at each requested feature that `names` does not hold.
pub open spec fn unknown_features(fs: Seq<Positioned<String>>, names: Seq<Seq<char>>) -> Seq<FindingView>
    decreases fs.len(),
{
    if fs.len() == 0 {
        seq![]
    } else {
        let rest = unknown_features(fs.drop_last(), names);
        if !names.contains(fs.last().data@) {
            rest.push(FindingView { range: range_of(fs.last()), msg: "Unknown Feature"@ })
        } else {
            rest
        }
    }
}

/// What the check of one dependency found, and whether the registry must be
/// asked about it.
pub struct CheckView {
    pub errors: Seq<FindingView>,
    pub warnings: Seq<FindingView>,
    pub fetch: bool,
}

/// The check of a dependency whose version `value` comes from a registry,
/// reported at `range`, against what the registry holds. Nothing is found
/// while the registry has not answered (then it is asked), nor for a
/// requirement that does not read as a version. Otherwise the last entry
/// whose version matches gives the known features, and the last newer entry
/// (a release when `stable_only`) gives a warning; when no entry matches,
/// the version is invalid.
pub open spec fn version_check(
    dep: Dependency,
    value: OptionalKey,
    range: RangeExclusive,
    info: Option<CacheItemOut<Root1>>,
    stable_only: bool,
) -> CheckView {
    match info {
        Some(CacheItemOut::Error(e)) => CheckView {
            errors: seq![FindingView { range: range_of(dep.name), msg: e@ }],
            warnings: seq![],
            fetch: false,
        },
        Some(CacheItemOut::Ready(items)) => match parse_version(value.value.data@) {
            Ok(ver) => match last_matching(items@, ver) {
                Some(i) => CheckView {
                    errors: unknown_features(dep.features.data@, entry_feature_names(items@[i])),
                    warnings: match last_newer(items@, ver, stable_only) {
                        Some(j) => seq![
                            FindingView { range, msg: "Newer version available: "@ + items@[j].vers@ },
                        ],
                        None => seq![],
                    },
                    fetch: false,
                },
                None => CheckView {
                    errors: seq![FindingView { range, msg: "Invalid version"@ }],
                    warnings: seq![],
                    fetch: false,
                },
            },
            Err(_) => CheckView { errors: seq![], warnings: seq![], fetch: false },
        },
        _ => CheckView { errors: seq![], warnings: seq![], fetch: true },
    }
}

/// Whether index entry `i` announces a version after `ver` (a release when
/// `stable_only`).
pub open spec fn entry_newer(items: Seq<Root1>, i: int, ver: VersionView, stable_only: bool) -> bool {
    &&& 0 <= i < items.len()
    &&& parse_version(items[i].vers@) is Ok
    &&& (stable_only ==> parse_version(items[i].vers@)->Ok_0.pre is None)
    &&& version_order(parse_version(items[i].vers@)->Ok_0, ver) > 0
}

proof fn lemma_last_newer(items: Seq<Root1>, ver: VersionView, stable_only: bool)
    ensures
        last_newer(items, ver, stable_only) matches Some(i) ==> entry_newer(items, i, ver, stable_only) && forall|j: int|
            i < j < items.len() ==> !#[trigger] entry_newer(items, j, ver, stable_only),
        last_newer(items, ver, stable_only) is None ==> forall|j: int| !#[trigger] entry_newer(items, j, ver, stable_only),
    decreases items.len(),
{
    if items.len() > 0 {
        let pre = items.drop_last();
        lemma_last_newer(pre, ver, stable_only);
        assert(items.last() == items[items.len() - 1]);
        assert forall|j: int| 0 <= j < pre.len() implies (entry_newer(pre, j, ver, stable_only) <==> entry_newer(
            items,
            j,
            ver,
            stable_only,
        )) by {
            assert(pre[j] == items[j]);
        }
    }
}

/// The unknown-feature findings: each is at a requested feature that
/// `names` does not hold, and every such feature has one.
pub proof fn lemma_unknown_features(fs: Seq<Positioned<String>>, names: Seq<Seq<char>>)
    ensures
        forall|k: int| 0 <= k < unknown_features(fs, names).len() ==> exists|i: int| 0 <= i < fs.len() && !names.contains(
            fs[i].data@,
        ) && #[trigger] unknown_features(fs, names)[k] == (FindingView { range: range_of(fs[i]), msg: "Unknown Feature"@ }),
        forall|i: int| 0 <= i < fs.len() && !names.contains(#[trigger] fs[i].data@) ==> exists|k: int| 0 <= k < unknown_features(
            fs,
            names,
        ).len() && unknown_features(fs, names)[k] == (FindingView { range: range_of(fs[i]), msg: "Unknown Feature"@ }),
    decreases fs.len(),
{
    if fs.len() > 0 {
        let pre = fs.drop_last();
        lemma_unknown_features(pre, names);
        let rest = unknown_features(pre, names);
        let r = unknown_features(fs, names);
        let l = fs.len() - 1;
        assert(fs[l] == fs.last());
        assert forall|i: int| 0 <= i < pre.len() implies pre[i] == fs[i] by {}
        assert forall|k: int| 0 <= k < r.len() implies exists|i: int| 0 <= i < fs.len() && !names.contains(fs[i].data@)
            && #[trigger] r[k] == (FindingView { range: range_of(fs[i]), msg: "Unknown Feature"@ }) by {
            if k < rest.len() {
                assert(r[k] == rest[k]);
                let i = choose|i: int| 0 <= i < pre.len() && !names.contains(pre[i].data@) && rest[k] == (FindingView {
                    range: range_of(pre[i]),
                    msg: "Unknown Feature"@,
                });
                assert(pre[i] == fs[i]);
            } else {
                assert(r[k] == (FindingView { range: range_of(fs[l]), msg: "Unknown Feature"@ }));
            }
        }
        assert forall|i: int| 0 <= i < fs.len() && !names.contains(#[trigger] fs[i].data@) implies exists|k: int| 0 <= k
            < r.len() && r[k] == (FindingView { range: range_of(fs[i]), msg: "Unknown Feature"@ }) by {
            if i == l {
                assert(r[rest.len() as int] == (FindingView { range: range_of(fs[l]), msg: "Unknown Feature"@ }));
            } else {
                assert(pre[i] == fs[i]);
                assert(!names.contains(pre[i].data@));
                let k = choose|k: int| 0 <= k < rest.len() && rest[k] == (FindingView {
                    range: range_of(pre[i]),
                    msg: "Unknown Feature"@,
                });
                assert(r[k] == rest[k]);
            }
        }
    }
}

/// Which index entry the features of a registry dependency are checked
/// against: one that meets the requirement and after which no entry meets
/// it (the newest of the matching releases as the index lists them); when no
/// entry meets the requirement, the version is reported invalid.
pub proof fn lemma_features_from_last_match(
    dep: Dependency,
    value: OptionalKey,
    range: RangeExclusive,
    items: Vec<Root1>,
    stable_only: bool,
)
    requires
        parse_version(value.value.data@) is Ok,
    ensures
        ({
            let ver = parse_version(value.value.data@)->Ok_0;
            let c = version_check(dep, value, range, Some(CacheItemOut::Ready(items)), stable_only);
            &&& (exists|i: int| entry_meets(items@, i, ver)) ==> exists|i: int|
                #[trigger] entry_meets(items@, i, ver) && (forall|j: int| i < j < items@.len() ==> !#[trigger] entry_meets(items@, j, ver))
                    && c.errors == unknown_features(dep.features.data@, entry_feature_names(items@[i]))
            &&& (forall|i: int| !#[trigger] entry_meets(items@, i, ver)) ==> c.errors == seq![
                FindingView { range, msg: "Invalid version"@ },
            ] && c.warnings == Seq::<FindingView>::empty()
            &&& (exists|i: int| entry_meets(items@, i, ver)) && (exists|j: int| entry_newer(items@, j, ver, stable_only))
                ==> exists|j: int| #[trigger] entry_newer(items@, j, ver, stable_only) && (forall|x: int| j < x < items@.len()
                ==> !#[trigger] entry_newer(items@, x, ver, stable_only)) && c.warnings == seq![
                FindingView { range, msg: "Newer version available: "@ + items@[j].vers@ },
            ]
            &&& (forall|j: int| !#[trigger] entry_newer(items@, j, ver, stable_only)) ==> c.warnings == Seq::<FindingView>::empty()
            &&& !c.fetch
        }),
{
    let ver = parse_version(value.value.data@)->Ok_0;
    lemma_last_matching(items@, ver);
    lemma_last_newer(items@, ver, stable_only);
    match last_newer(items@, ver, stable_only) {
        Some(j) => {
            assert(entry_newer(items@, j, ver, stable_only));
        },
        None => {
            if exists|j: int| entry_newer(items@, j, ver, stable_only) {
                let j = choose|j: int| entry_newer(items@, j, ver, stable_only);
                assert(!entry_newer(items@, j, ver, stable_only));
            }
        },
    }
    match last_matching(items@, ver) {
        Some(i) => {
            assert(entry_meets(items@, i, ver));
        },
        None => {
            if exists|i: int| entry_meets(items@, i, ver) {
                let i = choose|i: int| entry_meets(items@, i, ver);
                assert(!entry_meets(items@, i, ver));
            }
        },
    }
}

/// The check of one dependency: a registry version is checked against
/// `info`; a `workspace = true` entry that resolves to nothing is an error,
/// either because the workspace lacks the dependency or because there is no
/// workspace.
pub open spec fn dependency_check(
    dep: Dependency,
    ws: Option<Toml>,
    info: Option<CacheItemOut<Root1>>,
    stable_only: bool,
) -> CheckView {
    match resolved_source(dep, ws) {
        Some((DepSource::Version { value, .. }, range)) => version_check(dep, value, range.unwrap(), info, stable_only),
        _ => match dep.source {
            DepSource::Workspace(range) => match ws {
                Some(w) => if first_named(w.dependencies@, dep.name.data@) is None {
                    CheckView {
                        errors: seq![FindingView { range, msg: "coundt find crate in workspace"@ }],
                        warnings: seq![],
                        fetch: false,
                    }
                } else {
                    CheckView { errors: seq![], warnings: seq![], fetch: false }
                },
                None => CheckView {
                    errors: seq![FindingView { range, msg: "isnt part of a workspace"@ }],
                    warnings: seq![],
                    fetch: false,
                },
            },
            _ => CheckView { errors: seq![], warnings: seq![], fetch: false },
        },
    }
}

/// What the check of one dependency found.
pub struct DependencyCheck {
    pub errors: Vec<Finding>,
    pub warnings: Vec<Finding>,
    /// Whether the registry must be asked about the dependency.
    pub fetch: bool,
}

fn contains_text(names: &Vec<String>, t: &str) -> (r: bool)
    ensures
        r == string_views(names@).contains(t@),
{
    let mut i: usize = 0;
    while i < names.len()
        invariant
            i <= names@.len(),
            forall|k: int| 0 <= k < i ==> (#[trigger] names@[k])@ != t@,
        decreases names.len() - i,
    {
        if same_text(names[i].as_str(), t) {
            assert(string_views(names@)[i as int] == t@);
            return true;
        }
        i = i + 1;
    }
    assert(!string_views(names@).contains(t@)) by {
        if string_views(names@).contains(t@) {
            let k = choose|k: int| 0 <= k < string_views(names@).len() && string_views(names@)[k] == t@;
            assert(names@[k]@ == t@);
        }
    }
    false
}

fn check_version(
    dep: &Dependency,
    value: &OptionalKey,
    range: RangeExclusive,
    info: Option<&CacheItemOut<Root1>>,
    stable_only: bool,
) -> (r: DependencyCheck)
    ensures
        ({
            let c = version_check(*dep, *value, range, match info { Some(i) => Some(*i), None => None }, stable_only);
            &&& finding_views(r.errors@) == c.errors
            &&& finding_views(r.warnings@) == c.warnings
            &&& r.fetch == c.fetch
        }),
{
    let mut errors: Vec<Finding> = Vec::new();
    let mut warnings: Vec<Finding> = Vec::new();
    match info {
        Some(CacheItemOut::Error(e)) => {
            let f = Finding { range: RangeExclusive::from_positioned(&dep.name), msg: e.clone() };
            errors.push(f);
            assert(finding_views(errors@) =~= seq![f@]);
            assert(finding_views(warnings@) =~= Seq::<FindingView>::empty());
            DependencyCheck { errors, warnings, fetch: false }
        },
        Some(CacheItemOut::Ready(items)) => {
            assert(finding_views(warnings@) =~= Seq::<FindingView>::empty());
            assert(finding_views(errors@) =~= Seq::<FindingView>::empty());
            let ver = match RustVersion::try_from(value.value.data.as_str()) {
                Ok(v) => v,
                Err(_) => {
                    return DependencyCheck { errors, warnings, fetch: false };
                },
            };
            let mut found: Option<usize> = None;
            let mut newer: Option<usize> = None;
            let mut i: usize = 0;
            while i < items.len()
                invariant
                    i <= items@.len(),
                    found matches Some(k) ==> k < i && last_matching(items@.take(i as int), ver@) == Some(k as int),
                    found is None ==> last_matching(items@.take(i as int), ver@) is None,
                    newer matches Some(k) ==> k < i && last_newer(items@.take(i as int), ver@, stable_only) == Some(k as int),
                    newer is None ==> last_newer(items@.take(i as int), ver@, stable_only) is None,
                decreases items.len() - i,
            {
                assert(items@.take(i + 1).drop_last() == items@.take(i as int));
                assert(items@.take(i + 1).last() == items@[i as int]);
                if let Some(v) = items[i].ver() {
                    if v.eq(&ver) {
                        found = Some(i);
                    }
                    if (!stable_only || !v.is_pre_release()) && v.gt(&ver) {
                        newer = Some(i);
                    }
                }
                i = i + 1;
            }
            assert(items@.take(items@.len() as int) == items@);
            match found {
                Some(k) => {
                    let names = items[k].feature_all();
                    let fs = &dep.features.data;
                    let mut j: usize = 0;
                    while j < fs.len()
                        invariant
                            j <= fs@.len(),
                            *fs == dep.features.data,
                            finding_views(errors@) == unknown_features(fs@.take(j as int), string_views(names@)),
                        decreases fs.len() - j,
                    {
                        assert(fs@.take(j + 1).drop_last() == fs@.take(j as int));
                        let ghost before = errors@;
                        assert(finding_views(before).len() == before.len());
                        if !contains_text(&names, fs[j].data.as_str()) {
                            let f = Finding { range: RangeExclusive::from_positioned(&fs[j]), msg: owned("Unknown Feature") };
                            errors.push(f);
                            assert(finding_views(errors@) =~= finding_views(before).push(f@));
                        }
                        j = j + 1;
                    }
                    assert(fs@.take(fs@.len() as int) == fs@);
                    match newer {
                        Some(n) => {
                            let mut msg: Vec<char> = Vec::new();
                            push_str(&mut msg, "Newer version available: ");
                            push_str(&mut msg, items[n].vers.as_str());
                            let f = Finding { range, msg: string_from(&msg) };
                            warnings.push(f);
                            assert(finding_views(warnings@) =~= seq![f@]);
                        },
                        None => {},
                    }
                },
                None => {
                    let f = Finding { range, msg: owned("Invalid version") };
                    errors.push(f);
                    assert(finding_views(errors@) =~= seq![f@]);
                },
            }
            DependencyCheck { errors, warnings, fetch: false }
        },
        _ => {
            assert(finding_views(warnings@) =~= Seq::<FindingView>::empty());
            assert(finding_views(errors@) =~= Seq::<FindingView>::empty());
            DependencyCheck { errors, warnings, fetch: true }
        },
    }
}

/// Checks one dependency (see `dependency_check`); `info` is what the
/// registry holds for it, if it was asked.
pub fn check_dependency(
    dep: &Dependency,
    workspace: Option<&Toml>,
    info: Option<&CacheItemOut<Root1>>,
    stable_only: bool,
) -> (r: DependencyCheck)
    ensures
        ({
            let c = dependency_check(
                *dep,
                match workspace { Some(w) => Some(*w), None => None },
                match info { Some(i) => Some(*i), None => None },
                stable_only,
            );
            &&& finding_views(r.errors@) == c.errors
            &&& finding_views(r.warnings@) == c.warnings
            &&& r.fetch == c.fetch
        }),
{
    match resolve_source(dep, workspace) {
        Some((DepSource::Version { value, .. }, range)) => {
            let range = match range {
                Some(r) => r,
                None => RangeExclusive { start: 0, end: 0 },
            };
            return check_version(dep, value, range, info, stable_only);
        },
        _ => {},
    }
    let mut errors: Vec<Finding> = Vec::new();
    let warnings: Vec<Finding> = Vec::new();
    assert(finding_views(warnings@) =~= Seq::<FindingView>::empty());
    match &dep.source {
        DepSource::Workspace(range) => match workspace {
            Some(w) => {
                if find_named(&w.dependencies, dep.name.data.as_str()).is_none() {
                    let f = Finding { range: *range, msg: owned("coundt find crate in workspace") };
                    errors.push(f);
                    assert(finding_views(errors@) =~= seq![f@]);
                } else {
                    assert(finding_views(errors@) =~= Seq::<FindingView>::empty());
                }
            },
            None => {
                let f = Finding { range: *range, msg: owned("isnt part of a workspace") };
                errors.push(f);
                assert(finding_views(errors@) =~= seq![f@]);
            },
        },
        _ => {
            assert(finding_views(errors@) =~= Seq::<FindingView>::empty());
        },
    }
    DependencyCheck { errors, warnings, fetch: false }
}

/// What the registry holds for the `i`-th dependency, if it was asked.
pub open spec fn info_at(infos: Seq<Option<CacheItemOut<Root1>>>, i: int) -> Option<CacheItemOut<Root1>> {
    if 0 <= i < infos.len() {
        infos[i]
    } else {
        None
    }
}

/// The repeated features of the first `n` dependencies, dependency by
/// dependency.
pub open spec fn repeated_features_upto(deps: Seq<Positioned<Dependency>>, n: nat) -> Seq<FindingView>
    decreases n,
{
    if n == 0 || n > deps.len() {
        seq![]
    } else {
        let d = deps[n - 1].data;
        repeated_features_upto(deps, (n - 1) as nat) + repeated_features(d.features.data@, d.features.data@)
    }
}

/// The checks of the first `n` dependencies, their findings one after the
/// other; `fetch` tells whether any of them must be asked about.
pub open spec fn checks_upto(
    deps: Seq<Positioned<Dependency>>,
    ws: Option<Toml>,
    infos: Seq<Option<CacheItemOut<Root1>>>,
    stable_only: bool,
    n: nat,
) -> CheckView
    decreases n,
{
    if n == 0 || n > deps.len() {
        CheckView { errors: seq![], warnings: seq![], fetch: false }
    } else {
        let prev = checks_upto(deps, ws, infos, stable_only, (n - 1) as nat);
        let c = dependency_check(deps[n - 1].data, ws, info_at(infos, n - 1), stable_only);
        CheckView {
            errors: prev.errors + c.errors,
            warnings: prev.warnings + c.warnings,
            fetch: prev.fetch || c.fetch,
        }
    }
}

/// The indices, among the first `n` dependencies, of those that the registry
/// must be asked about.
pub open spec fn fetches_upto(
    deps: Seq<Positioned<Dependency>>,
    ws: Option<Toml>,
    infos: Seq<Option<CacheItemOut<Root1>>>,
    stable_only: bool,
    n: nat,
) -> Seq<usize>
    decreases n,
{
    if n == 0 || n > deps.len() {
        seq![]
    } else {
        let prev = fetches_upto(deps, ws, infos, stable_only, (n - 1) as nat);
        if dependency_check(deps[n - 1].data, ws, info_at(infos, n - 1), stable_only).fetch {
            prev.push((n - 1) as usize)
        } else {
            prev
        }
    }
}

/// Everything the checks find in a manifest.
pub struct Analysis {
    pub errors: Vec<Finding>,
    pub warnings: Vec<Finding>,
    /// The dependencies that the registry must be asked about, by index.
    pub fetch: Vec<usize>,
}

/// Checks a manifest: the repeated features of each dependency, the
/// repeated dependencies, then each dependency against `workspace` (the
/// workspace manifest, if it is a member of one) and `infos` (what the
/// registry holds for each dependency, by index, if it was asked).
pub fn analyze_manifest(
    toml: &Toml,
    workspace: Option<&Toml>,
    infos: &Vec<Option<CacheItemOut<Root1>>>,
    stable_only: bool,
) -> (r: Analysis)
    ensures
        ({
            let deps = toml.dependencies@;
            let ws = match workspace { Some(w) => Some(*w), None => None };
            let c = checks_upto(deps, ws, infos@, stable_only, deps.len());
            &&& finding_views(r.errors@) == repeated_features_upto(deps, deps.len()) + repeated_dependencies(deps, deps)
                + c.errors
            &&& finding_views(r.warnings@) == c.warnings
            &&& r.fetch@ == fetches_upto(deps, ws, infos@, stable_only, deps.len())
        }),
{
    let deps = &toml.dependencies;
    let ghost ws = match workspace { Some(w) => Some(*w), None => None };
    let mut errors: Vec<Finding> = Vec::new();
    let mut i: usize = 0;
    while i < deps.len()
        invariant
            i <= deps@.len(),
            finding_views(errors@) == repeated_features_upto(deps@, i as nat),
        decreases deps.len() - i,
    {
        let mut d = duplicate_features(&deps[i].data);
        let ghost a = finding_views(errors@);
        let ghost b = finding_views(d@);
        errors.append(&mut d);
        assert(finding_views(errors@) =~= a + b);
        i = i + 1;
    }
    let ghost a = finding_views(errors@);
    let mut d = duplicate_dependencies(deps);
    let ghost b = finding_views(d@);
    errors.append(&mut d);
    assert(finding_views(errors@) =~= a + b);
    let ghost head = finding_views(errors@);
    assert(head =~= head + checks_upto(deps@, ws, infos@, stable_only, 0).errors);
    let mut warnings: Vec<Finding> = Vec::new();
    let mut fetch: Vec<usize> = Vec::new();
    let mut i: usize = 0;
    while i < deps.len()
        invariant
            i <= deps@.len(),
            ws == match workspace { Some(w) => Some(*w), None => None::<Toml> },
            finding_views(errors@) == head + checks_upto(deps@, ws, infos@, stable_only, i as nat).errors,
            finding_views(warnings@) == checks_upto(deps@, ws, infos@, stable_only, i as nat).warnings,
            fetch@ == fetches_upto(deps@, ws, infos@, stable_only, i as nat),
        decreases deps.len() - i,
    {
        let info = if i < infos.len() {
            match &infos[i] {
                Some(x) => Some(x),
                None => None,
            }
        } else {
            None
        };
        assert(match info { Some(x) => Some(*x), None => None::<CacheItemOut<Root1>> } == info_at(infos@, i as int));
        let mut c = check_dependency(&deps[i].data, workspace, info, stable_only);
        let ghost e0 = finding_views(errors@);
        let ghost ce = finding_views(c.errors@);
        errors.append(&mut c.errors);
        assert(finding_views(errors@) =~= e0 + ce);
        let ghost w0 = finding_views(warnings@);
        let ghost cw = finding_views(c.warnings@);
        warnings.append(&mut c.warnings);
        assert(finding_views(warnings@) =~= w0 + cw);
        if c.fetch {
            fetch.push(i);
        }
        i = i + 1;
    }
    Analysis { errors, warnings, fetch }
}

/// How a diagnostic is shown.
#[derive(Debug, Clone, Copy, PartialEq, Eq, Structural)]
pub enum Severity {
    Information,
    Warning,
    Error,
}

/// A diagnostic for the editor: where it starts and ends (line and
/// column), how it is shown, and its message.
#[derive(Debug)]
pub struct Diagnostic {
    pub start: (u32, u32),
    pub end: (u32, u32),
    pub severity: Severity,
    pub message: String,
}

/// The note on the first line that points at the code actions there.
pub open spec fn docs_note() -> Seq<char> {
    "\nThe first line of every Cargo.toml has code actions that will open docs/issues for the cargotom lsp.\n\n To hide this message please set hide_docs_info_message. \n\nFor further information please check out the docs"@
}

pub open spec fn severity_of(level: Level) -> Severity {
    match level {
        Level::Warn => Severity::Warning,
        Level::Error => Severity::Error,
    }
}

/// Whether `d` shows the finding `w`: at its place, with its message and a
/// severity after its level.
pub open spec fn shows(d: Diagnostic, w: Warning) -> bool {
    &&& d.start == (w.start.0 as u32, w.start.1 as u32)
    &&& d.end == (w.end.0 as u32, w.end.1 as u32)
    &&& d.severity == severity_of(w.level)
    &&& d.message == w.msg
}

/// The diagnostics of a manifest: unless `hide_docs_info_message`, first
/// the note on the first line (from its start to the next line); then one
/// for each finding, in order.
pub fn to_diagnostics(hide_docs_info_message: bool, items: Vec<Warning>) -> (r: Vec<Diagnostic>)
    ensures
        ({
            let k: int = if hide_docs_info_message { 0 } else { 1 };
            &&& r@.len() == k + items@.len()
            &&& !hide_docs_info_message ==> r@[0].start == (0u32, 0u32) && r@[0].end == (1u32, 0u32)
                && r@[0].severity == Severity::Information && r@[0].message@ == docs_note()
            &&& forall|i: int| 0 <= i < items@.len() ==> shows(#[trigger] r@[k + i], items@[i])
        }),
{
    let ghost all = items@;
    let ghost k: int = if hide_docs_info_message { 0 } else { 1 };
    let mut d: Vec<Diagnostic> = Vec::new();
    if !hide_docs_info_message {
        d.push(Diagnostic {
            start: (0, 0),
            end: (1, 0),
            severity: Severity::Information,
            message: crate::text::owned("\nThe first line of every Cargo.toml has code actions that will open docs/issues for the cargotom lsp.\n\n To hide this message please set hide_docs_info_message. \n\nFor further information please check out the docs"),
        });
    }
    let _n = items.len();
    let mut rest = items;
    let mut i: usize = 0;
    while rest.len() > 0
        invariant
            all.len() <= usize::MAX,
            i + rest@.len() == all.len(),
            rest@ == all.skip(i as int),
            k == (if hide_docs_info_message { 0int } else { 1int }),
            d@.len() == k + i,
            !hide_docs_info_message ==> d@[0].start == (0u32, 0u32) && d@[0].end == (1u32, 0u32) && d@[0].severity
                == Severity::Information && d@[0].message@ == docs_note(),
            forall|j: int| 0 <= j < i ==> shows(#[trigger] d@[k + j], all[j]),
        decreases rest.len(),
    {
        let item = rest.remove(0);
        assert(all[i as int] == item);
        let severity = match item.level {
            Level::Warn => Severity::Warning,
            Level::Error => Severity::Error,
        };
        d.push(Diagnostic {
            start: (item.start.0 as u32, item.start.1 as u32),
            end: (item.end.0 as u32, item.end.1 as u32),
            severity,
            message: item.msg,
        });
        assert(rest@ =~= all.skip(i + 1));
        assert(d@[k + i] == d@[d@.len() - 1]);
        i = i + 1;
    }
    d
}


// ---------------------------------------------------------------------------
// The findings of a file, placed in its text.

/// Where a byte offset of the text is shown: its line and column, when a
/// character ends there.
pub open spec fn shown_at(s: Seq<char>, b: nat) -> Option<(usize, usize)> {
    match crate::lock::chars_in_bytes(s, b) {
        Some(k) => Some(
            (crate::document::position_of(s, k as int).0 as usize, crate::document::position_of(s, k as int).1 as usize),
        ),
        None => None,
    }
}

/// Whether a finding can be placed: characters end at both ends of its
/// range.
pub open spec fn placeable(s: Seq<char>) -> spec_fn(FindingView) -> bool {
    |f: FindingView| shown_at(s, f.range.start as nat) is Some && shown_at(s, f.range.end as nat) is Some
}

/// The findings that can be placed, in order.
pub open spec fn placed_findings(s: Seq<char>, fs: Seq<Finding>) -> Seq<FindingView> {
    finding_views(fs).filter(placeable(s))
}

/// Whether `w` shows the finding at `level`, at the lines and columns of
/// its range.
pub open spec fn placed_as(w: Warning, s: Seq<char>, f: FindingView, level: Level) -> bool {
    &&& w.level == level
    &&& w.msg@ == f.msg
    &&& Some(w.start) == shown_at(s, f.range.start as nat)
    &&& Some(w.end) == shown_at(s, f.range.end as nat)
}

/// The line and column of a byte offset of the text, when a character ends
/// there.
fn show_at(text: &str, cs: &Vec<char>, b: u32) -> (r: Option<(usize, usize)>)
    requires
        cs@ == text@,
        text@.len() <= u32::MAX,
    ensures
        r == shown_at(text@, b as nat),
{
    match crate::assist::chars_for_bytes(cs, b as usize) {
        Some(_) => {
            let (line, col) = crate::document::byte_offset_to_position(text, b);
            Some((line as usize, col as usize))
        },
        None => None,
    }
}

/// Adds, in order, the findings that can be placed, at `level`.
fn place_all(text: &str, cs: &Vec<char>, fs: &Vec<Finding>, level: Level, out: &mut Vec<Warning>)
    requires
        cs@ == text@,
        text@.len() <= u32::MAX,
    ensures
        final(out)@.len() == old(out)@.len() + placed_findings(text@, fs@).len(),
        forall|i: int| 0 <= i < old(out)@.len() ==> #[trigger] final(out)@[i] == old(out)@[i],
        forall|i: int|
            0 <= i < placed_findings(text@, fs@).len() ==> placed_as(
                #[trigger] final(out)@[old(out)@.len() + i],
                text@,
                placed_findings(text@, fs@)[i],
                level,
            ),
{
    let ghost base = old(out)@;
    let ghost fv = finding_views(fs@);
    let ghost p = placeable(text@);
    let mut k: usize = 0;
    while k < fs.len()
        invariant
            k <= fs@.len(),
            cs@ == text@,
            text@.len() <= u32::MAX,
            fv == finding_views(fs@),
            p == placeable(text@),
            out@.len() == base.len() + fv.take(k as int).filter(p).len(),
            forall|i: int| 0 <= i < base.len() ==> #[trigger] out@[i] == base[i],
            forall|i: int|
                0 <= i < fv.take(k as int).filter(p).len() ==> placed_as(
                    #[trigger] out@[base.len() + i],
                    text@,
                    fv.take(k as int).filter(p)[i],
                    level,
                ),
        decreases fs.len() - k,
    {
        proof {
            reveal(Seq::filter);
            assert(fv.take(k + 1).drop_last() =~= fv.take(k as int));
            assert(fv.take(k + 1).last() == fv[k as int]);
        }
        let f = &fs[k];
        assert(fv[k as int] == f@);
        let start = show_at(text, cs, f.range.start);
        let end = show_at(text, cs, f.range.end);
        match (start, end) {
            (Some(a), Some(b)) => {
                out.push(Warning { level, msg: crate::text::owned(f.msg.as_str()), start: a, end: b });
            },
            _ => {},
        }
        k = k + 1;
    }
    assert(fv.take(k as int) =~= fv);
}

/// The findings of a file as the editor shows them: first every warning,
/// then every error, each in order and placed at the lines and columns of
/// its range; a finding whose range does not end characters is left out.
pub fn file_warnings(text: &str, analysis: &Analysis) -> (r: Vec<Warning>)
    requires
        text@.len() <= u32::MAX,
    ensures
        r@.len() == placed_findings(text@, analysis.warnings@).len() + placed_findings(text@, analysis.errors@).len(),
        forall|i: int|
            0 <= i < placed_findings(text@, analysis.warnings@).len() ==> placed_as(
                #[trigger] r@[i],
                text@,
                placed_findings(text@, analysis.warnings@)[i],
                Level::Warn,
            ),
        forall|i: int|
            0 <= i < placed_findings(text@, analysis.errors@).len() ==> placed_as(
                #[trigger] r@[placed_findings(text@, analysis.warnings@).len() + i],
                text@,
                placed_findings(text@, analysis.errors@)[i],
                Level::Error,
            ),
        forall|i: int, j: int| 0 <= i < j < r@.len() && (#[trigger] r@[i]).level == Level::Error ==> (#[trigger] r@[j]).level == Level::Error,
{
    let cs = crate::text::chars_of(text);
    let mut out: Vec<Warning> = Vec::new();
    place_all(text, &cs, &analysis.warnings, Level::Warn, &mut out);
    let ghost nw = out@.len();
    place_all(text, &cs, &analysis.errors, Level::Error, &mut out);
    proof {
        let pw = placed_findings(text@, analysis.warnings@);
        assert forall|i: int| 0 <= i < pw.len() implies placed_as(#[trigger] out@[i], text@, pw[i], Level::Warn) by {
            assert(out@[i] == out@[0 + i]);
        }
        assert forall|i: int, j: int| 0 <= i < j < out@.len() && (#[trigger] out@[i]).level == Level::Error implies (#[trigger] out@[j]).level == Level::Error by {
            if i < nw {
                assert(out@[0 + i].level == Level::Warn);
            } else {
                assert(out@[nw + (j - nw)].level == Level::Error);
            }
        }
    }
    out
}

} // verus!
