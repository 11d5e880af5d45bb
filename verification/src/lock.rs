//! The packages of a Cargo.lock file, grouped by name, and where each comes
//! from: a registry, a git repository, or elsewhere.
use vstd::prelude::*;
use crate::rust_version::{parse_version, version_text, RustVersion, VersionView};
use crate::text::{chars_of, char_width, push_str, string_from, same_text};
use crate::toml::utf8_len;
use crate::info_api::string_views;

verus! {

/// A package as the lock file lists it.
#[derive(Debug, Clone)]
pub struct PackageRaw {
    pub name: String,
    pub version: String,
    pub source: Option<String>,
    pub checksum: Option<String>,
    pub dependencies: Option<Vec<String>>,
}

/// The packages of a lock file, in the order it lists them.
#[derive(Debug)]
pub struct CargoLockRaw {
    pub package: Vec<PackageRaw>,
}

#[verifier::external_type_specification]
#[verifier::external_body]
pub struct ExUrl(url::Url);

/// A URL together with the text it was read from.
pub struct ParsedUrl {
    url: url::Url,
    text: String,
}

impl View for ParsedUrl {
    type V = Seq<char>;

    /// The text the URL was read from.
    closed spec fn view(&self) -> Seq<char> {
        self.text@
    }
}

/// Names whether `url::Url::parse` accepts a text.
pub uninterp spec fn url_parses(s: Seq<char>) -> bool;

/// Names the fragment (after `#`) of the URL that `url::Url::parse` reads
/// from a text.
pub uninterp spec fn url_fragment_of(s: Seq<char>) -> Option<Seq<char>>;

/// Names the key and value pairs of the query of the URL that
/// `url::Url::parse` reads from a text, decoded and in order.
pub uninterp spec fn url_query_pairs_of(s: Seq<char>) -> Seq<(Seq<char>, Seq<char>)>;

/// Reads an absolute URL with `url::Url::parse`; claims that it succeeds
/// exactly when the name `url_parses` says so, and keeps the text.
#[verifier::external_body]
fn parse_url(s: &str) -> (r: Option<ParsedUrl>)
    ensures
        r is Some <==> url_parses(s@),
        r matches Some(u) ==> u@ == s@,
{
    match url::Url::parse(s) {
        Ok(url) => Some(ParsedUrl { url, text: s.to_string() }),
        Err(_) => None,
    }
}

/// The fragment of a URL, with `url::Url::fragment`; claims that it is the
/// one the name `url_fragment_of` gives for the URL's text.
#[verifier::external_body]
fn url_fragment(u: &ParsedUrl) -> (r: Option<String>)
    ensures
        match r {
            Some(f) => url_fragment_of(u@) == Some(f@),
            None => url_fragment_of(u@) is None,
        },
{
    u.url.fragment().map(|f| f.to_string())
}

/// The query pairs of a URL, with `url::Url::query_pairs`; claims that they
/// are the ones the name `url_query_pairs_of` gives for the URL's text.
#[verifier::external_body]
fn url_query_pairs(u: &ParsedUrl) -> (r: Vec<(String, String)>)
    ensures
        pair_views(r@) == url_query_pairs_of(u@),
{
    u.url.query_pairs().map(|(k, v)| (k.into_owned(), v.into_owned())).collect()
}

pub open spec fn pair_views(ps: Seq<(String, String)>) -> Seq<(Seq<char>, Seq<char>)> {
    ps.map_values(|p: (String, String)| (p.0@, p.1@))
}

/// Where a locked package comes from.
#[derive(Debug, Clone)]
pub enum Source {
    Registry(String),
    Git { url: String, branch: Option<String>, tag: Option<String>, rev: String },
    Other(String),
}

/// The mathematical value of a [`Source`].
pub enum SourceView {
    Registry(Seq<char>),
    Git { url: Seq<char>, branch: Option<Seq<char>>, tag: Option<Seq<char>>, rev: Seq<char> },
    Other(Seq<char>),
}

pub open spec fn opt_text(s: Option<String>) -> Option<Seq<char>> {
    match s {
        Some(v) => Some(v@),
        None => None,
    }
}

impl View for Source {
    type V = SourceView;

    open spec fn view(&self) -> SourceView {
        match self {
            Source::Registry(r) => SourceView::Registry(r@),
            Source::Git { url, branch, tag, rev } => SourceView::Git {
                url: url@,
                branch: opt_text(*branch),
                tag: opt_text(*tag),
                rev: rev@,
            },
            Source::Other(o) => SourceView::Other(o@),
        }
    }
}

pub open spec fn registry_prefix() -> Seq<char> {
    seq!['r', 'e', 'g', 'i', 's', 't', 'r', 'y', '+']
}

pub open spec fn git_prefix() -> Seq<char> {
    seq!['g', 'i', 't', '+']
}

pub open spec fn starts_with(s: Seq<char>, p: Seq<char>) -> bool {
    s.len() >= p.len() && s.take(p.len() as int) == p
}

/// `s` with every occurrence of `p` taken out, from left to right.
pub open spec fn without(s: Seq<char>, p: Seq<char>) -> Seq<char>
    decreases s.len(),
{
    if s.len() == 0 {
        s
    } else if p.len() > 0 && starts_with(s, p) {
        without(s.skip(p.len() as int), p)
    } else {
        seq![s[0]] + without(s.drop_first(), p)
    }
}

/// The value of the first pair with the given key.
pub open spec fn first_value(pairs: Seq<(Seq<char>, Seq<char>)>, key: Seq<char>) -> Option<Seq<char>>
    decreases pairs.len(),
{
    if pairs.len() == 0 {
        None
    } else if pairs[0].0 == key {
        Some(pairs[0].1)
    } else {
        first_value(pairs.drop_first(), key)
    }
}

/// How a source text of the lock file reads: `registry+` names a registry
/// (the text without any `registry+`), `git+` and a URL a git repository
/// with the URL's fragment as revision and its `branch` and `tag` query
/// values; anything else stays as it is.
pub open spec fn source_of(s: Seq<char>) -> SourceView {
    if starts_with(s, registry_prefix()) {
        SourceView::Registry(without(s, registry_prefix()))
    } else if starts_with(s, git_prefix()) && url_parses(s.skip(4)) {
        let u = s.skip(4);
        SourceView::Git {
            url: u,
            branch: first_value(url_query_pairs_of(u), "branch"@),
            tag: first_value(url_query_pairs_of(u), "tag"@),
            rev: match url_fragment_of(u) {
                Some(f) => f,
                None => seq![],
            },
        }
    } else {
        SourceView::Other(s)
    }
}

fn prefix_at(cs: &Vec<char>, at: usize, p: &Vec<char>) -> (r: bool)
    requires
        at <= cs@.len(),
    ensures
        r == starts_with(cs@.skip(at as int), p@),
{
    let _n = cs.len();
    if cs.len() - at < p.len() {
        return false;
    }
    let mut i: usize = 0;
    while i < p.len()
        invariant
            i <= p@.len(),
            at + p@.len() <= cs@.len(),
            cs@.len() <= usize::MAX,
            forall|k: int| 0 <= k < i ==> cs@[at + k] == p@[k],
        decreases p.len() - i,
    {
        if cs[at + i] != p[i] {
            assert(cs@.skip(at as int).take(p@.len() as int)[i as int] == cs@[at + i]);
            return false;
        }
        i = i + 1;
    }
    assert(cs@.skip(at as int).take(p@.len() as int) =~= p@);
    true
}

/// `s` with every occurrence of `p` taken out.
fn remove_all(s: &Vec<char>, p: &Vec<char>) -> (r: Vec<char>)
    ensures
        r@ == without(s@, p@),
{
    let mut out: Vec<char> = Vec::new();
    let mut i: usize = 0;
    assert(s@.skip(0) == s@);
    while i < s.len()
        invariant
            i <= s@.len(),
            out@ + without(s@.skip(i as int), p@) == without(s@, p@),
        decreases s.len() - i,
    {
        if p.len() > 0 && prefix_at(s, i, p) {
            assert(s@.skip(i as int).skip(p@.len() as int) == s@.skip(i + p@.len()));
            i = i + p.len();
        } else {
            assert(s@.skip(i as int).drop_first() == s@.skip(i + 1));
            assert(s@.skip(i as int)[0] == s@[i as int]);
            out.push(s[i]);
            assert(out@ + without(s@.skip(i + 1), p@) =~= out@.drop_last() + (seq![s@[i as int]] + without(
                s@.skip(i + 1),
                p@,
            )));
            i = i + 1;
        }
    }
    assert(s@.skip(i as int) =~= Seq::<char>::empty());
    assert(out@ + without(s@.skip(i as int), p@) =~= out@);
    out
}

fn find_value(pairs: &Vec<(String, String)>, key: &str) -> (r: Option<String>)
    ensures
        opt_text(r) == first_value(pair_views(pairs@), key@),
{
    let mut i: usize = 0;
    assert(pair_views(pairs@).skip(0) == pair_views(pairs@));
    while i < pairs.len()
        invariant
            i <= pairs@.len(),
            first_value(pair_views(pairs@), key@) == first_value(pair_views(pairs@).skip(i as int), key@),
        decreases pairs.len() - i,
    {
        assert(pair_views(pairs@).skip(i as int).drop_first() == pair_views(pairs@).skip(i + 1));
        assert(pair_views(pairs@).skip(i as int)[0] == (pairs@[i as int].0@, pairs@[i as int].1@));
        if same_text(pairs[i].0.as_str(), key) {
            return Some(pairs[i].1.clone());
        }
        i = i + 1;
    }
    None
}

impl Source {
    /// Reads the source text of a locked package (see `source_of`).
    pub fn from(value: &str) -> (r: Source)
        ensures
            r@ == source_of(value@),
    {
        let cs = chars_of(value);
        let reg = vec!['r', 'e', 'g', 'i', 's', 't', 'r', 'y', '+'];
        assert(reg@ =~= registry_prefix());
        assert(cs@.skip(0) == cs@);
        if prefix_at(&cs, 0, &reg) {
            return Source::Registry(string_from(&remove_all(&cs, &reg)));
        }
        let git = vec!['g', 'i', 't', '+'];
        assert(git@ =~= git_prefix());
        if prefix_at(&cs, 0, &git) {
            let n = cs.len();
            let url_text = crate::text::string_from_range(&cs, 4, n);
            assert(cs@.subrange(4, n as int) == cs@.skip(4));
            if let Some(url) = parse_url(url_text.as_str()) {
                let rev = match url_fragment(&url) {
                    Some(f) => f,
                    None => String::new(),
                };
                let pairs = url_query_pairs(&url);
                let branch = find_value(&pairs, "branch");
                let tag = find_value(&pairs, "tag");
                return Source::Git { url: url_text, branch, tag, rev };
            }
        }
        Source::Other(string_from(&cs))
    }
}

/// A package of the lock file.
#[derive(Debug)]
pub struct Package {
    pub version: RustVersion,
    pub source: Option<Source>,
    pub checksum: Option<String>,
    pub dependencies: Option<Vec<String>>,
}

/// The mathematical value of a [`Package`].
pub struct PackageView {
    pub version: VersionView,
    pub source: Option<SourceView>,
    pub checksum: Option<Seq<char>>,
    pub dependencies: Option<Seq<Seq<char>>>,
}

impl View for Package {
    type V = PackageView;

    open spec fn view(&self) -> PackageView {
        PackageView {
            version: self.version@,
            source: match self.source {
                Some(s) => Some(s@),
                None => None,
            },
            checksum: opt_text(self.checksum),
            dependencies: match self.dependencies {
                Some(d) => Some(string_views(d@)),
                None => None,
            },
        }
    }
}

/// The number of leading characters of `s` whose encoding takes exactly `n`
/// bytes; `None` when no character boundary lies at byte `n`.
pub open spec fn chars_in_bytes(s: Seq<char>, n: nat) -> Option<nat>
    decreases s.len(),
{
    if n == 0 {
        Some(0)
    } else if s.len() == 0 {
        None
    } else {
        let w = utf8_len(seq![s[0]]);
        if w > n {
            None
        } else {
            match chars_in_bytes(s.drop_first(), (n - w) as nat) {
                Some(k) => Some(k + 1),
                None => None,
            }
        }
    }
}

impl Package {
    pub fn version(&self) -> (r: &RustVersion)
        ensures
            r == &self.version,
    {
        &self.version
    }

    /// The branch of a git source.
    pub fn branch(&self) -> (r: Option<&String>)
        ensures
            r == match self.source {
                Some(Source::Git { branch: Some(b), .. }) => Some(&b),
                _ => None,
            },
    {
        match &self.source {
            Some(Source::Git { branch, .. }) => branch.as_ref(),
            _ => None,
        }
    }

    /// The revision of a git source.
    pub fn rev(&self) -> (r: Option<&String>)
        ensures
            r == match self.source {
                Some(Source::Git { rev, .. }) => Some(&rev),
                _ => None,
            },
    {
        match &self.source {
            Some(Source::Git { rev, .. }) => Some(rev),
            _ => None,
        }
    }

    /// The tag of a git source.
    pub fn tag(&self) -> (r: Option<&String>)
        ensures
            r == match self.source {
                Some(Source::Git { tag: Some(t), .. }) => Some(&t),
                _ => None,
            },
    {
        match &self.source {
            Some(Source::Git { tag, .. }) => tag.as_ref(),
            _ => None,
        }
    }

    pub fn is_registry(&self) -> (r: bool)
        ensures
            r == (self.source matches Some(Source::Registry(_))),
    {
        match self.source {
            Some(Source::Registry(_)) => true,
            _ => false,
        }
    }

    pub fn is_git(&self) -> (r: bool)
        ensures
            r == (self.source matches Some(Source::Git { .. })),
    {
        match self.source {
            Some(Source::Git { .. }) => true,
            _ => false,
        }
    }

    /// The version as text; for a git source followed by ` #` and the first
    /// seven bytes of the revision.
    pub fn label(&self) -> (r: String)
        requires
            self.source matches Some(Source::Git { rev, .. }) ==> chars_in_bytes(rev@, 7) is Some,
        ensures
            r@ == match self.source {
                Some(Source::Git { rev, .. }) => version_text(self.version@) + " #"@ + rev@.take(
                    chars_in_bytes(rev@, 7)->Some_0 as int,
                ),
                _ => version_text(self.version@),
            },
    {
        match &self.source {
            Some(Source::Git { rev, .. }) => {
                let cs = chars_of(rev.as_str());
                let k = seven_bytes(&cs);
                let mut out: Vec<char> = Vec::new();
                push_str(&mut out, self.version.to_string().as_str());
                push_str(&mut out, " #");
                let head = crate::text::string_from_range(&cs, 0, k);
                assert(cs@.subrange(0, k as int) == cs@.take(k as int));
                push_str(&mut out, head.as_str());
                string_from(&out)
            },
            _ => self.version.to_string(),
        }
    }
}

/// The number of leading characters that take exactly seven bytes.
fn seven_bytes(cs: &Vec<char>) -> (r: usize)
    requires
        chars_in_bytes(cs@, 7) is Some,
    ensures
        r == chars_in_bytes(cs@, 7)->Some_0,
        r <= cs@.len(),
{
    let _n = cs.len();
    let mut k: usize = 0;
    let mut left: usize = 7;
    assert(cs@.skip(0) == cs@);
    while left > 0
        invariant
            k <= cs@.len(),
            cs@.len() <= usize::MAX,
            left <= 7,
            chars_in_bytes(cs@.skip(k as int), left as nat) is Some,
            chars_in_bytes(cs@, 7)->Some_0 == k + chars_in_bytes(cs@.skip(k as int), left as nat)->Some_0,
        decreases left,
    {
        let ghost rest = cs@.skip(k as int);
        assert(rest.len() > 0);
        assert(rest[0] == cs@[k as int]);
        let w = char_width(cs[k]);
        assert(rest.drop_first() == cs@.skip(k + 1));
        left = left - w;
        k = k + 1;
    }
    k
}

/// The mathematical value of a group of packages with one name.
pub open spec fn group_views(g: Seq<(String, Vec<Package>)>) -> Seq<(Seq<char>, Seq<PackageView>)> {
    g.map_values(|e: (String, Vec<Package>)| (e.0@, package_views(e.1@)))
}

pub open spec fn package_views(v: Seq<Package>) -> Seq<PackageView> {
    v.map_values(|p: Package| p@)
}

/// A package of the lock file as it reads.
pub open spec fn package_of(p: PackageRaw) -> PackageView {
    PackageView {
        version: parse_version(p.version@)->Ok_0,
        source: match p.source {
            Some(s) => Some(source_of(s@)),
            None => None,
        },
        checksum: opt_text(p.checksum),
        dependencies: match p.dependencies {
            Some(d) => Some(string_views(d@)),
            None => None,
        },
    }
}

/// The first group with the given name.
pub open spec fn group_index(g: Seq<(Seq<char>, Seq<PackageView>)>, name: Seq<char>) -> Option<int>
    decreases g.len(),
{
    if g.len() == 0 {
        None
    } else if g.last().0 == name && group_index(g.drop_last(), name) is None {
        Some(g.len() - 1)
    } else {
        group_index(g.drop_last(), name)
    }
}

/// The packages grouped by name: one group per name, in the order the names
/// first occur, each holding that name's packages in the order they occur.
pub open spec fn grouped(ps: Seq<PackageRaw>) -> Seq<(Seq<char>, Seq<PackageView>)>
    decreases ps.len(),
{
    if ps.len() == 0 {
        seq![]
    } else {
        let g = grouped(ps.drop_last());
        let p = ps.last();
        match group_index(g, p.name@) {
            Some(i) => g.update(i, (g[i].0, g[i].1.push(package_of(p)))),
            None => g.push((p.name@, seq![package_of(p)])),
        }
    }
}

fn read_package(raw: &PackageRaw) -> (r: Option<Package>)
    ensures
        r is Some <==> parse_version(raw.version@) is Ok,
        r matches Some(p) ==> p@ == package_of(*raw),
{
    let version = match RustVersion::try_from(raw.version.as_str()) {
        Ok(v) => v,
        Err(_) => {
            return None;
        },
    };
    let source = match &raw.source {
        Some(s) => Some(Source::from(s.as_str())),
        None => None,
    };
    let checksum = match &raw.checksum {
        Some(c) => Some(c.clone()),
        None => None,
    };
    let dependencies = match &raw.dependencies {
        Some(d) => Some(clone_texts(d)),
        None => None,
    };
    Some(Package { version, source, checksum, dependencies })
}

/// Every name occurs once among the groups.
pub open spec fn names_distinct(g: Seq<(Seq<char>, Seq<PackageView>)>) -> bool {
    forall|a: int, b: int| 0 <= a < b < g.len() ==> (#[trigger] g[a]).0 != (#[trigger] g[b]).0
}

proof fn lemma_group_index(g: Seq<(Seq<char>, Seq<PackageView>)>, name: Seq<char>)
    requires
        names_distinct(g),
    ensures
        group_index(g, name) matches Some(j) ==> 0 <= j < g.len() && g[j].0 == name,
        group_index(g, name) is None ==> forall|j: int| 0 <= j < g.len() ==> (#[trigger] g[j]).0 != name,
    decreases g.len(),
{
    if g.len() > 0 {
        assert(names_distinct(g.drop_last()));
        lemma_group_index(g.drop_last(), name);
        assert forall|j: int| 0 <= j < g.len() - 1 implies g.drop_last()[j] == #[trigger] g[j] by {}
    }
}

/// The packages of `ps` with the given name, in order.
pub open spec fn packages_named(ps: Seq<PackageRaw>, name: Seq<char>) -> Seq<PackageView>
    decreases ps.len(),
{
    if ps.len() == 0 {
        seq![]
    } else if ps.last().name@ == name {
        packages_named(ps.drop_last(), name).push(package_of(ps.last()))
    } else {
        packages_named(ps.drop_last(), name)
    }
}

proof fn lemma_group_index_by_names(g1: Seq<(Seq<char>, Seq<PackageView>)>, g2: Seq<(Seq<char>, Seq<PackageView>)>, n: Seq<char>)
    requires
        g1.len() == g2.len(),
        forall|i: int| 0 <= i < g1.len() ==> (#[trigger] g1[i]).0 == g2[i].0,
    ensures
        group_index(g1, n) == group_index(g2, n),
    decreases g1.len(),
{
    if g1.len() > 0 {
        assert forall|i: int| 0 <= i < g1.len() - 1 implies (#[trigger] g1.drop_last()[i]).0 == g2.drop_last()[i].0 by {
            assert(g1.drop_last()[i] == g1[i]);
            assert(g2.drop_last()[i] == g2[i]);
        }
        lemma_group_index_by_names(g1.drop_last(), g2.drop_last(), n);
    }
}

proof fn lemma_grouped_names_distinct(ps: Seq<PackageRaw>)
    ensures
        names_distinct(grouped(ps)),
    decreases ps.len(),
{
    if ps.len() > 0 {
        lemma_grouped_names_distinct(ps.drop_last());
        let g = grouped(ps.drop_last());
        lemma_group_index(g, ps.last().name@);
        let now = grouped(ps);
        assert forall|a: int, b: int| 0 <= a < b < now.len() implies (#[trigger] now[a]).0 != (#[trigger] now[b]).0 by {
            if b < g.len() {
                assert(now[a].0 == g[a].0 && now[b].0 == g[b].0);
            } else {
                assert(now[a].0 == g[a].0);
            }
        }
    }
}

/// Grouping keeps every package: the group of each name holds exactly the
/// packages of that name, in the order of the lock file, and a name without
/// packages has no group.
pub proof fn lemma_grouped_by_name(ps: Seq<PackageRaw>, name: Seq<char>)
    ensures
        match group_index(grouped(ps), name) {
            Some(i) => 0 <= i < grouped(ps).len() && grouped(ps)[i].1 == packages_named(ps, name),
            None => packages_named(ps, name).len() == 0,
        },
    decreases ps.len(),
{
    if ps.len() > 0 {
        lemma_grouped_by_name(ps.drop_last(), name);
        lemma_grouped_names_distinct(ps.drop_last());
        lemma_grouped_names_distinct(ps);
        let g = grouped(ps.drop_last());
        let p = ps.last();
        lemma_group_index(g, p.name@);
        lemma_group_index(g, name);
        lemma_group_index(grouped(ps), name);
        match group_index(g, p.name@) {
            Some(i) => {
                let now = g.update(i, (g[i].0, g[i].1.push(package_of(p))));
                assert(grouped(ps) == now);
                lemma_group_index_by_names(now, g, name);
            },
            None => {
                let now = g.push((p.name@, seq![package_of(p)]));
                assert(grouped(ps) == now);
                if p.name@ == name {
                    assert(now.last().0 == name);
                    assert(group_index(now, name) == Some(now.len() - 1));
                    assert(packages_named(ps, name) =~= seq![package_of(p)]);
                } else {
                    assert(now.drop_last() == g);
                }
            },
        }
    }
}

impl CargoLockRaw {
    /// The packages grouped by name (see `grouped`).
    pub fn packages(&self) -> (r: Vec<(String, Vec<Package>)>)
        requires
            forall|i: int| 0 <= i < self.package@.len() ==> parse_version((#[trigger] self.package@[i]).version@) is Ok,
        ensures
            group_views(r@) == grouped(self.package@),
            names_distinct(group_views(r@)),
    {
        let ps = &self.package;
        let mut out: Vec<(String, Vec<Package>)> = Vec::new();
        let mut i: usize = 0;
        while i < ps.len()
            invariant
                i <= ps@.len(),
                *ps == self.package,
                forall|k: int| 0 <= k < ps@.len() ==> parse_version((#[trigger] ps@[k]).version@) is Ok,
                group_views(out@) == grouped(ps@.take(i as int)),
                names_distinct(group_views(out@)),
            decreases ps.len() - i,
        {
            assert(ps@.take(i + 1).drop_last() == ps@.take(i as int));
            assert(ps@.take(i + 1).last() == ps@[i as int]);
            let raw = &ps[i];
            let pkg = match read_package(raw) {
                Some(p) => p,
                None => {
                    proof { assert(parse_version(ps@[i as int].version@) is Ok); }
                    i = i + 1;
                    continue;
                },
            };
            let ghost g = group_views(out@);
            proof { lemma_group_index(g, raw.name@); }
            let mut j: usize = 0;
            let mut found = false;
            while j < out.len() && !found
                invariant
                    j <= out@.len(),
                    g == group_views(out@),
                    found ==> j < out@.len() && g[j as int].0 == raw.name@,
                    !found ==> forall|k: int| 0 <= k < j ==> (#[trigger] g[k]).0 != raw.name@,
                decreases out.len() - j, if found { 0nat } else { 1nat },
            {
                assert(g[j as int].0 == out@[j as int].0@);
                if same_text(out[j].0.as_str(), raw.name.as_str()) {
                    found = true;
                } else {
                    j = j + 1;
                }
            }
            if found {
                let ghost old_out = out@;
                let mut entry = out.remove(j);
                let ghost old_entry = entry;
                let ghost pv = pkg@;
                entry.1.push(pkg);
                assert(package_views(entry.1@) =~= package_views(old_entry.1@).push(pv));
                let ghost new_entry = entry;
                out.insert(j, entry);
                proof {
                    assert(out@ =~= old_out.update(j as int, new_entry));
                    assert(old_entry == old_out[j as int]);
                    assert(group_index(g, raw.name@) == Some(j as int));
                    assert(group_views(out@) =~= g.update(j as int, (g[j as int].0, g[j as int].1.push(package_of(*raw)))));
                }
            } else {
                let mut v: Vec<Package> = Vec::new();
                let ghost pv = pkg@;
                v.push(pkg);
                assert(package_views(v@) =~= seq![pv]);
                let ghost old_out = out@;
                let e = (raw.name.clone(), v);
                let ghost ev = e;
                out.push(e);
                proof {
                    assert(out@ =~= old_out.push(ev));
                    assert(group_index(g, raw.name@) is None);
                    assert(group_views(out@) =~= g.push((raw.name@, seq![package_of(*raw)])));
                }
            }
            i = i + 1;
        }
        assert(ps@.take(ps@.len() as int) == ps@);
        out
    }
}

pub(crate) fn clone_texts(v: &Vec<String>) -> (r: Vec<String>)
    ensures
        string_views(r@) == string_views(v@),
{
    let mut out: Vec<String> = Vec::new();
    let mut i: usize = 0;
    while i < v.len()
        invariant
            i <= v@.len(),
            string_views(out@) == string_views(v@).take(i as int),
        decreases v.len() - i,
    {
        let ghost before = out@;
        assert(string_views(before).len() == before.len());
        out.push(v[i].clone());
        assert(string_views(out@) =~= string_views(v@).take(i + 1));
        i = i + 1;
    }
    assert(string_views(v@).take(v@.len() as int) == string_views(v@));
    out
}

} // verus!
