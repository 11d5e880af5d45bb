//! Crates as the registry describes them: search results, and the index
//! entries of each published version with its dependencies and features.
use vstd::prelude::*;
use crate::rust_version::{parse_version, RustVersion};
use crate::sorted::{insert_sorted, strictly_sorted};
use crate::text::{
    chars_of, find_char, find_char_in, join_chars, join_with, lex_sign, push_str, string_from,
    string_from_range, views_of, append_chars,
};
use crate::toml::{dep_prefix, has_dep_prefix};

verus! {

/// What a cache holds for a key.
pub enum CacheItemOut<T> {
    NotStarted,
    Pending,
    Error(String),
    Ready(Vec<T>),
}

/// A crate as a registry search lists it.
#[derive(Debug, Clone)]
pub struct Crate {
    pub exact_match: bool,
    pub name: String,
    pub description: Option<String>,
    pub homepage: Option<String>,
    pub documentation: Option<String>,
    pub repository: Option<String>,
    pub max_stable_version: Option<String>,
    pub max_version: Option<String>,
}

impl Crate {
    /// The documentation link: the crate's own when it has one, else its
    /// page on docs.rs.
    pub fn documentation_url(&self) -> (r: String)
        ensures
            r@ == match self.documentation {
                Some(d) => d@,
                None => "https://docs.rs/"@ + self.name@,
            },
    {
        match &self.documentation {
            Some(d) => d.clone(),
            None => {
                let mut out: Vec<char> = Vec::new();
                push_str(&mut out, "https://docs.rs/");
                push_str(&mut out, self.name.as_str());
                string_from(&out)
            },
        }
    }
}

/// A dependency of a published version.
#[derive(Debug, Clone)]
pub struct Deps1 {
    pub name: String,
    pub req: String,
    pub optional: bool,
}

/// One published version of a crate, as the registry index lists it. A
/// feature table is a list of names with what each enables; a name occurs
/// once.
#[derive(Debug, Clone)]
pub struct Root1 {
    pub name: String,
    pub vers: String,
    pub yanked: bool,
    pub deps: Vec<Deps1>,
    pub features: Vec<(String, Vec<String>)>,
    pub features2: Option<Vec<(String, Vec<String>)>>,
}

/// Which entries a feature list shows.
#[derive(Debug, Clone, Copy, PartialEq, Eq, Structural)]
pub enum ViewMode {
    /// Features and every optional dependency.
    All,
    /// Features and the optional dependencies that no feature enables.
    UnusedOpt,
    /// Features only.
    Features,
}

/// `cr` with the prefix `dep:` in front, unless it has it already.
pub open spec fn with_dep(cr: Seq<char>) -> Seq<char> {
    if has_dep_prefix(cr) {
        cr
    } else {
        dep_prefix() + cr
    }
}

/// The optional dependency that an entry of a feature list enables: the part
/// before the first `?`, else the part before the first `/`, each as
/// `dep:name`; an entry with neither stays as it is.
pub open spec fn processed_name(s: Seq<char>) -> Seq<char> {
    match find_char(s, '?') {
        Some(i) => with_dep(s.take(i)),
        None => match find_char(s, '/') {
            Some(i) => with_dep(s.take(i)),
            None => s,
        },
    }
}

fn dep_chars() -> (r: Vec<char>)
    ensures
        r@ == dep_prefix(),
{
    let r = vec!['d', 'e', 'p', ':'];
    assert(r@ =~= dep_prefix());
    r
}

fn with_dep_chars(cr: Vec<char>) -> (r: Vec<char>)
    ensures
        r@ == with_dep(cr@),
{
    if cr.len() >= 4 && cr[0] == 'd' && cr[1] == 'e' && cr[2] == 'p' && cr[3] == ':' {
        assert(cr@.take(4) =~= dep_prefix());
        cr
    } else {
        assert(!has_dep_prefix(cr@)) by {
            if has_dep_prefix(cr@) {
                assert(cr@[0] == cr@.take(4)[0] && cr@[1] == cr@.take(4)[1]);
                assert(cr@[2] == cr@.take(4)[2] && cr@[3] == cr@.take(4)[3]);
            }
        }
        let mut out = dep_chars();
        append_chars(&mut out, &cr);
        out
    }
}

/// The name of the optional dependency that an entry of a feature list
/// enables, as `dep:name`.
pub fn name_processor(s: &str) -> (r: String)
    ensures
        r@ == processed_name(s@),
{
    let cs = chars_of(s);
    let n = cs.len();
    match find_char_in(&cs, 0, n, '?') {
        Some(i) => {
            assert(cs@.subrange(0, n as int) == cs@);
            let cr = chars_of(string_from_range(&cs, 0, i).as_str());
            assert(cs@.subrange(0, i as int) == cs@.take(i as int));
            string_from(&with_dep_chars(cr))
        },
        None => {
            assert(cs@.subrange(0, n as int) == cs@);
            match find_char_in(&cs, 0, n, '/') {
                Some(i) => {
                    let cr = chars_of(string_from_range(&cs, 0, i).as_str());
                    assert(cs@.subrange(0, i as int) == cs@.take(i as int));
                    string_from(&with_dep_chars(cr))
                },
                None => string_from(&cs),
            }
        },
    }
}

/// The texts of a list of strings.
pub open spec fn string_views(v: Seq<String>) -> Seq<Seq<char>> {
    v.map_values(|s: String| s@)
}

/// A feature as a list shows it: its name alone when it enables nothing,
/// else `name: [a, b]`.
pub open spec fn rendered(k: Seq<char>, vs: Seq<Seq<char>>) -> Seq<char> {
    if vs.len() == 0 {
        k
    } else {
        k + seq![':', ' ', '['] + join_with(vs, seq![',', ' ']) + seq![']']
    }
}

pub open spec fn render_entry(e: (String, Vec<String>)) -> Seq<char> {
    rendered(e.0@, string_views(e.1@))
}

/// The rendered entries of a feature table, in order.
pub open spec fn rendered_entries(fs: Seq<(String, Vec<String>)>) -> Seq<Seq<char>> {
    fs.map_values(|e: (String, Vec<String>)| render_entry(e))
}

/// The names of a feature table, in order.
pub open spec fn entry_keys(fs: Seq<(String, Vec<String>)>) -> Seq<Seq<char>> {
    fs.map_values(|e: (String, Vec<String>)| e.0@)
}

/// The names of the optional dependencies, in order.
pub open spec fn optional_names(deps: Seq<Deps1>) -> Seq<Seq<char>>
    decreases deps.len(),
{
    if deps.len() == 0 {
        seq![]
    } else if deps.last().optional {
        optional_names(deps.drop_last()).push(deps.last().name@)
    } else {
        optional_names(deps.drop_last())
    }
}

/// A name marked as an optional dependency.
pub open spec fn star(n: Seq<char>) -> Seq<char> {
    n.push('*')
}

/// The marked names of the optional dependencies that `mode` shows: all of
/// them, or under `UnusedOpt` those that no feature enables.
pub open spec fn optional_stars(deps: Seq<Deps1>, used: Set<Seq<char>>, mode: ViewMode) -> Seq<Seq<char>>
    decreases deps.len(),
{
    if deps.len() == 0 {
        seq![]
    } else {
        let rest = optional_stars(deps.drop_last(), used, mode);
        let d = deps.last();
        if d.optional && (mode is All || !used.contains(dep_prefix() + d.name@)) {
            rest.push(star(d.name@))
        } else {
            rest
        }
    }
}

/// A feature table as text: each name with what it enables.
pub open spec fn table_views(v: Seq<(String, Vec<String>)>) -> Seq<(Seq<char>, Seq<Seq<char>>)> {
    v.map_values(|p: (String, Vec<String>)| (p.0@, string_views(p.1@)))
}

/// What the last entry named `n` enables, if one is.
pub open spec fn last_value(ps: Seq<(Seq<char>, Seq<Seq<char>>)>, n: Seq<char>) -> Option<Seq<Seq<char>>>
    decreases ps.len(),
{
    if ps.len() == 0 {
        None
    } else if ps.last().0 == n {
        Some(ps.last().1)
    } else {
        last_value(ps.drop_last(), n)
    }
}

/// Whether no name occurs twice in the table.
pub open spec fn names_distinct(t: Seq<(Seq<char>, Seq<Seq<char>>)>) -> bool {
    forall|i: int, j: int| 0 <= i < j < t.len() ==> (#[trigger] t[i]).0 != (#[trigger] t[j]).0
}

/// Whether `t` is the table the entries `ps` make when each entry is put
/// in, a later one in place of an earlier of the same name: each name once,
/// with what its last entry enables.
pub open spec fn table_of(ps: Seq<(Seq<char>, Seq<Seq<char>>)>, t: Seq<(Seq<char>, Seq<Seq<char>>)>) -> bool {
    &&& names_distinct(t)
    &&& forall|i: int| 0 <= i < t.len() ==> last_value(ps, (#[trigger] t[i]).0) == Some(t[i].1)
    &&& forall|n: Seq<char>| #[trigger] last_value(ps, n) is Some ==> exists|i: int| 0 <= i < t.len() && t[i].0 == n
}

/// Puts the entries into a table in order, a later entry in place of an
/// earlier one of the same name (see `table_of`).
pub fn feature_table(entries: Vec<(String, Vec<String>)>) -> (r: Vec<(String, Vec<String>)>)
    ensures
        table_of(table_views(entries@), table_views(r@)),
{
    let ghost ps = table_views(entries@);
    let mut out: Vec<(String, Vec<String>)> = Vec::new();
    let mut k: usize = 0;
    while k < entries.len()
        invariant
            k <= entries@.len(),
            ps == table_views(entries@),
            table_of(ps.take(k as int), table_views(out@)),
        decreases entries.len() - k,
    {
        let ghost pre = ps.take(k as int);
        let ghost post = ps.take(k + 1);
        let ghost before = table_views(out@);
        assert(post.drop_last() =~= pre);
        assert(post.last() == ps[k as int]);
        let name = crate::text::owned(entries[k].0.as_str());
        let vals = crate::lock::clone_texts(&entries[k].1);
        assert(ps[k as int] == (name@, string_views(vals@)));
        let mut i: usize = 0;
        let mut at: Option<usize> = None;
        while i < out.len()
            invariant_except_break
                at is None,
            invariant
                i <= out@.len(),
                before == table_views(out@),
                forall|m: int| 0 <= m < i ==> before[m].0 != name@,
            ensures
                match at {
                    Some(j) => j < out@.len() && before[j as int].0 == name@,
                    None => forall|m: int| 0 <= m < out@.len() ==> before[m].0 != name@,
                },
            decreases out.len() - i,
        {
            if crate::text::same_text(out[i].0.as_str(), name.as_str()) {
                at = Some(i);
                break;
            }
            i = i + 1;
        }
        match at {
            Some(j) => {
                assert(before[j as int].0 == name@);
                out.set(j, (name, vals));
                let ghost after = table_views(out@);
                assert forall|a: int, b: int| 0 <= a < b < after.len() implies (#[trigger] after[a]).0 != (#[trigger] after[b]).0 by {
                    assert(before[a].0 != before[b].0);
                }
                assert forall|m: int| 0 <= m < after.len() implies last_value(post, (#[trigger] after[m]).0) == Some(after[m].1) by {
                    if m != j as int {
                        assert(after[m] == before[m]);
                        assert(before[m].0 != before[j as int].0);
                    }
                }
                assert forall|n: Seq<char>| #[trigger] last_value(post, n) is Some implies exists|m: int| 0 <= m < after.len() && after[m].0 == n by {
                    if n == name@ {
                        assert(after[j as int].0 == n);
                    } else {
                        assert(last_value(pre, n) is Some);
                        let m = choose|m: int| 0 <= m < before.len() && before[m].0 == n;
                        assert(after[m].0 == n);
                    }
                }
            },
            None => {
                out.push((name, vals));
                let ghost after = table_views(out@);
                assert(after =~= before.push(ps[k as int]));
                assert forall|a: int, b: int| 0 <= a < b < after.len() implies (#[trigger] after[a]).0 != (#[trigger] after[b]).0 by {
                    if b < before.len() {
                        assert(before[a].0 != before[b].0);
                    }
                }
                assert forall|m: int| 0 <= m < after.len() implies last_value(post, (#[trigger] after[m]).0) == Some(after[m].1) by {
                    if m < before.len() {
                        assert(after[m] == before[m]);
                    }
                }
                assert forall|n: Seq<char>| #[trigger] last_value(post, n) is Some implies exists|m: int| 0 <= m < after.len() && after[m].0 == n by {
                    if n == name@ {
                        assert(after[before.len() as int].0 == n);
                    } else {
                        assert(last_value(pre, n) is Some);
                        let m = choose|m: int| 0 <= m < before.len() && before[m].0 == n;
                        assert(after[m].0 == n);
                    }
                }
            },
        }
        k = k + 1;
    }
    assert(ps.take(k as int) =~= ps);
    out
}

impl Root1 {
    /// Whether each feature table names a feature once, as the registry's
    /// tables (maps from name to entries) do.
    pub open spec fn wf(self) -> bool {
        &&& names_distinct(table_views(self.features@))
        &&& self.features2 matches Some(f) ==> names_distinct(table_views(f@))
    }

    /// A published version from its fields, the feature tables built with
    /// `feature_table`, so that each name occurs once.
    pub fn new(
        name: String,
        vers: String,
        yanked: bool,
        deps: Vec<Deps1>,
        features: Vec<(String, Vec<String>)>,
        features2: Option<Vec<(String, Vec<String>)>>,
    ) -> (r: Root1)
        ensures
            r.wf(),
            r.name == name,
            r.vers == vers,
            r.yanked == yanked,
            r.deps == deps,
            table_of(table_views(features@), table_views(r.features@)),
            features2 is Some <==> r.features2 is Some,
            features2 matches Some(f) ==> (r.features2 matches Some(g) && table_of(table_views(f@), table_views(g@))),
    {
        let features = feature_table(features);
        let features2 = match features2 {
            Some(f) => Some(feature_table(f)),
            None => None,
        };
        Root1 { name, vers, yanked, deps, features, features2 }
    }

    /// The optional dependencies that some feature enables, each as
    /// `dep:name`: every entry of the first table with `dep:` before it, and
    /// every entry of the second table through `processed_name`.
    pub open spec fn used_names(self) -> Set<Seq<char>> {
        Set::new(
            |x: Seq<char>|
                (exists|i: int, j: int|
                    0 <= i < self.features@.len() && 0 <= j < self.features@[i].1@.len() && x == dep_prefix()
                        + #[trigger] self.features@[i].1@[j]@) || (self.features2 matches Some(f2) && exists|
                    i: int,
                    j: int,
                |
                    0 <= i < f2@.len() && 0 <= j < f2@[i].1@.len() && x == processed_name(#[trigger] f2@[i].1@[j]@)),
        )
    }

    /// Everything a feature list in `mode` shows, in the order it is met.
    pub open spec fn feature_candidates(self, mode: ViewMode) -> Seq<Seq<char>> {
        rendered_entries(self.features@) + match self.features2 {
            Some(f2) => rendered_entries(f2@),
            None => seq![],
        } + if mode is Features {
            seq![]
        } else {
            optional_stars(self.deps@, self.used_names(), mode)
        }
    }

    /// Every name a feature can enable: the optional dependencies, then the
    /// names of the first table, then those of the second.
    pub fn feature_all(&self) -> (r: Vec<String>)
        ensures
            string_views(r@) == optional_names(self.deps@) + entry_keys(self.features@) + match self.features2 {
                Some(f2) => entry_keys(f2@),
                None => seq![],
            },
    {
        let mut opt: Vec<String> = Vec::new();
        let mut i: usize = 0;
        while i < self.deps.len()
            invariant
                i <= self.deps@.len(),
                string_views(opt@) == optional_names(self.deps@.take(i as int)),
            decreases self.deps.len() - i,
        {
            assert(self.deps@.take(i + 1).drop_last() == self.deps@.take(i as int));
            if self.deps[i].optional {
                opt.push(self.deps[i].name.clone());
            }
            assert(string_views(opt@) =~= optional_names(self.deps@.take(i + 1)));
            i = i + 1;
        }
        assert(self.deps@.take(self.deps@.len() as int) == self.deps@);
        let ghost first = string_views(opt@);
        append_keys(&mut opt, &self.features);
        let ghost second = string_views(opt@);
        match &self.features2 {
            Some(f2) => {
                append_keys(&mut opt, f2);
            },
            None => {
                assert(second =~= second + Seq::<Seq<char>>::empty());
            },
        }
        opt
    }

    /// Whether some feature enables the dependency written `target`
    /// (`dep:name`).
    fn is_used(&self, target: &Vec<char>) -> (r: bool)
        ensures
            r == self.used_names().contains(target@),
    {
        let mut i: usize = 0;
        while i < self.features.len()
            invariant
                i <= self.features@.len(),
                forall|a: int, b: int|
                    0 <= a < i && 0 <= b < self.features@[a].1@.len() ==> target@ != dep_prefix()
                        + #[trigger] self.features@[a].1@[b]@,
            decreases self.features.len() - i,
        {
            let vs = &self.features[i].1;
            let mut j: usize = 0;
            while j < vs.len()
                invariant
                    i < self.features@.len(),
                    *vs == self.features@[i as int].1,
                    j <= vs@.len(),
                    forall|b: int| 0 <= b < j ==> target@ != dep_prefix() + #[trigger] vs@[b]@,
                decreases vs.len() - j,
            {
                let mut cand = dep_chars();
                let v = chars_of(vs[j].as_str());
                append_chars(&mut cand, &v);
                if lex_sign(&cand, target) == 0 {
                    proof { crate::order::lemma_char_seq_order_basics(cand@, target@); }
                    assert(self.used_names().contains(target@));
                    return true;
                }
                proof { crate::order::lemma_char_seq_order_basics(cand@, target@); }
                j = j + 1;
            }
            i = i + 1;
        }
        match &self.features2 {
            Some(f2) => {
                let mut i: usize = 0;
                while i < f2.len()
                    invariant
                        i <= f2@.len(),
                        self.features2 == Some(*f2),
                        forall|a: int, b: int|
                            0 <= a < i && 0 <= b < f2@[a].1@.len() ==> target@ != processed_name(
                                #[trigger] f2@[a].1@[b]@,
                            ),
                    decreases f2.len() - i,
                {
                    let vs = &f2[i].1;
                    let mut j: usize = 0;
                    while j < vs.len()
                        invariant
                            i < f2@.len(),
                            self.features2 == Some(*f2),
                            *vs == f2@[i as int].1,
                            j <= vs@.len(),
                            forall|b: int| 0 <= b < j ==> target@ != processed_name(#[trigger] vs@[b]@),
                        decreases vs.len() - j,
                    {
                        let cand = chars_of(name_processor(vs[j].as_str()).as_str());
                        if lex_sign(&cand, target) == 0 {
                            proof {
                                crate::order::lemma_char_seq_order_basics(cand@, target@);
                                assert(target@ == processed_name(f2@[i as int].1@[j as int]@));
                            }
                            assert(self.used_names().contains(target@));
                            return true;
                        }
                        proof { crate::order::lemma_char_seq_order_basics(cand@, target@); }
                        j = j + 1;
                    }
                    i = i + 1;
                }
            },
            None => {},
        }
        false
    }

    /// The feature list that `mode` shows, sorted and without repeats: each
    /// feature of both tables as `rendered` makes it, and, unless `mode` is
    /// `Features`, the optional dependencies as `name*` (under `UnusedOpt`
    /// only those that no feature enables).
    pub fn features(&self, view_mode: ViewMode) -> (r: Vec<String>)
        ensures
            strictly_sorted(string_views(r@)),
            string_views(r@).to_set() == self.feature_candidates(view_mode).to_set(),
    {
        let mut cands: Vec<Vec<char>> = Vec::new();
        push_rendered(&mut cands, &self.features);
        let ghost first = views_of(cands@);
        match &self.features2 {
            Some(f2) => {
                push_rendered(&mut cands, f2);
            },
            None => {
                assert(first =~= first + Seq::<Seq<char>>::empty());
            },
        }
        let ghost second = views_of(cands@);
        if view_mode != ViewMode::Features {
            let mut i: usize = 0;
            while i < self.deps.len()
                invariant
                    i <= self.deps@.len(),
                    view_mode != ViewMode::Features,
                    views_of(cands@) == second + optional_stars(
                        self.deps@.take(i as int),
                        self.used_names(),
                        view_mode,
                    ),
                decreases self.deps.len() - i,
            {
                assert(self.deps@.take(i + 1).drop_last() == self.deps@.take(i as int));
                let d = &self.deps[i];
                let ghost before = cands@;
                assert(views_of(before).len() == before.len());
                if d.optional {
                    let name = chars_of(d.name.as_str());
                    let keep = if view_mode == ViewMode::UnusedOpt {
                        let mut target = dep_chars();
                        append_chars(&mut target, &name);
                        !self.is_used(&target)
                    } else {
                        true
                    };
                    if keep {
                        let mut starred = name;
                        starred.push('*');
                        assert(starred@ == star(self.deps@[i as int].name@));
                        cands.push(starred);
                        assert(views_of(cands@) =~= views_of(before).push(star(self.deps@[i as int].name@)));
                    } else {
                        assert(views_of(cands@) =~= views_of(before));
                    }
                } else {
                    assert(views_of(cands@) =~= views_of(before));
                }
                assert(views_of(cands@) =~= second + optional_stars(
                    self.deps@.take(i + 1),
                    self.used_names(),
                    view_mode,
                ));
                i = i + 1;
            }
            assert(self.deps@.take(self.deps@.len() as int) == self.deps@);
        } else {
            assert(second =~= second + Seq::<Seq<char>>::empty());
        }
        assert(views_of(cands@) == self.feature_candidates(view_mode));
        let mut list: Vec<Vec<char>> = Vec::new();
        let mut k: usize = 0;
        while k < cands.len()
            invariant
                k <= cands@.len(),
                strictly_sorted(views_of(list@)),
                views_of(list@).to_set() == views_of(cands@).take(k as int).to_set(),
            decreases cands.len() - k,
        {
            insert_sorted(&mut list, cands[k].clone());
            proof {
                assert(views_of(cands@).take(k + 1) == views_of(cands@).take(k as int).push(cands@[k as int]@));
                views_of(cands@).take(k as int).lemma_push_to_set_commute(cands@[k as int]@);
            }
            k = k + 1;
        }
        assert(views_of(cands@).take(cands@.len() as int) == views_of(cands@));
        let mut out: Vec<String> = Vec::new();
        let mut m: usize = 0;
        while m < list.len()
            invariant
                m <= list@.len(),
                string_views(out@) == views_of(list@).take(m as int),
            decreases list.len() - m,
        {
            let ghost before = out@;
            assert(string_views(before).len() == before.len());
            assert(views_of(list@).take(m as int).len() == m);
            out.push(string_from(&list[m]));
            assert(string_views(out@) =~= views_of(list@).take(m + 1));
            m = m + 1;
        }
        assert(views_of(list@).take(list@.len() as int) == views_of(list@));
        out
    }

    /// The version of this entry, when it reads as one.
    pub fn ver(&self) -> (r: Option<RustVersion>)
        ensures
            match parse_version(self.vers@) {
                Ok(v) => r matches Some(x) && x@ == v,
                Err(_) => r is None,
            },
    {
        match RustVersion::try_from(self.vers.as_str()) {
            Ok(v) => Some(v),
            Err(_) => None,
        }
    }
}

proof fn lemma_unused_stars_among_all(deps: Seq<Deps1>, used: Set<Seq<char>>)
    ensures
        forall|x: Seq<char>| optional_stars(deps, used, ViewMode::UnusedOpt).contains(x) ==> optional_stars(
            deps,
            used,
            ViewMode::All,
        ).contains(x),
    decreases deps.len(),
{
    if deps.len() > 0 {
        lemma_unused_stars_among_all(deps.drop_last(), used);
        let u = optional_stars(deps, used, ViewMode::UnusedOpt);
        let a = optional_stars(deps, used, ViewMode::All);
        let u0 = optional_stars(deps.drop_last(), used, ViewMode::UnusedOpt);
        let a0 = optional_stars(deps.drop_last(), used, ViewMode::All);
        assert forall|x: Seq<char>| u.contains(x) implies a.contains(x) by {
            let k = choose|k: int| 0 <= k < u.len() && u[k] == x;
            if k < u0.len() {
                assert(u0.contains(x));
                let j = choose|j: int| 0 <= j < a0.len() && a0[j] == x;
                assert(a[j] == x);
            } else {
                assert(a[a.len() - 1] == x);
            }
        }
    }
}

/// The feature list of `Features` is part of the one of `UnusedOpt`, which
/// is part of the one of `All`.
pub proof fn lemma_feature_modes(e: Root1)
    ensures
        e.feature_candidates(ViewMode::Features).to_set().subset_of(e.feature_candidates(ViewMode::UnusedOpt).to_set()),
        e.feature_candidates(ViewMode::UnusedOpt).to_set().subset_of(e.feature_candidates(ViewMode::All).to_set()),
{
    let base = rendered_entries(e.features@) + match e.features2 {
        Some(f2) => rendered_entries(f2@),
        None => seq![],
    };
    let used = e.used_names();
    let f = e.feature_candidates(ViewMode::Features);
    let u = e.feature_candidates(ViewMode::UnusedOpt);
    let a = e.feature_candidates(ViewMode::All);
    let su = optional_stars(e.deps@, used, ViewMode::UnusedOpt);
    let sa = optional_stars(e.deps@, used, ViewMode::All);
    assert(f == base + Seq::<Seq<char>>::empty());
    assert(u == base + su);
    assert(a == base + sa);
    assert forall|x: Seq<char>| f.to_set().contains(x) implies u.to_set().contains(x) by {
        let k = choose|k: int| 0 <= k < f.len() && f[k] == x;
        assert(u[k] == x);
    }
    lemma_unused_stars_among_all(e.deps@, used);
    assert forall|x: Seq<char>| u.to_set().contains(x) implies a.to_set().contains(x) by {
        let k = choose|k: int| 0 <= k < u.len() && u[k] == x;
        if k < base.len() {
            assert(a[k] == x);
        } else {
            assert(su[k - base.len()] == x);
            assert(su.contains(x));
            let j = choose|j: int| 0 <= j < sa.len() && sa[j] == x;
            assert(a[base.len() + j] == x);
        }
    }
}

/// Appends the names of a feature table.
fn append_keys(out: &mut Vec<String>, fs: &Vec<(String, Vec<String>)>)
    ensures
        string_views(final(out)@) == string_views(old(out)@) + entry_keys(fs@),
{
    let mut i: usize = 0;
    while i < fs.len()
        invariant
            i <= fs@.len(),
            string_views(out@) == string_views(old(out)@) + entry_keys(fs@.take(i as int)),
        decreases fs.len() - i,
    {
        let ghost before = out@;
        assert(string_views(before).len() == before.len());
        assert(entry_keys(fs@.take(i as int)).len() == i);
        out.push(fs[i].0.clone());
        assert(fs@.take(i + 1) == fs@.take(i as int).push(fs@[i as int]));
        assert(entry_keys(fs@.take(i + 1)) =~= entry_keys(fs@.take(i as int)).push(fs@[i as int].0@));
        assert(string_views(out@) =~= string_views(before).push(fs@[i as int].0@));
        assert(string_views(out@) =~= string_views(old(out)@) + entry_keys(fs@.take(i + 1)));
        i = i + 1;
    }
    assert(fs@.take(fs@.len() as int) == fs@);
}

/// The text of a feature as a list shows it.
fn render(k: &String, vs: &Vec<String>) -> (r: Vec<char>)
    ensures
        r@ == rendered(k@, string_views(vs@)),
{
    let mut out = chars_of(k.as_str());
    if vs.len() == 0 {
        return out;
    }
    let mut parts: Vec<Vec<char>> = Vec::new();
    let mut i: usize = 0;
    while i < vs.len()
        invariant
            i <= vs@.len(),
            views_of(parts@) == string_views(vs@).take(i as int),
        decreases vs.len() - i,
    {
        let ghost before = parts@;
        assert(string_views(vs@).len() == vs@.len());
        assert(string_views(vs@).take(i as int).len() == i);
        assert(views_of(before).len() == i);
        assert(before.len() == i);
        let piece = chars_of(vs[i].as_str());
        assert(piece@ == vs@[i as int]@);
        parts.push(piece);
        assert(parts@ == before.push(piece));
        assert(views_of(parts@).len() == i + 1);
        assert(views_of(parts@)[i as int] == string_views(vs@).take(i + 1)[i as int]);
        assert(views_of(parts@) =~= string_views(vs@).take(i + 1));
        i = i + 1;
    }
    assert(string_views(vs@).take(vs@.len() as int) == string_views(vs@));
    let sep = vec![',', ' '];
    assert(sep@ =~= seq![',', ' ']);
    let joined = join_chars(&parts, &sep);
    let open = vec![':', ' ', '['];
    assert(open@ =~= seq![':', ' ', '[']);
    append_chars(&mut out, &open);
    append_chars(&mut out, &joined);
    out.push(']');
    out
}

/// Appends the rendered entries of a feature table.
fn push_rendered(out: &mut Vec<Vec<char>>, fs: &Vec<(String, Vec<String>)>)
    ensures
        views_of(final(out)@) == views_of(old(out)@) + rendered_entries(fs@),
{
    let mut i: usize = 0;
    while i < fs.len()
        invariant
            i <= fs@.len(),
            views_of(out@) == views_of(old(out)@) + rendered_entries(fs@.take(i as int)),
        decreases fs.len() - i,
    {
        let ghost before = out@;
        assert(views_of(before).len() == before.len());
        assert(rendered_entries(fs@.take(i as int)).len() == i);
        let piece = render(&fs[i].0, &fs[i].1);
        out.push(piece);
        assert(fs@.take(i + 1) == fs@.take(i as int).push(fs@[i as int]));
        assert(rendered_entries(fs@.take(i + 1)) =~= rendered_entries(fs@.take(i as int)).push(render_entry(fs@[i as int])));
        assert(views_of(out@) =~= views_of(before).push(piece@));
        assert(views_of(out@) =~= views_of(old(out)@) + rendered_entries(fs@.take(i + 1)));
        i = i + 1;
    }
    assert(fs@.take(fs@.len() as int) == fs@);
}

} // verus!
