//! The offline crate list: one binary record per crate, and the words a
//! crate name is searched by.
use std::collections::HashMap;
use std::sync::Arc;
use vstd::prelude::*;
use vstd::utf8::{decode_utf8, valid_utf8};
use crate::info_api::{string_views, Crate};
use crate::manifest::arc_clone;

verus! {

broadcast use vstd::std_specs::hash::group_hash_axioms;

/// A crate as the offline list records it.
#[derive(Debug, Clone)]
pub struct OfflineCrate {
    pub name: String,
    pub repository: Option<String>,
    pub homepage: Option<String>,
    pub documentation: Option<String>,
    pub description: Option<String>,
    pub latest_stable_version: Option<String>,
    pub latest_version: Option<String>,
    pub categories: Vec<Arc<String>>,
    pub keywords: Vec<Arc<String>>,
    pub num_versions: u32,
    pub order: u32,
}

/// The little-endian number in the four bytes from `at`.
pub open spec fn le_u32(b: Seq<u8>, at: int) -> nat {
    (b[at] as nat) + 256 * (b[at + 1] as nat) + 65536 * (b[at + 2] as nat) + 16777216 * (b[at + 3] as nat)
}

/// Whether `n` bytes from `at` lie in `b`.
pub open spec fn fits(b: Seq<u8>, at: int, n: int) -> bool {
    0 <= at && 0 <= n && at + n <= b.len()
}

/// `n` little-endian numbers from `at`.
pub open spec fn ids_at(b: Seq<u8>, at: int, n: nat) -> Seq<nat> {
    Seq::new(n, |k: int| le_u32(b, at + 4 * k))
}

/// `n` texts from `at`, each a little-endian length and that many bytes.
pub open spec fn texts_from(b: Seq<u8>, at: int, n: nat) -> Option<Seq<Seq<u8>>>
    decreases n,
{
    if n == 0 {
        Some(seq![])
    } else if fits(b, at, 4) && fits(b, at + 4, le_u32(b, at) as int) {
        let len = le_u32(b, at) as int;
        match texts_from(b, at + 4 + len, (n - 1) as nat) {
            Some(rest) => Some(seq![b.subrange(at + 4, at + 4 + len)] + rest),
            None => None,
        }
    } else {
        None
    }
}

/// The parts of a record.
pub struct RecordView {
    pub order: nat,
    pub num_versions: nat,
    pub keyword_ids: Seq<nat>,
    pub category_ids: Seq<nat>,
    /// Name, description, repository, homepage, documentation, latest stable
    /// version, latest version.
    pub texts: Seq<Seq<u8>>,
}

/// How a record reads: its order, its number of versions, a counted list
/// of keyword ids, a counted list of category ids, then seven texts; `None`
/// when the bytes run out first.
pub open spec fn record_layout(b: Seq<u8>) -> Option<RecordView> {
    if !fits(b, 0, 12) {
        None
    } else {
        let kn = le_u32(b, 8);
        let p1: int = 12 + 4 * kn as int;
        if !fits(b, 12, 4 * kn as int + 4) {
            None
        } else {
            let cn = le_u32(b, p1);
            let p2: int = p1 + 4 + 4 * cn as int;
            if !fits(b, p1 + 4, 4 * cn as int) {
                None
            } else {
                match texts_from(b, p2, 7) {
                    Some(t) => Some(
                        RecordView {
                            order: le_u32(b, 0),
                            num_versions: le_u32(b, 4),
                            keyword_ids: ids_at(b, 12, kn),
                            category_ids: ids_at(b, p1 + 4, cn),
                            texts: t,
                        },
                    ),
                    None => None,
                }
            }
        }
    }
}

/// A record that reads whole, with every text in UTF-8.
pub open spec fn record_ok(b: Seq<u8>) -> bool {
    record_layout(b) matches Some(r) && forall|i: int| 0 <= i < 7 ==> valid_utf8(#[trigger] r.texts[i])
}

/// The entries of `m` under the given ids, in order, skipping unknown ids.
pub open spec fn kept(ids: Seq<nat>, m: Map<u32, Arc<String>>) -> Seq<Arc<String>>
    decreases ids.len(),
{
    if ids.len() == 0 {
        seq![]
    } else {
        let rest = kept(ids.drop_last(), m);
        let id = ids.last();
        if id <= u32::MAX && m.contains_key(id as u32) {
            rest.push(m[id as u32])
        } else {
            rest
        }
    }
}

/// No text for empty bytes, else their characters.
pub open spec fn text_or_none(t: Seq<u8>) -> Option<Seq<char>> {
    if t.len() == 0 {
        None
    } else {
        Some(decode_utf8(t))
    }
}

pub open spec fn opt_view(s: Option<String>) -> Option<Seq<char>> {
    match s {
        Some(v) => Some(v@),
        None => None,
    }
}

/// Makes a string of UTF-8 bytes with `String::from_utf8`. Claims that it
/// succeeds exactly on valid UTF-8, and that the string holds the characters
/// that the bytes encode.
#[verifier::external_body]
fn string_from_utf8(bytes: Vec<u8>) -> (r: Option<String>)
    ensures
        r is Some <==> valid_utf8(bytes@),
        r matches Some(s) ==> s@ == decode_utf8(bytes@),
{
    String::from_utf8(bytes).ok()
}

fn read_le_u32(data: &Vec<u8>, at: usize) -> (r: u32)
    requires
        fits(data@, at as int, 4),
    ensures
        r == le_u32(data@, at as int),
{
    let _n = data.len();
    let b0 = data[at] as u32;
    let b1 = data[at + 1] as u32;
    let b2 = data[at + 2] as u32;
    let b3 = data[at + 3] as u32;
    b0 + 256 * b1 + 65536 * b2 + 16777216 * b3
}

/// Reads `n` ids from `at` and keeps the map's entries for the known ones.
fn read_ids(data: &Vec<u8>, at: usize, n: usize, m: &HashMap<u32, Arc<String>>) -> (r: Vec<Arc<String>>)
    requires
        fits(data@, at as int, 4 * n),
    ensures
        r@ == kept(ids_at(data@, at as int, n as nat), m@),
{
    let _len = data.len();
    let mut out: Vec<Arc<String>> = Vec::new();
    let mut k: usize = 0;
    while k < n
        invariant
            k <= n,
            data@.len() <= usize::MAX,
            fits(data@, at as int, 4 * n),
            out@ == kept(ids_at(data@, at as int, n as nat).take(k as int), m@),
        decreases n - k,
    {
        let id = read_le_u32(data, at + 4 * k);
        let ghost ids = ids_at(data@, at as int, n as nat);
        assert(ids.take(k + 1).drop_last() == ids.take(k as int));
        assert(ids.take(k + 1).last() == id);
        if let Some(v) = m.get(&id) {
            out.push(arc_clone(v));
        }
        k = k + 1;
    }
    assert(ids_at(data@, at as int, n as nat).take(n as int) == ids_at(data@, at as int, n as nat));
    out
}

/// Reads a length and that many bytes from `at`; gives the bytes and where
/// they end.
fn read_text(data: &Vec<u8>, at: usize) -> (r: (Vec<u8>, usize))
    requires
        fits(data@, at as int, 4),
        fits(data@, at + 4, le_u32(data@, at as int) as int),
    ensures
        r.0@ == data@.subrange(at + 4, at + 4 + le_u32(data@, at as int)),
        r.1 == at + 4 + le_u32(data@, at as int),
{
    let _n = data.len();
    let len = read_le_u32(data, at) as usize;
    let start = at + 4;
    let mut out: Vec<u8> = Vec::new();
    let mut i: usize = 0;
    while i < len
        invariant
            i <= len,
            len == le_u32(data@, at as int),
            start == at + 4,
            start + len <= data@.len(),
            data@.len() <= usize::MAX,
            out@ == data@.subrange(start as int, start + i),
        decreases len - i,
    {
        out.push(data[start + i]);
        assert(data@.subrange(start as int, start + i + 1) == data@.subrange(start as int, start + i).push(
            data@[start + i],
        ));
        i = i + 1;
    }
    (out, start + len)
}

/// The next of `n` texts from `at`: its bytes, and where the rest begins.
fn next_text(data: &Vec<u8>, at: usize, Ghost(n): Ghost<nat>) -> (r: (Vec<u8>, usize))
    requires
        n > 0,
        texts_from(data@, at as int, n) is Some,
    ensures
        r.0@ == texts_from(data@, at as int, n)->Some_0[0],
        texts_from(data@, r.1 as int, (n - 1) as nat) == Some(texts_from(data@, at as int, n)->Some_0.drop_first()),
{
    let r = read_text(data, at);
    let ghost rest = texts_from(data@, r.1 as int, (n - 1) as nat);
    assert(rest is Some);
    assert((seq![r.0@] + rest->Some_0).drop_first() =~= rest->Some_0);
    r
}

/// The string of bytes known to be UTF-8.
fn utf8_text(bytes: Vec<u8>) -> (r: String)
    requires
        valid_utf8(bytes@),
    ensures
        r@ == decode_utf8(bytes@),
{
    match string_from_utf8(bytes) {
        Some(s) => s,
        None => String::new(),
    }
}

/// No text for empty bytes, else the string they encode.
fn optional_text(bytes: Vec<u8>) -> (r: Option<String>)
    requires
        valid_utf8(bytes@),
    ensures
        opt_view(r) == text_or_none(bytes@),
{
    if bytes.len() == 0 {
        None
    } else {
        Some(utf8_text(bytes))
    }
}

impl OfflineCrate {
    /// Reads one record of the offline list; keyword and category ids are
    /// looked up in the two maps, and ids that they do not hold are skipped.
    pub fn from_vec(data: Vec<u8>, keywords_map: &HashMap<u32, Arc<String>>, categories_map: &HashMap<u32, Arc<String>>) -> (r: Self)
        requires
            record_ok(data@),
        ensures
            ({
                let rv = record_layout(data@)->Some_0;
                &&& r.order == rv.order
                &&& r.num_versions == rv.num_versions
                &&& r.keywords@ == kept(rv.keyword_ids, keywords_map@)
                &&& r.categories@ == kept(rv.category_ids, categories_map@)
                &&& r.name@ == decode_utf8(rv.texts[0])
                &&& opt_view(r.description) == text_or_none(rv.texts[1])
                &&& opt_view(r.repository) == text_or_none(rv.texts[2])
                &&& opt_view(r.homepage) == text_or_none(rv.texts[3])
                &&& opt_view(r.documentation) == text_or_none(rv.texts[4])
                &&& opt_view(r.latest_stable_version) == text_or_none(rv.texts[5])
                &&& opt_view(r.latest_version) == text_or_none(rv.texts[6])
            }),
    {
        let ghost b = data@;
        let ghost rv = record_layout(b)->Some_0;
        let order = read_le_u32(&data, 0);
        let num_versions = read_le_u32(&data, 4);
        let kn = read_le_u32(&data, 8) as usize;
        let keywords = read_ids(&data, 12, kn, keywords_map);
        let p1 = 12 + 4 * kn;
        let cn = read_le_u32(&data, p1) as usize;
        let categories = read_ids(&data, p1 + 4, cn, categories_map);
        let p2 = p1 + 4 + 4 * cn;
        let ghost t = rv.texts;
        assert(texts_from(b, p2 as int, 7) == Some(t));
        let (name_bytes, c) = next_text(&data, p2, Ghost(7));
        let (description_bytes, c) = next_text(&data, c, Ghost(6));
        let (repository_bytes, c) = next_text(&data, c, Ghost(5));
        let (homepage_bytes, c) = next_text(&data, c, Ghost(4));
        let (documentation_bytes, c) = next_text(&data, c, Ghost(3));
        let (stable_bytes, c) = next_text(&data, c, Ghost(2));
        let (latest_bytes, _c) = next_text(&data, c, Ghost(1));
        assert(name_bytes@ == t[0]);
        assert(description_bytes@ == t[1]);
        assert(repository_bytes@ == t[2]);
        assert(homepage_bytes@ == t[3]);
        assert(documentation_bytes@ == t[4]);
        assert(stable_bytes@ == t[5]);
        assert(latest_bytes@ == t[6]);
        assert(valid_utf8(t[0]) && valid_utf8(t[1]) && valid_utf8(t[2]) && valid_utf8(t[3]));
        assert(valid_utf8(t[4]) && valid_utf8(t[5]) && valid_utf8(t[6]));
        OfflineCrate {
            order,
            num_versions,
            keywords,
            categories,
            name: utf8_text(name_bytes),
            description: optional_text(description_bytes),
            repository: optional_text(repository_bytes),
            homepage: optional_text(homepage_bytes),
            documentation: optional_text(documentation_bytes),
            latest_stable_version: optional_text(stable_bytes),
            latest_version: optional_text(latest_bytes),
        }
    }

    /// This crate as a search result; its newest version is the latest one,
    /// or else the latest stable one.
    pub fn as_crate(&self, exact_match: bool) -> (r: Crate)
        ensures
            r.exact_match == exact_match,
            r.name@ == self.name@,
            opt_view(r.description) == opt_view(self.description),
            opt_view(r.homepage) == opt_view(self.homepage),
            opt_view(r.documentation) == opt_view(self.documentation),
            opt_view(r.repository) == opt_view(self.repository),
            opt_view(r.max_stable_version) == opt_view(self.latest_stable_version),
            opt_view(r.max_version) == match self.latest_version {
                Some(v) => Some(v@),
                None => opt_view(self.latest_stable_version),
            },
    {
        Crate {
            exact_match,
            name: self.name.clone(),
            description: clone_text(&self.description),
            homepage: clone_text(&self.homepage),
            documentation: clone_text(&self.documentation),
            repository: clone_text(&self.repository),
            max_stable_version: clone_text(&self.latest_stable_version),
            max_version: match &self.latest_version {
                Some(v) => Some(v.clone()),
                None => clone_text(&self.latest_stable_version),
            },
        }
    }
}

fn clone_text(s: &Option<String>) -> (r: Option<String>)
    ensures
        opt_view(r) == opt_view(*s),
{
    match s {
        Some(v) => Some(v.clone()),
        None => None,
    }
}

/// A name-separating character: `-` or `_`.
pub open spec fn is_sep(c: char) -> bool {
    c == '-' || c == '_'
}

/// The characters after the last separator.
pub open spec fn open_tail(s: Seq<char>) -> Seq<char>
    decreases s.len(),
{
    if s.len() == 0 {
        seq![]
    } else if is_sep(s.last()) {
        seq![]
    } else {
        open_tail(s.drop_last()).push(s.last())
    }
}

/// The non-empty runs that a separator closes.
pub open spec fn closed_runs(s: Seq<char>) -> Seq<Seq<char>>
    decreases s.len(),
{
    if s.len() == 0 {
        seq![]
    } else if is_sep(s.last()) {
        let before = closed_runs(s.drop_last());
        if open_tail(s.drop_last()).len() > 0 {
            before.push(open_tail(s.drop_last()))
        } else {
            before
        }
    } else {
        closed_runs(s.drop_last())
    }
}

/// The non-empty runs of `s` between separators, in order.
pub open spec fn name_runs(s: Seq<char>) -> Seq<Seq<char>> {
    if open_tail(s).len() > 0 {
        closed_runs(s).push(open_tail(s))
    } else {
        closed_runs(s)
    }
}

proof fn lemma_open_tail_clean(s: Seq<char>)
    ensures
        forall|i: int| 0 <= i < open_tail(s).len() ==> !is_sep(#[trigger] open_tail(s)[i]),
    decreases s.len(),
{
    if s.len() > 0 && !is_sep(s.last()) {
        lemma_open_tail_clean(s.drop_last());
        let t = open_tail(s.drop_last());
        assert forall|i: int| 0 <= i < open_tail(s).len() implies !is_sep(#[trigger] open_tail(s)[i]) by {
            if i < t.len() {
                assert(open_tail(s)[i] == t[i]);
            }
        }
    }
}

proof fn lemma_closed_runs_clean(s: Seq<char>)
    ensures
        forall|k: int| 0 <= k < closed_runs(s).len() ==> (#[trigger] closed_runs(s)[k]).len() > 0,
        forall|k: int, i: int|
            0 <= k < closed_runs(s).len() && 0 <= i < closed_runs(s)[k].len() ==> !is_sep(
                #[trigger] closed_runs(s)[k][i],
            ),
    decreases s.len(),
{
    if s.len() > 0 {
        lemma_closed_runs_clean(s.drop_last());
        lemma_open_tail_clean(s.drop_last());
        let before = closed_runs(s.drop_last());
        let now = closed_runs(s);
        assert forall|k: int| 0 <= k < now.len() implies (#[trigger] now[k]).len() > 0 by {
            if k < before.len() {
                assert(now[k] == before[k]);
            }
        }
        assert forall|k: int, i: int| 0 <= k < now.len() && 0 <= i < now[k].len() implies !is_sep(
            #[trigger] now[k][i],
        ) by {
            if k < before.len() {
                assert(now[k] == before[k]);
            } else {
                assert(now[k] == open_tail(s.drop_last()));
            }
        }
    }
}

/// The words of a crate name, before they are lower-cased, are not empty
/// and hold no `-` or `_`.
pub proof fn lemma_name_runs_clean(s: Seq<char>)
    ensures
        forall|k: int| 0 <= k < name_runs(s).len() ==> (#[trigger] name_runs(s)[k]).len() > 0,
        forall|k: int, i: int|
            0 <= k < name_runs(s).len() && 0 <= i < name_runs(s)[k].len() ==> !is_sep(#[trigger] name_runs(s)[k][i]),
{
    lemma_closed_runs_clean(s);
    lemma_open_tail_clean(s);
    let c = closed_runs(s);
    let r = name_runs(s);
    assert forall|k: int| 0 <= k < r.len() implies (#[trigger] r[k]).len() > 0 by {
        if k < c.len() {
            assert(r[k] == c[k]);
        }
    }
    assert forall|k: int, i: int| 0 <= k < r.len() && 0 <= i < r[k].len() implies !is_sep(#[trigger] r[k][i]) by {
        if k < c.len() {
            assert(r[k] == c[k]);
        } else {
            assert(r[k] == open_tail(s));
        }
    }
}

/// Names what `str::to_lowercase` gives for a text.
pub uninterp spec fn lowercase(s: Seq<char>) -> Seq<char>;

/// Lower-cases with `str::to_lowercase`; claims that the result is what the
/// name `lowercase` gives for the text.
#[verifier::external_body]
pub(crate) fn to_lower_text(s: &str) -> (r: String)
    ensures
        r@ == lowercase(s@),
{
    s.to_lowercase()
}

pub open spec fn lowered(runs: Seq<Seq<char>>) -> Seq<Seq<char>> {
    runs.map_values(|r: Seq<char>| lowercase(r))
}

/// The words of a crate name: its non-empty runs between `-` and `_`, each
/// lower-cased.
pub fn tokenize(name: &str) -> (r: Vec<String>)
    ensures
        string_views(r@) == lowered(name_runs(name@)),
{
    let cs = crate::text::chars_of(name);
    let mut out: Vec<String> = Vec::new();
    let mut cur: Vec<char> = Vec::new();
    let mut i: usize = 0;
    while i < cs.len()
        invariant
            i <= cs@.len(),
            cs@ == name@,
            string_views(out@) == lowered(closed_runs(cs@.take(i as int))),
            cur@ == open_tail(cs@.take(i as int)),
        decreases cs.len() - i,
    {
        let c = cs[i];
        assert(cs@.take(i + 1).drop_last() == cs@.take(i as int));
        let ghost before = out@;
        assert(string_views(before).len() == before.len());
        if c == '-' || c == '_' {
            if cur.len() > 0 {
                let word = to_lower_text(crate::text::string_from(&cur).as_str());
                out.push(word);
                assert(string_views(out@) =~= string_views(before).push(lowercase(cur@)));
            }
            cur = Vec::new();
        } else {
            cur.push(c);
        }
        assert(string_views(out@) =~= lowered(closed_runs(cs@.take(i + 1))));
        i = i + 1;
    }
    assert(cs@.take(cs@.len() as int) == cs@);
    let ghost before = out@;
    assert(string_views(before).len() == before.len());
    if cur.len() > 0 {
        let word = to_lower_text(crate::text::string_from(&cur).as_str());
        out.push(word);
        assert(string_views(out@) =~= string_views(before).push(lowercase(cur@)));
    }
    assert(string_views(out@) =~= lowered(name_runs(name@)));
    out
}

} // verus!
