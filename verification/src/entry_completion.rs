//! Completions inside a dependency's entry and in feature lists: crate
//! names by length, the version snippet offered after a key of a
//! dependency's table, the versions offered inside a version string, and
//! the entries of a feature list.
use vstd::prelude::*;
use crate::registry::{RustVersion, parts_text};
use crate::text::{chars_of, decimal, decimal_chars, find_char, find_char_in, push_str, string_from, append_chars};
use crate::lock::starts_with;
use crate::info_api::string_views;
use crate::toml::{has_dep_prefix, dep_prefix};

verus! {

/// Whether the table of an inline dependency still lacks its closing `}`
/// after a value: no line break or `}` follows it, only a line break
/// follows, or a line break comes before the first `}`.
pub open spec fn closing_missing(rest: Seq<char>) -> bool {
    match (find_char(rest, '\n'), find_char(rest, '}')) {
        (None, None) => true,
        (None, Some(_)) => false,
        (Some(_), None) => true,
        (Some(a), Some(b)) => b > a,
    }
}

/// The text the version snippet writes: `version = `, the value without
/// what was typed of it (when it starts with that), and `}` when the table
/// lacks its closing brace.
pub open spec fn snippet_text(key: Seq<char>, data: Seq<char>, rest: Seq<char>) -> Seq<char> {
    "version = "@ + (if key.len() > 0 && starts_with(data, key) {
        data.skip(key.len() as int)
    } else {
        data
    }) + (if closing_missing(rest) {
        "}"@
    } else {
        Seq::empty()
    })
}

/// The `version...` snippet after the key `key` of a dependency's table
/// (empty when nothing was typed yet), whose value reads `data` and is
/// followed by the text `rest`: offered when the key is empty or starts
/// `version`; its text is `snippet_text`.
pub fn version_key_snippet(key: &str, data: &str, rest: &str) -> (r: Option<String>)
    ensures
        r is Some <==> (key@.len() == 0 || starts_with("version"@, key@)),
        r matches Some(t) ==> t@ == snippet_text(key@, data@, rest@),
{
    proof {
        reveal_strlit("version");
        reveal_strlit("version = ");
        reveal_strlit("}");
    }
    let k = chars_of(key);
    if !(k.len() == 0 || crate::assist::text_starts_with("version", key)) {
        return None;
    }
    let d = chars_of(data);
    let mut out: Vec<char> = Vec::new();
    push_str(&mut out, "version = ");
    if k.len() > 0 && crate::assist::text_starts_with(data, key) {
        let mut i: usize = k.len();
        let ghost base = out@;
        while i < d.len()
            invariant
                k@.len() <= i <= d@.len(),
                out@ == base + d@.subrange(k@.len() as int, i as int),
            decreases d.len() - i,
        {
            out.push(d[i]);
            assert(d@.subrange(k@.len() as int, i + 1) =~= d@.subrange(k@.len() as int, i as int).push(d[i as int]));
            i = i + 1;
        }
        assert(d@.subrange(k@.len() as int, d@.len() as int) =~= data@.skip(key@.len() as int));
    } else {
        append_chars(&mut out, &d);
    }
    let rs = chars_of(rest);
    let nl = find_char_in(&rs, 0, rs.len(), '\n');
    let close = find_char_in(&rs, 0, rs.len(), '}');
    assert(rs@.subrange(0, rs@.len() as int) =~= rest@);
    let missing = match (nl, close) {
        (None, None) => true,
        (None, Some(_)) => false,
        (Some(_), None) => true,
        (Some(a), Some(b)) => b > a,
    };
    if missing {
        out.push('}');
        proof {
            assert("}"@ =~= seq!['}']);
        }
    } else {
        assert(out@ + Seq::<char>::empty() =~= out@);
    }
    assert(out@ =~= snippet_text(key@, data@, rest@));
    Some(string_from(&out))
}

/// `n` written in decimal with at least four digits, zeros in front.
pub open spec fn padded(n: nat) -> Seq<char> {
    if decimal(n).len() < 4 {
        Seq::new((4 - decimal(n).len()) as nat, |i: int| '0') + decimal(n)
    } else {
        decimal(n)
    }
}

fn padded_text(n: usize) -> (r: String)
    ensures
        r@ == padded(n as nat),
{
    let d = decimal_chars(n as u64);
    let mut out: Vec<char> = Vec::new();
    if d.len() < 4 {
        let zeros = 4 - d.len();
        let mut i: usize = 0;
        while i < zeros
            invariant
                i <= zeros,
                out@ == Seq::new(i as nat, |k: int| '0'),
            decreases zeros - i,
        {
            out.push('0');
            i = i + 1;
            assert(out@ =~= Seq::new(i as nat, |k: int| '0'));
        }
    }
    append_chars(&mut out, &d);
    assert(out@ =~= padded(n as nat));
    string_from(&out)
}

/// A version offered inside a version string: its text, and the text the
/// editor sorts it by.
pub struct VersionItem {
    pub label: String,
    pub sort_text: String,
}

/// The versions offered inside a dependency's version string: the known
/// versions newest first (the list reversed), each labelled with its text
/// and sorted by its place, four digits at least.
pub fn version_items(versions: &Vec<RustVersion>) -> (r: Vec<VersionItem>)
    ensures
        r@.len() == versions@.len(),
        forall|i: int|
            0 <= i < r@.len() ==> (#[trigger] r@[i]).label@ == parts_text(versions@[versions@.len() - 1 - i]@)
                && r@[i].sort_text@ == padded(i as nat),
{
    let n = versions.len();
    let mut out: Vec<VersionItem> = Vec::new();
    let mut i: usize = 0;
    while i < n
        invariant
            i <= n,
            n == versions@.len(),
            out@.len() == i,
            forall|k: int|
                0 <= k < i ==> (#[trigger] out@[k]).label@ == parts_text(versions@[n - 1 - k]@) && out@[k].sort_text@ == padded(
                    k as nat,
                ),
        decreases n - i,
    {
        let v = &versions[n - 1 - i];
        out.push(VersionItem { label: v.to_string(), sort_text: padded_text(i) });
        i = i + 1;
    }
    out
}


/// The entries of a feature list written with `dep:`, without it.
pub open spec fn dep_entries(existing: Seq<Seq<char>>) -> Seq<Seq<char>> {
    existing.filter(|e: Seq<char>| has_dep_prefix(e)).map_values(|e: Seq<char>| e.skip(4))
}

/// Whether a candidate is offered: it starts with `q` and is not taken.
pub open spec fn offered(q: Seq<char>, taken: Seq<Seq<char>>) -> spec_fn(Seq<char>) -> bool {
    |n: Seq<char>| starts_with(n, q) && !taken.contains(n)
}

/// What completes an entry of a feature list that reads `query`, given the
/// entries the list has (`existing`), the name of the feature the list
/// belongs to (`own`), the manifest's dependency names and its feature
/// names: after `dep:`, the dependencies that start with the rest and are
/// not in the list as `dep:` entries; else the features that start with the
/// query and are neither in the list nor the feature itself. Each in the
/// order given.
pub open spec fn feature_entry_candidates(
    query: Seq<char>,
    existing: Seq<Seq<char>>,
    own: Option<Seq<char>>,
    deps: Seq<Seq<char>>,
    features: Seq<Seq<char>>,
) -> Seq<Seq<char>> {
    if has_dep_prefix(query) {
        deps.filter(offered(query.skip(4), dep_entries(existing)))
    } else {
        features.filter(
            offered(
                query,
                match own {
                    Some(o) => existing.push(o),
                    None => existing,
                },
            ),
        )
    }
}

fn same_chars(a: &Vec<char>, b: &Vec<char>) -> (r: bool)
    ensures
        r == (a@ == b@),
{
    if a.len() != b.len() {
        return false;
    }
    let mut i: usize = 0;
    while i < a.len()
        invariant
            i <= a@.len(),
            a@.len() == b@.len(),
            forall|k: int| 0 <= k < i ==> a@[k] == b@[k],
        decreases a.len() - i,
    {
        if a[i] != b[i] {
            return false;
        }
        i = i + 1;
    }
    assert(a@ =~= b@);
    true
}

fn chars_start_with(s: &Vec<char>, p: &Vec<char>) -> (r: bool)
    ensures
        r == starts_with(s@, p@),
{
    if s.len() < p.len() {
        return false;
    }
    let mut i: usize = 0;
    while i < p.len()
        invariant
            i <= p@.len(),
            p@.len() <= s@.len(),
            forall|k: int| 0 <= k < i ==> s@[k] == p@[k],
        decreases p.len() - i,
    {
        if s[i] != p[i] {
            assert(s@.take(p@.len() as int)[i as int] != p@[i as int]);
            return false;
        }
        i = i + 1;
    }
    assert(s@.take(p@.len() as int) =~= p@);
    true
}

/// Whether one of the texts is `s`.
fn holds(v: &Vec<Vec<char>>, s: &Vec<char>) -> (r: bool)
    ensures
        r == v@.map_values(|x: Vec<char>| x@).contains(s@),
{
    let ghost vs = v@.map_values(|x: Vec<char>| x@);
    let mut i: usize = 0;
    while i < v.len()
        invariant
            i <= v@.len(),
            vs == v@.map_values(|x: Vec<char>| x@),
            forall|k: int| 0 <= k < i ==> vs[k] != s@,
        decreases v.len() - i,
    {
        if same_chars(&v[i], s) {
            assert(vs[i as int] == s@);
            return true;
        }
        i = i + 1;
    }
    false
}

/// The candidates of `names` that `offered` keeps, in order.
fn keep_offered(names: &Vec<String>, q: &Vec<char>, taken: &Vec<Vec<char>>) -> (r: Vec<String>)
    ensures
        string_views(r@) == string_views(names@).filter(offered(q@, taken@.map_values(|x: Vec<char>| x@))),
{
    let ghost p = offered(q@, taken@.map_values(|x: Vec<char>| x@));
    let ghost nv = string_views(names@);
    let mut out: Vec<String> = Vec::new();
    let mut i: usize = 0;
    while i < names.len()
        invariant
            i <= names@.len(),
            nv == string_views(names@),
            p == offered(q@, taken@.map_values(|x: Vec<char>| x@)),
            string_views(out@) == nv.take(i as int).filter(p),
        decreases names.len() - i,
    {
        proof {
            reveal(Seq::filter);
            assert(nv.take(i + 1).drop_last() =~= nv.take(i as int));
            assert(nv.take(i + 1).last() == names@[i as int]@);
        }
        let n = chars_of(names[i].as_str());
        if chars_start_with(&n, q) && !holds(taken, &n) {
            let ghost before = out@;
            out.push(string_from(&n));
            assert(string_views(out@) =~= string_views(before).push(names@[i as int]@));
        }
        i = i + 1;
    }
    assert(nv.take(i as int) =~= nv);
    out
}

/// What completes an entry of a feature list (see
/// `feature_entry_candidates`).
pub fn feature_entry_completions(
    query: &str,
    existing: &Vec<String>,
    own: Option<&str>,
    deps: &Vec<String>,
    features: &Vec<String>,
) -> (r: Vec<String>)
    ensures
        string_views(r@) == feature_entry_candidates(
            query@,
            string_views(existing@),
            match own {
                Some(o) => Some(o@),
                None => None,
            },
            string_views(deps@),
            string_views(features@),
        ),
{
    let q = chars_of(query);
    let is_dep = q.len() >= 4 && q[0] == 'd' && q[1] == 'e' && q[2] == 'p' && q[3] == ':';
    assert(is_dep == has_dep_prefix(query@)) by {
        if q@.len() >= 4 {
            assert(q@.take(4) =~= seq![q@[0], q@[1], q@[2], q@[3]]);
        }
        assert(dep_prefix() =~= seq!['d', 'e', 'p', ':']);
    }
    let ghost ev = string_views(existing@);
    let mut taken: Vec<Vec<char>> = Vec::new();
    if is_dep {
        let mut rest: Vec<char> = Vec::new();
        let mut i: usize = 4;
        while i < q.len()
            invariant
                4 <= i <= q@.len(),
                rest@ == q@.subrange(4, i as int),
            decreases q.len() - i,
        {
            rest.push(q[i]);
            assert(q@.subrange(4, i + 1) =~= q@.subrange(4, i as int).push(q@[i as int]));
            i = i + 1;
        }
        assert(rest@ =~= query@.skip(4));
        let mut k: usize = 0;
        while k < existing.len()
            invariant
                k <= existing@.len(),
                ev == string_views(existing@),
                taken@.map_values(|x: Vec<char>| x@) == dep_entries(ev.take(k as int)),
            decreases existing.len() - k,
        {
            proof {
                reveal(Seq::filter);
                assert(ev.take(k + 1).drop_last() =~= ev.take(k as int));
                assert(ev.take(k + 1).last() == existing@[k as int]@);
            }
            let e = chars_of(existing[k].as_str());
            let ghost before = taken@;
            if e.len() >= 4 && e[0] == 'd' && e[1] == 'e' && e[2] == 'p' && e[3] == ':' {
                assert(e@.take(4) =~= seq![e@[0], e@[1], e@[2], e@[3]]);
                assert(dep_prefix() =~= seq!['d', 'e', 'p', ':']);
                let mut s: Vec<char> = Vec::new();
                let mut j: usize = 4;
                while j < e.len()
                    invariant
                        4 <= j <= e@.len(),
                        s@ == e@.subrange(4, j as int),
                    decreases e.len() - j,
                {
                    s.push(e[j]);
                    assert(e@.subrange(4, j + 1) =~= e@.subrange(4, j as int).push(e@[j as int]));
                    j = j + 1;
                }
                taken.push(s);
                assert(taken@.map_values(|x: Vec<char>| x@) =~= before.map_values(|x: Vec<char>| x@).push(e@.skip(4)));
            } else {
                assert(!has_dep_prefix(e@)) by {
                    if has_dep_prefix(e@) {
                        assert(dep_prefix() =~= seq!['d', 'e', 'p', ':']);
                        assert(e@[0] == e@.take(4)[0] && e@[1] == e@.take(4)[1] && e@[2] == e@.take(4)[2] && e@[3] == e@.take(4)[3]);
                    }
                }
            }
            assert(dep_entries(ev.take(k + 1)) =~= taken@.map_values(|x: Vec<char>| x@));
            k = k + 1;
        }
        assert(ev.take(k as int) =~= ev);
        keep_offered(deps, &rest, &taken)
    } else {
        let mut k: usize = 0;
        while k < existing.len()
            invariant
                k <= existing@.len(),
                ev == string_views(existing@),
                taken@.map_values(|x: Vec<char>| x@) == ev.take(k as int),
            decreases existing.len() - k,
        {
            let ghost before = taken@;
            let e = chars_of(existing[k].as_str());
            taken.push(e);
            assert(taken@.map_values(|x: Vec<char>| x@) =~= before.map_values(|x: Vec<char>| x@).push(existing@[k as int]@));
            assert(ev.take(k + 1) =~= ev.take(k as int).push(ev[k as int]));
            assert(taken@.map_values(|x: Vec<char>| x@) =~= ev.take(k + 1));
            k = k + 1;
        }
        assert(ev.take(k as int) =~= ev);
        if let Some(o) = own {
            let ghost before = taken@;
            taken.push(chars_of(o));
            assert(taken@.map_values(|x: Vec<char>| x@) =~= before.map_values(|x: Vec<char>| x@).push(o@));
        }
        keep_offered(features, &q, &taken)
    }
}


// ---------------------------------------------------------------------------
// Crate names.

/// A crate name offered as a completion: its name, description, the text
/// inserted, and the text the editor sorts it by.
pub struct NameItem {
    pub label: String,
    pub detail: Option<String>,
    pub insert_text: String,
    pub sort_text: String,
}

/// A search result as text: name, description, version.
pub open spec fn result_views(rs: Seq<(String, Option<String>, String)>) -> Seq<(Seq<char>, Option<Seq<char>>, Seq<char>)> {
    rs.map_values(|x: (String, Option<String>, String)| (x.0@, crate::offline::opt_view(x.1), x.2@))
}

/// The place of result `j` in the order by name length: its name's byte
/// length, then its position.
pub open spec fn length_key(rs: Seq<(Seq<char>, Option<Seq<char>>, Seq<char>)>, j: usize) -> (nat, usize) {
    (crate::toml::utf8_len(rs[j as int].0), j)
}

pub open spec fn key_lt(a: (nat, usize), b: (nat, usize)) -> bool {
    a.0 < b.0 || (a.0 == b.0 && a.1 < b.1)
}

/// Whether `order` lists every result once, shorter names first, results
/// with names of one length in their order.
pub open spec fn by_length(rs: Seq<(Seq<char>, Option<Seq<char>>, Seq<char>)>, order: Seq<usize>) -> bool {
    &&& order.len() == rs.len()
    &&& forall|i: int| 0 <= i < order.len() ==> #[trigger] order[i] < rs.len()
    &&& forall|i: int, j: int| 0 <= i < j < order.len() ==> key_lt(length_key(rs, #[trigger] order[i]), length_key(rs, #[trigger] order[j]))
}

/// Whether result `j` is offered: it is the crate typed, or the manifest
/// does not have it yet.
pub open spec fn name_kept(
    rs: Seq<(Seq<char>, Option<Seq<char>>, Seq<char>)>,
    query: Seq<char>,
    existing: Seq<Seq<char>>,
) -> spec_fn(usize) -> bool {
    |j: usize| rs[j as int].0 == query || !existing.contains(rs[j as int].0)
}

/// The text a name completion inserts: a workspace dependency when the
/// workspace's manifest has the crate, else the crate with its version.
pub open spec fn name_insert(name: Seq<char>, version: Seq<char>, root: Seq<Seq<char>>) -> Seq<char> {
    if root.contains(name) {
        name + " = { workspace = true }"@
    } else {
        name + " = \""@ + version + "\""@
    }
}

/// Whether `item` shows the result `e` at place `i`.
pub open spec fn name_item_is(item: NameItem, e: (Seq<char>, Option<Seq<char>>, Seq<char>), root: Seq<Seq<char>>, i: nat) -> bool {
    &&& item.label@ == e.0
    &&& crate::offline::opt_view(item.detail) == e.1
    &&& item.insert_text@ == name_insert(e.0, e.2, root)
    &&& item.sort_text@ == padded(i)
}

pub open spec fn key_views(v: Seq<(usize, usize)>) -> Seq<(nat, usize)> {
    v.map_values(|x: (usize, usize)| (x.0 as nat, x.1))
}

/// Sorts the pairs with `slice::sort`, which orders tuples field by field;
/// the pairs are the same ones.
#[verifier::external_body]
fn sort_keys(v: &mut Vec<(usize, usize)>)
    ensures
        final(v)@.to_multiset() == old(v)@.to_multiset(),
        forall|i: int, j: int| 0 <= i < j < final(v)@.len() ==> !key_lt(#[trigger] key_views(final(v)@)[j], #[trigger] key_views(final(v)@)[i]),
{
    v.sort()
}

/// The crate names offered after a dependency's name, from the search
/// results (name, description, version) for what was typed (`query`): the
/// results by name length (see `by_length`), those the manifest has
/// (`existing`) left out unless it is the crate typed; each inserts its
/// dependency line (see `name_insert`, `root` being the dependencies of the
/// workspace's manifest) and sorts by its place.
pub fn name_completions(
    query: &str,
    results: &Vec<(String, Option<String>, String)>,
    existing: &Vec<String>,
    root: &Vec<String>,
) -> (r: Vec<NameItem>)
    ensures
        exists|order: Seq<usize>|
            #![trigger by_length(result_views(results@), order)]
            by_length(result_views(results@), order) && ({
                let kept = order.filter(name_kept(result_views(results@), query@, string_views(existing@)));
                &&& r@.len() == kept.len()
                &&& forall|i: int|
                    0 <= i < r@.len() ==> name_item_is(
                        #[trigger] r@[i],
                        result_views(results@)[kept[i] as int],
                        string_views(root@),
                        i as nat,
                    )
            }),
{
    proof {
        reveal_strlit(" = { workspace = true }");
        reveal_strlit(" = \"");
        reveal_strlit("\"");
    }
    let ghost rv = result_views(results@);
    let n = results.len();
    let mut keys: Vec<(usize, usize)> = Vec::new();
    let mut j: usize = 0;
    while j < n
        invariant
            j <= n,
            n == results@.len(),
            rv == result_views(results@),
            keys@.len() == j,
            forall|m: int| 0 <= m < j ==> (#[trigger] keys@[m]).1 == m && keys@[m].0 as nat == crate::toml::utf8_len(rv[m].0),
        decreases n - j,
    {
        let b = results[j].0.as_str().as_bytes_vec();
        keys.push((b.len(), j));
        j = j + 1;
    }
    let ghost unsorted = keys@;
    sort_keys(&mut keys);
    let ghost order = keys@.map_values(|x: (usize, usize)| x.1);
    proof {
        broadcast use vstd::seq_lib::group_to_multiset_ensures;
        assert(unsorted.no_duplicates()) by {
            assert forall|x: int, y: int| 0 <= x < unsorted.len() && 0 <= y < unsorted.len() && x != y implies unsorted[x] != unsorted[y] by {
                assert(unsorted[x].1 != unsorted[y].1);
            }
        }
        unsorted.lemma_multiset_has_no_duplicates();
        assert forall|m: int| 0 <= m < keys@.len() implies #[trigger] unsorted.contains(keys@[m]) by {
            assert(keys@.contains(keys@[m]));
            assert(keys@.to_multiset().count(keys@[m]) > 0);
        }
        assert forall|m: int| 0 <= m < keys@.len() implies (#[trigger] keys@[m]).1 < n && keys@[m].0 as nat == crate::toml::utf8_len(rv[keys@[m].1 as int].0) by {
            assert(unsorted.contains(keys@[m]));
            let u = choose|u: int| 0 <= u < unsorted.len() && unsorted[u] == keys@[m];
        }
        assert(keys@.len() == unsorted.len()) by {
            assert(keys@.to_multiset().len() == unsorted.to_multiset().len());
        }
        assert forall|a: int, b: int| 0 <= a < b < order.len() implies key_lt(length_key(rv, #[trigger] order[a]), length_key(rv, #[trigger] order[b])) by {
            assert(key_views(keys@)[a] == (keys@[a].0 as nat, keys@[a].1));
            assert(key_views(keys@)[b] == (keys@[b].0 as nat, keys@[b].1));
            if keys@[a] == keys@[b] {
                assert(unsorted.to_multiset().count(keys@[a]) <= 1);
                assert(keys@.remove(a).contains(keys@[b])) by {
                    assert(keys@.remove(a)[b - 1] == keys@[b]);
                }
                assert(keys@.remove(a).to_multiset().count(keys@[b]) > 0);
                assert(keys@.to_multiset().count(keys@[a]) >= 2);
            }
        }
        assert(by_length(rv, order));
    }
    let ghost kp = name_kept(rv, query@, string_views(existing@));
    let mut out: Vec<NameItem> = Vec::new();
    let mut i: usize = 0;
    while i < keys.len()
        invariant
            i <= keys@.len(),
            n == results@.len(),
            rv == result_views(results@),
            order == keys@.map_values(|x: (usize, usize)| x.1),
            forall|m: int| 0 <= m < keys@.len() ==> (#[trigger] keys@[m]).1 < n,
            kp == name_kept(rv, query@, string_views(existing@)),
            out@.len() == order.take(i as int).filter(kp).len(),
            forall|m: int|
                0 <= m < out@.len() ==> name_item_is(
                    #[trigger] out@[m],
                    rv[order.take(i as int).filter(kp)[m] as int],
                    string_views(root@),
                    m as nat,
                ),
        decreases keys.len() - i,
    {
        proof {
            reveal(Seq::filter);
            assert(order.take(i + 1).drop_last() =~= order.take(i as int));
            assert(order.take(i + 1).last() == keys@[i as int].1);
        }
        let j = keys[i].1;
        let e = &results[j];
        assert(rv[j as int] == (e.0@, crate::offline::opt_view(e.1), e.2@));
        let same = crate::text::same_text(e.0.as_str(), query);
        let listed = crate::structure::holds_text(existing, e.0.as_str());
        if same || !listed {
            let in_root = crate::structure::holds_text(root, e.0.as_str());
            let mut text: Vec<char> = chars_of(e.0.as_str());
            if in_root {
                push_str(&mut text, " = { workspace = true }");
            } else {
                push_str(&mut text, " = \"");
                push_str(&mut text, e.2.as_str());
                push_str(&mut text, "\"");
            }
            assert(text@ =~= name_insert(e.0@, e.2@, string_views(root@)));
            let detail = match &e.1 {
                Some(d) => Some(d.clone()),
                None => None,
            };
            let item = NameItem { label: e.0.clone(), detail, insert_text: string_from(&text), sort_text: padded_text(out.len()) };
            out.push(item);
        }
        i = i + 1;
    }
    assert(order.take(i as int) =~= order);
    out
}

} // verus!
