//! The offline crate list kept in a trie: crate names with
//! their versions, grouped under a key (the name lower-cased, letters and
//! digits only) in a `trie_rs` map, looked up by key and searched by key
//! prefix.
use vstd::prelude::*;
use trie_rs::map::{Trie, TrieBuilder};
use crate::info_api::string_views;
use crate::search_index::{bytes_lt, is_prefix, pair_views, pair_tokens, groups, token_bytes, increasing, sort_pairs, group_pairs, lemma_same_contents, copy_bytes};
use crate::position::{alphanumerics, normalize_key};
use crate::offline::{lowercase, opt_view, to_lower_text};
use crate::registry::{RustVersion, parse_parts};
use crate::lock::clone_texts;

verus! {

#[verifier::external_type_specification]
#[verifier::external_body]
#[verifier::reject_recursive_types(L)]
#[verifier::reject_recursive_types(V)]
pub struct ExTrie<L, V>(Trie<L, V>);

#[verifier::external_type_specification]
#[verifier::external_body]
#[verifier::reject_recursive_types(L)]
#[verifier::reject_recursive_types(V)]
pub struct ExTrieBuilder<L, V>(TrieBuilder<L, V>);

/// A crate of the list, as text: its name and its versions.
pub open spec fn entry_view(e: (String, Vec<String>)) -> (Seq<char>, Seq<Seq<char>>) {
    (e.0@, string_views(e.1@))
}

/// The crates under one key, as text.
pub open spec fn listing_view(v: Seq<(String, Vec<String>)>) -> Seq<(Seq<char>, Seq<Seq<char>>)> {
    v.map_values(|e: (String, Vec<String>)| entry_view(e))
}

/// The listings pushed into a trie builder, by the bytes of their keys.
pub uninterp spec fn pushed(b: TrieBuilder<u8, Vec<(String, Vec<String>)>>) -> Map<Seq<u8>, Seq<(Seq<char>, Seq<Seq<char>>)>>;

/// The listings a trie holds, by the bytes of their keys.
pub uninterp spec fn trie_map(t: Trie<u8, Vec<(String, Vec<String>)>>) -> Map<Seq<u8>, Seq<(Seq<char>, Seq<Seq<char>>)>>;

/// No listing at all.
pub open spec fn no_listings() -> Map<Seq<u8>, Seq<(Seq<char>, Seq<Seq<char>>)>> {
    Map::empty()
}

/// An empty builder, with `TrieBuilder::new`.
#[verifier::external_body]
fn trie_builder_new() -> (r: TrieBuilder<u8, Vec<(String, Vec<String>)>>)
    ensures
        pushed(r) == no_listings(),
{
    TrieBuilder::new()
}

/// Adds a listing under `key` with `TrieBuilder::push`; a
/// listing pushed before under the same key is replaced. `push` panics on an
/// empty key, which `requires` leaves out.
#[verifier::external_body]
fn trie_builder_push(b: &mut TrieBuilder<u8, Vec<(String, Vec<String>)>>, key: &Vec<u8>, value: Vec<(String, Vec<String>)>)
    requires
        key@.len() > 0,
    ensures
        pushed(*final(b)) == pushed(*old(b)).insert(key@, listing_view(value@)),
{
    b.push(key, value)
}

/// Builds the trie with `TrieBuilder::build`; it holds what was pushed.
#[verifier::external_body]
fn trie_build(b: TrieBuilder<u8, Vec<(String, Vec<String>)>>) -> (r: Trie<u8, Vec<(String, Vec<String>)>>)
    ensures
        trie_map(r) == pushed(b),
{
    b.build()
}

/// The listing under `key`, cloned, with `Trie::exact_match`; nothing when
/// no listing is there, and nothing for an empty key.
#[verifier::external_body]
fn trie_exact(t: &Trie<u8, Vec<(String, Vec<String>)>>, key: &Vec<u8>) -> (r: Option<Vec<(String, Vec<String>)>>)
    ensures
        r is Some <==> (key@.len() > 0 && trie_map(*t).dom().contains(key@)),
        r matches Some(v) ==> listing_view(v@) == trie_map(*t)[key@],
{
    t.exact_match(key).cloned()
}

/// Whether `ps` lists, in increasing order of their keys, exactly the keys
/// of `m` that `q` starts, each with its listing.
pub open spec fn hits_listed(
    m: Map<Seq<u8>, Seq<(Seq<char>, Seq<Seq<char>>)>>,
    q: Seq<u8>,
    ps: Seq<(Seq<u8>, Seq<(Seq<char>, Seq<Seq<char>>)>)>,
) -> bool {
    &&& forall|i: int, j: int| 0 <= i < j < ps.len() ==> bytes_lt(#[trigger] ps[i].0, #[trigger] ps[j].0)
    &&& forall|i: int| 0 <= i < ps.len() ==> m.dom().contains(#[trigger] ps[i].0) && is_prefix(q, ps[i].0) && m[ps[i].0] == ps[i].1
    &&& forall|k: Seq<u8>| m.dom().contains(k) && is_prefix(q, k) ==> exists|i: int| 0 <= i < ps.len() && #[trigger] ps[i].0 == k
}

pub open spec fn hit_views(v: Seq<(Vec<u8>, Vec<(String, Vec<String>)>)>) -> Seq<(Seq<u8>, Seq<(Seq<char>, Seq<Seq<char>>)>)> {
    v.map_values(|x: (Vec<u8>, Vec<(String, Vec<String>)>)| (x.0@, listing_view(x.1@)))
}

/// Every key that `q` starts, with its listing cloned,
/// with `Trie::predictive_search`: it walks the trie's nodes depth first,
/// children in increasing label order, so the keys come in increasing
/// order.
#[verifier::external_body]
fn trie_predictive(t: &Trie<u8, Vec<(String, Vec<String>)>>, q: &Vec<u8>) -> (r: Vec<(Vec<u8>, Vec<(String, Vec<String>)>)>)
    ensures
        hits_listed(trie_map(*t), q@, hit_views(r@)),
{
    t.predictive_search::<Vec<u8>, _>(q).map(|(k, v)| (k, v.clone())).collect()
}

// ---------------------------------------------------------------------------
// Grouping the crates by key.

/// The key a crate name is filed under, as bytes: the name lower-cased,
/// letters and digits only.
pub open spec fn key_bytes(name: Seq<char>) -> Seq<u8> {
    vstd::utf8::encode_utf8(alphanumerics(lowercase(name)))
}

/// Whether a crate is filed under `k`.
pub open spec fn filed_as(k: Seq<u8>) -> spec_fn((Seq<char>, Seq<Seq<char>>)) -> bool {
    |e: (Seq<char>, Seq<Seq<char>>)| key_bytes(e.0) == k
}

/// The crates of `es` filed under `k`, in their order.
pub open spec fn filed_under(es: Seq<(Seq<char>, Seq<Seq<char>>)>, k: Seq<u8>) -> Seq<(Seq<char>, Seq<Seq<char>>)> {
    es.filter(filed_as(k))
}

pub open spec fn group_views(gs: Seq<(Vec<u8>, Vec<(String, Vec<String>)>)>) -> Seq<(Seq<u8>, Seq<(Seq<char>, Seq<Seq<char>>)>)> {
    gs.map_values(|g: (Vec<u8>, Vec<(String, Vec<String>)>)| (g.0@, listing_view(g.1@)))
}

/// Whether `gs` groups the crates `es` by key: the keys in increasing
/// order, each key of a crate once, and under each key the crates filed
/// under it, in their order.
pub open spec fn grouped_by_key(
    es: Seq<(Seq<char>, Seq<Seq<char>>)>,
    gs: Seq<(Seq<u8>, Seq<(Seq<char>, Seq<Seq<char>>)>)>,
) -> bool {
    &&& forall|i: int, j: int| 0 <= i < j < gs.len() ==> bytes_lt(#[trigger] gs[i].0, #[trigger] gs[j].0)
    &&& forall|i: int| 0 <= i < gs.len() ==> #[trigger] gs[i].1 == filed_under(es, gs[i].0) && gs[i].1.len() > 0
    &&& forall|n: int| 0 <= n < es.len() ==> has_group(gs, key_bytes(#[trigger] es[n].0))
}

/// Whether one of the groups has key `k`.
pub open spec fn has_group(gs: Seq<(Seq<u8>, Seq<(Seq<char>, Seq<Seq<char>>)>)>, k: Seq<u8>) -> bool {
    exists|i: int| 0 <= i < gs.len() && #[trigger] gs[i].0 == k
}

/// The (key, position) pairs of the crates.
pub open spec fn entry_pairs(es: Seq<(Seq<char>, Seq<Seq<char>>)>) -> Seq<(Seq<u8>, usize)> {
    Seq::new(es.len(), |n: int| (key_bytes(es[n].0), n as usize))
}

/// Picking, in increasing order, exactly the positions whose items pass a
/// test gives the items that pass it, in their order.
proof fn lemma_filter_by_ids<A>(es: Seq<A>, pred: spec_fn(A) -> bool, ids: Seq<usize>)
    requires
        es.len() <= usize::MAX,
        increasing(ids),
        forall|k: int| 0 <= k < ids.len() ==> #[trigger] ids[k] < es.len(),
        forall|j: usize| j < es.len() ==> (pred(#[trigger] es[j as int]) <==> ids.contains(j)),
    ensures
        es.filter(pred) == ids.map_values(|j: usize| es[j as int]),
    decreases es.len(),
{
    reveal(Seq::filter);
    if es.len() == 0 {
        if ids.len() > 0 {
            assert(ids[0] < es.len());
        }
        assert(es.filter(pred) =~= Seq::<A>::empty());
        assert(ids.map_values(|j: usize| es[j as int]) =~= Seq::<A>::empty());
    } else {
        let l = (es.len() - 1) as usize;
        let init = es.drop_last();
        if pred(es[l as int]) {
            assert(ids.contains(l));
            let k = choose|k: int| 0 <= k < ids.len() && ids[k] == l;
            if k < ids.len() - 1 {
                assert(ids[k] < ids[k + 1]);
                assert(ids[k + 1] < es.len());
            }
            assert(ids[ids.len() - 1] == l);
            let rest = ids.drop_last();
            assert forall|j: usize| j < init.len() implies (pred(#[trigger] init[j as int]) <==> rest.contains(j)) by {
                assert(init[j as int] == es[j as int]);
                if ids.contains(j) {
                    let m = choose|m: int| 0 <= m < ids.len() && ids[m] == j;
                    assert(m != ids.len() - 1);
                    assert(rest[m] == j);
                }
                if rest.contains(j) {
                    let m = choose|m: int| 0 <= m < rest.len() && rest[m] == j;
                    assert(ids[m] == j);
                }
            }
            assert forall|k2: int| 0 <= k2 < rest.len() implies #[trigger] rest[k2] < init.len() by {
                assert(ids[k2] < ids[ids.len() - 1]);
            }
            assert(increasing(rest)) by {
                assert forall|a: int, b: int| 0 <= a < b < rest.len() implies #[trigger] rest[a] < #[trigger] rest[b] by {
                    assert(ids[a] < ids[b]);
                }
            }
            lemma_filter_by_ids(init, pred, rest);
            assert forall|a: int| 0 <= a < rest.len() implies init[#[trigger] rest[a] as int] == es[ids[a] as int] by {
                assert(rest[a] < init.len());
            }
            assert(ids.map_values(|j: usize| es[j as int]) =~= rest.map_values(|j: usize| init[j as int]).push(es[l as int]));
            assert(es.last() == es[l as int]);
            assert(es.filter(pred) == init.filter(pred).push(es.last()));
        } else {
            assert forall|j: usize| j < init.len() implies (pred(#[trigger] init[j as int]) <==> ids.contains(j)) by {
                assert(init[j as int] == es[j as int]);
            }
            assert forall|k2: int| 0 <= k2 < ids.len() implies #[trigger] ids[k2] < init.len() by {
                assert(ids.contains(ids[k2]));
                assert(ids[k2] != l);
            }
            lemma_filter_by_ids(init, pred, ids);
            assert forall|a: int| 0 <= a < ids.len() implies init[#[trigger] ids[a] as int] == es[ids[a] as int] by {
                assert(ids[a] < init.len());
            }
            assert(ids.map_values(|j: usize| es[j as int]) =~= ids.map_values(|j: usize| init[j as int]));
            assert(es.last() == es[l as int]);
            assert(es.filter(pred) == init.filter(pred));
        }
    }
}

fn clone_entry(e: &(String, Vec<String>)) -> (r: (String, Vec<String>))
    ensures
        entry_view(r) == entry_view(*e),
{
    (e.0.clone(), clone_texts(&e.1))
}

/// The (key, position) pairs of the crates.
fn key_pairs(entries: &Vec<(String, Vec<String>)>) -> (r: Vec<(Vec<u8>, usize)>)
    ensures
        pair_views(r@) == entry_pairs(listing_view(entries@)),
{
    let ghost es = listing_view(entries@);
    let mut out: Vec<(Vec<u8>, usize)> = Vec::new();
    let mut n: usize = 0;
    while n < entries.len()
        invariant
            n <= entries@.len(),
            es == listing_view(entries@),
            pair_views(out@) == entry_pairs(es).take(n as int),
        decreases entries.len() - n,
    {
        let key = normalize_key(entries[n].0.as_str());
        let bytes = key.as_str().as_bytes_vec();
        assert(es[n as int].0 == entries@[n as int].0@);
        let ghost before = pair_views(out@);
        assert(bytes@ == key_bytes(es[n as int].0));
        out.push((bytes, n));
        assert(pair_views(out@) =~= before.push((key_bytes(es[n as int].0), n)));
        assert(entry_pairs(es).take(n + 1) =~= entry_pairs(es).take(n as int).push(entry_pairs(es)[n as int]));
        assert(pair_views(out@) =~= entry_pairs(es).take(n + 1));
        n = n + 1;
    }
    assert(entry_pairs(es).take(n as int) =~= entry_pairs(es));
    out
}

/// Groups the crates by key (see `grouped_by_key`).
pub fn group_entries(entries: &Vec<(String, Vec<String>)>) -> (r: Vec<(Vec<u8>, Vec<(String, Vec<String>)>)>)
    ensures
        grouped_by_key(listing_view(entries@), group_views(r@)),
{
    let ghost es = listing_view(entries@);
    assert(es.len() == entries.len());
    let mut pairs = key_pairs(entries);
    let ghost unsorted = pairs@;
    sort_pairs(&mut pairs);
    proof {
        lemma_same_contents(unsorted, pairs@);
    }
    let tokens = group_pairs(&pairs);
    let ghost ps = pair_views(pairs@);
    let ghost eps = entry_pairs(es);
    let mut out: Vec<(Vec<u8>, Vec<(String, Vec<String>)>)> = Vec::new();
    let mut t: usize = 0;
    while t < tokens.len()
        invariant
            t <= tokens@.len(),
            es == listing_view(entries@),
            es.len() <= usize::MAX,
            eps == entry_pairs(es),
            ps == pair_views(pairs@),
            groups(tokens@, ps),
            forall|p: (Seq<u8>, usize)| ps.contains(p) <==> eps.contains(p),
            out@.len() == t,
            forall|i: int| 0 <= i < t ==> (#[trigger] out@[i]).0@ == tokens@[i].0@ && listing_view(out@[i].1@) == filed_under(es, tokens@[i].0@),
        decreases tokens.len() - t,
    {
        let ids = &tokens[t].1;
        let ghost tok = tokens@[t as int].0@;
        assert forall|m: int| 0 <= m < ids@.len() implies #[trigger] ids@[m] < es.len() by {
            assert(ids@.contains(ids@[m]));
            assert(ps.contains((tok, ids@[m])));
            let n = choose|n: int| 0 <= n < eps.len() && eps[n] == (tok, ids@[m]);
        }
        assert forall|j: usize| j < es.len() implies (filed_as(tok)(#[trigger] es[j as int]) <==> ids@.contains(j)) by {
            if key_bytes(es[j as int].0) == tok {
                assert(eps[j as int] == (tok, j));
                assert(eps.contains((tok, j)));
            }
            if ids@.contains(j) {
                assert(ps.contains((tok, j)));
                let n = choose|n: int| 0 <= n < eps.len() && eps[n] == (tok, j);
                assert(n as usize == j);
                assert(n == j);
                assert(key_bytes(es[j as int].0) == tok);
            }
        }
        let mut listing: Vec<(String, Vec<String>)> = Vec::new();
        let mut k: usize = 0;
        while k < ids.len()
            invariant
                k <= ids@.len(),
                es == listing_view(entries@),
                forall|m: int| 0 <= m < ids@.len() ==> #[trigger] ids@[m] < es.len(),
                listing_view(listing@) == ids@.take(k as int).map_values(|j: usize| es[j as int]),
            decreases ids.len() - k,
        {
            let j = ids[k];
            let e = clone_entry(&entries[j]);
            let ghost before = listing@;
            listing.push(e);
            assert(listing_view(listing@) =~= listing_view(before).push(es[j as int]));
            assert(ids@.take(k + 1) =~= ids@.take(k as int).push(j));
            k = k + 1;
        }
        assert(ids@.take(ids@.len() as int) =~= ids@);
        proof {
            lemma_filter_by_ids(es, filed_as(tok), ids@);
        }
        let key = copy_bytes(&tokens[t].0);
        out.push((key, listing));
        t = t + 1;
    }
    proof {
        let gs = group_views(out@);
        assert forall|i: int| 0 <= i < gs.len() implies #[trigger] gs[i].1 == filed_under(es, gs[i].0) && gs[i].1.len() > 0 by {
            assert(out@[i].0@ == tokens@[i].0@);
            let ids = tokens@[i].1@;
            assert(ids.len() > 0);
            assert(ids.contains(ids[0]));
            assert(ps.contains((tokens@[i].0@, ids[0])));
            let n = choose|n: int| 0 <= n < eps.len() && eps[n] == (tokens@[i].0@, ids[0]);
            reveal(Seq::filter);
            es.lemma_filter_contains(filed_as(tokens@[i].0@), n);
        }
        assert forall|i: int, j: int| 0 <= i < j < gs.len() implies bytes_lt(#[trigger] gs[i].0, #[trigger] gs[j].0) by {
            assert(gs[i].0 == token_bytes(tokens@)[i]);
            assert(gs[j].0 == token_bytes(tokens@)[j]);
        }
        assert forall|n: int| 0 <= n < es.len() implies has_group(gs, key_bytes(#[trigger] es[n].0)) by {
            let p = (key_bytes(es[n].0), n as usize);
            assert(eps[n] == p);
            assert(eps.contains(p));
            assert(ps.contains(p));
            let m = choose|m: int| 0 <= m < ps.len() && ps[m] == p;
            assert(pair_tokens(ps)[m] == p.0);
            assert(pair_tokens(ps).contains(p.0));
            assert(token_bytes(tokens@).contains(p.0));
            let i = choose|i: int| 0 <= i < token_bytes(tokens@).len() && token_bytes(tokens@)[i] == p.0;
            assert(gs[i].0 == p.0);
        }
    }
    out
}


// ---------------------------------------------------------------------------
// The list.

/// The offline crate list: for each key, the crates filed under it.
pub struct OfflineCratesData {
    pub trie: Trie<u8, Vec<(String, Vec<String>)>>,
}

/// The map that pushing the groups in order makes.
pub open spec fn groups_map(gs: Seq<(Seq<u8>, Seq<(Seq<char>, Seq<Seq<char>>)>)>) -> Map<Seq<u8>, Seq<(Seq<char>, Seq<Seq<char>>)>>
    decreases gs.len(),
{
    if gs.len() == 0 {
        Map::empty()
    } else {
        groups_map(gs.drop_last()).insert(gs.last().0, gs.last().1)
    }
}

/// Whether `m` files the crates `es` by key: its keys are those of the
/// crates, and under each the crates filed under it, in their order.
pub open spec fn files_by_key(es: Seq<(Seq<char>, Seq<Seq<char>>)>, m: Map<Seq<u8>, Seq<(Seq<char>, Seq<Seq<char>>)>>) -> bool {
    &&& forall|k: Seq<u8>| #[trigger] m.dom().contains(k) <==> exists|n: int| 0 <= n < es.len() && key_bytes(#[trigger] es[n].0) == k
    &&& forall|k: Seq<u8>| #[trigger] m.dom().contains(k) ==> m[k] == filed_under(es, k)
}

fn clone_listing(v: &Vec<(String, Vec<String>)>) -> (r: Vec<(String, Vec<String>)>)
    ensures
        listing_view(r@) == listing_view(v@),
{
    let mut out: Vec<(String, Vec<String>)> = Vec::new();
    let mut i: usize = 0;
    while i < v.len()
        invariant
            i <= v@.len(),
            listing_view(out@) == listing_view(v@).take(i as int),
        decreases v.len() - i,
    {
        let e = clone_entry(&v[i]);
        let ghost before = out@;
        out.push(e);
        assert(listing_view(out@) =~= listing_view(before).push(entry_view(v@[i as int])));
        assert(listing_view(v@).take(i + 1) =~= listing_view(v@).take(i as int).push(listing_view(v@)[i as int]));
        i = i + 1;
    }
    assert(listing_view(v@).take(v@.len() as int) =~= listing_view(v@));
    out
}

/// Builds the list from groups (see `groups_map`): nothing when there is no
/// group. A key must not be empty: the trie cannot hold one.
pub fn build_store(groups: &Vec<(Vec<u8>, Vec<(String, Vec<String>)>)>) -> (r: Option<OfflineCratesData>)
    requires
        forall|i: int| 0 <= i < groups@.len() ==> (#[trigger] groups@[i]).0@.len() > 0,
    ensures
        r is None <==> groups@.len() == 0,
        r matches Some(d) ==> trie_map(d.trie) == groups_map(group_views(groups@)),
{
    if groups.len() == 0 {
        return None;
    }
    let mut b = trie_builder_new();
    let mut i: usize = 0;
    while i < groups.len()
        invariant
            i <= groups@.len(),
            forall|j: int| 0 <= j < groups@.len() ==> (#[trigger] groups@[j]).0@.len() > 0,
            pushed(b) == groups_map(group_views(groups@).take(i as int)),
        decreases groups.len() - i,
    {
        let v = clone_listing(&groups[i].1);
        trie_builder_push(&mut b, &groups[i].0, v);
        assert(group_views(groups@).take(i + 1).drop_last() =~= group_views(groups@).take(i as int));
        assert(group_views(groups@).take(i + 1).last() == group_views(groups@)[i as int]);
        i = i + 1;
    }
    assert(group_views(groups@).take(i as int) =~= group_views(groups@));
    Some(OfflineCratesData { trie: trie_build(b) })
}

/// Groups with different keys map each key to its group.
proof fn lemma_groups_map(gs: Seq<(Seq<u8>, Seq<(Seq<char>, Seq<Seq<char>>)>)>)
    requires
        forall|i: int, j: int| 0 <= i < j < gs.len() ==> gs[i].0 != gs[j].0,
    ensures
        forall|k: Seq<u8>| #[trigger] groups_map(gs).dom().contains(k) <==> exists|i: int| 0 <= i < gs.len() && gs[i].0 == k,
        forall|i: int| 0 <= i < gs.len() ==> groups_map(gs)[#[trigger] gs[i].0] == gs[i].1,
    decreases gs.len(),
{
    if gs.len() > 0 {
        let init = gs.drop_last();
        lemma_groups_map(init);
        assert forall|k: Seq<u8>| #[trigger] groups_map(gs).dom().contains(k) <==> exists|i: int| 0 <= i < gs.len() && gs[i].0 == k by {
            if groups_map(gs).dom().contains(k) && k != gs.last().0 {
                assert(groups_map(init).dom().contains(k));
                let i = choose|i: int| 0 <= i < init.len() && init[i].0 == k;
                assert(gs[i].0 == k);
            }
            if exists|i: int| 0 <= i < gs.len() && gs[i].0 == k {
                let i = choose|i: int| 0 <= i < gs.len() && gs[i].0 == k;
                if i < gs.len() - 1 {
                    assert(init[i].0 == k);
                }
            }
        }
        assert forall|i: int| 0 <= i < gs.len() implies groups_map(gs)[#[trigger] gs[i].0] == gs[i].1 by {
            if i < gs.len() - 1 {
                assert(init[i] == gs[i]);
                assert(gs[i].0 != gs.last().0);
            }
        }
    }
}

/// Reads the list from its crates: grouped by key and put in a trie.
/// Nothing when there is no crate, or when a crate's key is empty (a name
/// without letters or digits), which the trie cannot hold.
pub fn from_entries(entries: &Vec<(String, Vec<String>)>) -> (r: Option<OfflineCratesData>)
    ensures
        r is Some <==> (entries@.len() > 0 && forall|n: int|
            0 <= n < entries@.len() ==> key_bytes(#[trigger] entries@[n].0@).len() > 0),
        r matches Some(d) ==> files_by_key(listing_view(entries@), trie_map(d.trie)),
{
    let ghost es = listing_view(entries@);
    let groups = group_entries(entries);
    let ghost gs = group_views(groups@);
    let mut i: usize = 0;
    while i < groups.len()
        invariant
            i <= groups@.len(),
            es == listing_view(entries@),
            gs == group_views(groups@),
            grouped_by_key(es, gs),
            forall|j: int| 0 <= j < i ==> (#[trigger] groups@[j]).0@.len() > 0,
        decreases groups.len() - i,
    {
        if groups[i].0.len() == 0 {
            proof {
                assert(gs[i as int].1.len() > 0);
                let f = filed_under(es, gs[i as int].0);
                es.filter_lemma(filed_as(gs[i as int].0));
                assert(f.contains(f[0]));
                es.lemma_filter_contains_rev(filed_as(gs[i as int].0), f[0]);
                let n = choose|n: int| 0 <= n < es.len() && es[n] == f[0];
                assert(es[n].0 == entries@[n].0@);
                assert(key_bytes(entries@[n].0@).len() == 0);
            }
            return None;
        }
        i = i + 1;
    }
    proof {
        assert forall|n: int| 0 <= n < entries@.len() implies key_bytes(#[trigger] entries@[n].0@).len() > 0 by {
            assert(es[n].0 == entries@[n].0@);
            assert(has_group(gs, key_bytes(es[n].0)));
            let j = choose|j: int| 0 <= j < gs.len() && #[trigger] gs[j].0 == key_bytes(es[n].0);
            assert(groups@[j].0@.len() > 0);
        }
    }
    if groups.len() == 0 {
        proof {
            if entries@.len() > 0 {
                assert(has_group(gs, key_bytes(es[0].0)));
            }
        }
        return None;
    }
    let r = build_store(&groups);
    proof {
        assert forall|a: int, b: int| 0 <= a < b < gs.len() implies gs[a].0 != gs[b].0 by {
            crate::search_index::lemma_bytes_lt_irreflexive(gs[a].0);
        }
        lemma_groups_map(gs);
        let m = groups_map(gs);
        assert forall|k: Seq<u8>| #[trigger] m.dom().contains(k) <==> exists|n: int| 0 <= n < es.len() && key_bytes(#[trigger] es[n].0) == k by {
            if m.dom().contains(k) {
                let i = choose|i: int| 0 <= i < gs.len() && gs[i].0 == k;
                assert(gs[i].1.len() > 0);
                es.filter_lemma(filed_as(k));
                let f = filed_under(es, k);
                assert(f.contains(f[0]));
                es.lemma_filter_contains_rev(filed_as(k), f[0]);
                let n = choose|n: int| 0 <= n < es.len() && es[n] == f[0];
                assert(key_bytes(es[n].0) == k);
            }
            if exists|n: int| 0 <= n < es.len() && key_bytes(#[trigger] es[n].0) == k {
                let n = choose|n: int| 0 <= n < es.len() && key_bytes(#[trigger] es[n].0) == k;
                assert(has_group(gs, key_bytes(es[n].0)));
            }
        }
        assert forall|k: Seq<u8>| #[trigger] m.dom().contains(k) implies m[k] == filed_under(es, k) by {
            let i = choose|i: int| 0 <= i < gs.len() && gs[i].0 == k;
            assert(m[gs[i].0] == gs[i].1);
        }
    }
    r
}


// ---------------------------------------------------------------------------
// Looking crates up.

/// A search row of a crate: its name, no description, and its first
/// version (empty when it has none).
pub open spec fn row_of(e: (Seq<char>, Seq<Seq<char>>)) -> (Seq<char>, Option<Seq<char>>, Seq<char>) {
    (e.0, None, if e.1.len() > 0 { e.1[0] } else { Seq::empty() })
}

/// The rows of the crates under the listed keys, key after key.
pub open spec fn rows_of(ps: Seq<(Seq<u8>, Seq<(Seq<char>, Seq<Seq<char>>)>)>) -> Seq<(Seq<char>, Option<Seq<char>>, Seq<char>)>
    decreases ps.len(),
{
    if ps.len() == 0 {
        Seq::empty()
    } else {
        rows_of(ps.drop_last()) + ps.last().1.map_values(|e: (Seq<char>, Seq<Seq<char>>)| row_of(e))
    }
}

pub open spec fn row_views(v: Seq<(String, Option<String>, String)>) -> Seq<(Seq<char>, Option<Seq<char>>, Seq<char>)> {
    v.map_values(|x: (String, Option<String>, String)| (x.0@, opt_view(x.1), x.2@))
}

/// The position of the first crate whose name, lower-cased, is `low`, from
/// position `i` on.
pub open spec fn find_named(g: Seq<(Seq<char>, Seq<Seq<char>>)>, low: Seq<char>, i: nat) -> Option<nat>
    decreases g.len() - i,
{
    if i >= g.len() {
        None
    } else if lowercase(g[i as int].0) == low {
        Some(i)
    } else {
        find_named(g, low, i + 1)
    }
}

pub open spec fn version_views(v: Seq<RustVersion>) -> Seq<crate::registry::PartsView> {
    v.map_values(|x: RustVersion| x@)
}

/// The versions of a crate, each split at its first two dots.
pub open spec fn parsed_versions(vs: Seq<Seq<char>>) -> Seq<crate::registry::PartsView> {
    vs.map_values(|v: Seq<char>| parse_parts(v))
}

/// The versions of a crate that start with `filter`.
pub open spec fn versions_from(vs: Seq<Seq<char>>, filter: Seq<char>) -> Seq<Seq<char>> {
    vs.filter(|v: Seq<char>| crate::lock::starts_with(v, filter))
}

/// The versions of the crate called `name` (letter case aside) among the
/// crates filed under the name's key: the first such crate's.
pub open spec fn versions_of(m: Map<Seq<u8>, Seq<(Seq<char>, Seq<Seq<char>>)>>, name: Seq<char>) -> Option<Seq<Seq<char>>> {
    let k = key_bytes(name);
    if k.len() > 0 && m.dom().contains(k) {
        match find_named(m[k], lowercase(name), 0) {
            Some(i) => Some(m[k][i as int].1),
            None => None,
        }
    } else {
        None
    }
}

/// Every version starts with the empty text.
proof fn lemma_no_filter(vs: Seq<Seq<char>>)
    ensures
        versions_from(vs, Seq::empty()) == vs,
    decreases vs.len(),
{
    reveal(Seq::filter);
    if vs.len() > 0 {
        lemma_no_filter(vs.drop_last());
        assert(vs.last().take(0) =~= Seq::<char>::empty());
        assert(vs.drop_last().push(vs.last()) =~= vs);
    }
}

/// The bytes of the key a name is filed under.
fn key_of(name: &str) -> (r: Vec<u8>)
    ensures
        r@ == key_bytes(name@),
{
    let key = normalize_key(name);
    key.as_str().as_bytes_vec()
}

/// The position of the first crate of the listing whose name, lower-cased,
/// is `low`.
fn find_crate(g: &Vec<(String, Vec<String>)>, low: &String) -> (r: Option<usize>)
    ensures
        r matches Some(i) ==> i < g@.len() && find_named(listing_view(g@), low@, 0) == Some(i as nat),
        match find_named(listing_view(g@), low@, 0) {
            Some(i) => r == Some(i as usize),
            None => r is None,
        },
{
    let ghost lv = listing_view(g@);
    let mut i: usize = 0;
    while i < g.len()
        invariant
            i <= g@.len(),
            lv == listing_view(g@),
            find_named(lv, low@, 0) == find_named(lv, low@, i as nat),
        decreases g.len() - i,
    {
        let l = to_lower_text(g[i].0.as_str());
        assert(lv[i as int].0 == g@[i as int].0@);
        if crate::text::same_text(l.as_str(), low.as_str()) {
            return Some(i);
        }
        i = i + 1;
    }
    None
}

impl OfflineCratesData {
    /// Searches the list: the crates filed under every key that the query,
    /// lower-cased, starts; keys in increasing order and, under each, the
    /// crates in their order (see `rows_of`).
    pub fn search(&self, query: &str) -> (r: Vec<(String, Option<String>, String)>)
        ensures
            exists|ps: Seq<(Seq<u8>, Seq<(Seq<char>, Seq<Seq<char>>)>)>|
                hits_listed(trie_map(self.trie), vstd::utf8::encode_utf8(lowercase(query@)), ps) && row_views(r@) == rows_of(ps),
    {
        let q = to_lower_text(query);
        let qb = q.as_str().as_bytes_vec();
        let hits = trie_predictive(&self.trie, &qb);
        let ghost hv = hit_views(hits@);
        let mut out: Vec<(String, Option<String>, String)> = Vec::new();
        let mut i: usize = 0;
        while i < hits.len()
            invariant
                i <= hits@.len(),
                hv == hit_views(hits@),
                row_views(out@) == rows_of(hv.take(i as int)),
            decreases hits.len() - i,
        {
            let listing = &hits[i].1;
            let ghost base = row_views(out@);
            let ghost lv = listing_view(listing@);
            let mut k: usize = 0;
            while k < listing.len()
                invariant
                    k <= listing@.len(),
                    lv == listing_view(listing@),
                    row_views(out@) == base + lv.take(k as int).map_values(|e: (Seq<char>, Seq<Seq<char>>)| row_of(e)),
                decreases listing.len() - k,
            {
                let e = &listing[k];
                let first = if e.1.len() > 0 {
                    e.1[0].clone()
                } else {
                    String::new()
                };
                let ghost before = out@;
                out.push((e.0.clone(), None, first));
                assert(lv[k as int] == entry_view(listing@[k as int]));
                assert(string_views(e.1@).len() == e.1@.len());
                if e.1.len() > 0 {
                    assert(string_views(e.1@)[0] == e.1@[0]@);
                }
                assert(row_views(out@) =~= row_views(before).push(row_of(lv[k as int])));
                assert(lv.take(k + 1).map_values(|e: (Seq<char>, Seq<Seq<char>>)| row_of(e)) =~= lv.take(k as int).map_values(
                    |e: (Seq<char>, Seq<Seq<char>>)| row_of(e),
                ).push(row_of(lv[k as int])));
                k = k + 1;
            }
            assert(lv.take(k as int) =~= lv);
            assert(hv.take(i + 1).drop_last() =~= hv.take(i as int));
            assert(hv.take(i + 1).last() == hv[i as int]);
            assert(hv[i as int].1 == lv);
            i = i + 1;
        }
        assert(hv.take(i as int) =~= hv);
        out
    }

    /// The versions of the crate called `name` (letter case aside), each
    /// split at its first two dots (see `versions_of`); nothing when the
    /// list has no such crate.
    pub fn get_version_local(&self, name: &str) -> (r: Option<Vec<RustVersion>>)
        ensures
            match versions_of(trie_map(self.trie), name@) {
                Some(vs) => r matches Some(x) && version_views(x@) == parsed_versions(vs),
                None => r is None,
            },
    {
        let r = self.get_versions(name, "");
        proof {
            reveal_strlit("");
            assert(""@ =~= Seq::<char>::empty());
            if let Some(vs) = versions_of(trie_map(self.trie), name@) {
                lemma_no_filter(vs);
            }
        }
        r
    }

    /// The versions of the crate called `name` (letter case aside) that
    /// start with `version_filter`, each split at its first two dots;
    /// nothing when the list has no such crate.
    pub fn get_versions(&self, name: &str, version_filter: &str) -> (r: Option<Vec<RustVersion>>)
        ensures
            match versions_of(trie_map(self.trie), name@) {
                Some(vs) => r matches Some(x) && version_views(x@) == parsed_versions(versions_from(vs, version_filter@)),
                None => r is None,
            },
    {
        let kb = key_of(name);
        let g = match trie_exact(&self.trie, &kb) {
            Some(g) => g,
            None => {
                return None;
            },
        };
        let low = to_lower_text(name);
        let i = match find_crate(&g, &low) {
            Some(i) => i,
            None => {
                return None;
            },
        };
        let vs = &g[i].1;
        let ghost sv = string_views(vs@);
        assert(listing_view(g@)[i as int].1 == sv);
        let mut out: Vec<RustVersion> = Vec::new();
        let mut k: usize = 0;
        while k < vs.len()
            invariant
                k <= vs@.len(),
                sv == string_views(vs@),
                version_views(out@) == parsed_versions(versions_from(sv.take(k as int), version_filter@)),
            decreases vs.len() - k,
        {
            let ghost before = out@;
            assert(sv.take(k + 1).drop_last() =~= sv.take(k as int));
            assert(sv.take(k + 1).last() == vs@[k as int]@);
            reveal(Seq::filter);
            if crate::assist::text_starts_with(vs[k].as_str(), version_filter) {
                out.push(RustVersion::from(vs[k].as_str()));
                assert(version_views(out@) =~= version_views(before).push(parse_parts(vs@[k as int]@)));
            }
            k = k + 1;
        }
        assert(sv.take(k as int) =~= sv);
        assert(trie_map(self.trie)[kb@] == listing_view(g@));
        assert(find_named(listing_view(g@), lowercase(name@), 0) == Some(i as nat));
        assert(versions_of(trie_map(self.trie), name@) == Some(sv));
        Some(out)
    }
}

} // verus!
