//! Searching the offline crate list: every prefix of every word of every
//! crate name is a token; an `fst` set holds the tokens in order, and each
//! token knows the crates whose names have a word that starts with it. A
//! query finds the crates that have, for each of its words, a word starting
//! with it.
use std::sync::Arc;
use vstd::prelude::*;
use fst::{IntoStreamer, Streamer};
use crate::offline::{lowercase, lowered, name_runs, opt_view, to_lower_text, tokenize, OfflineCrate};
use crate::info_api::Crate;

verus! {

#[verifier::external_type_specification]
#[verifier::external_body]
#[verifier::reject_recursive_types(D)]
pub struct ExFstSet<D>(fst::Set<D>);

#[verifier::external_type_specification]
#[verifier::external_body]
#[verifier::reject_recursive_types(W)]
pub struct ExFstSetBuilder<W>(fst::SetBuilder<W>);

// ---------------------------------------------------------------------------
// Byte strings.

/// The lexicographic order of byte strings: a proper prefix comes first.
pub open spec fn bytes_lt(a: Seq<u8>, b: Seq<u8>) -> bool
    decreases a.len(),
{
    if b.len() == 0 {
        false
    } else if a.len() == 0 {
        true
    } else if a[0] != b[0] {
        a[0] < b[0]
    } else {
        bytes_lt(a.drop_first(), b.drop_first())
    }
}

/// Whether `q` starts `k`.
pub open spec fn is_prefix(q: Seq<u8>, k: Seq<u8>) -> bool {
    q.len() <= k.len() && k.take(q.len() as int) == q
}

pub open spec fn byte_views(v: Seq<Vec<u8>>) -> Seq<Seq<u8>> {
    v.map_values(|x: Vec<u8>| x@)
}

/// The strings that do not come before `q`.
pub open spec fn not_before(q: Seq<u8>) -> spec_fn(Seq<u8>) -> bool {
    |k: Seq<u8>| !bytes_lt(k, q)
}

/// Strictly increasing byte strings.
pub open spec fn strictly_sorted(s: Seq<Seq<u8>>) -> bool {
    forall|i: int, j: int| 0 <= i < j < s.len() ==> bytes_lt(#[trigger] s[i], #[trigger] s[j])
}

// ---------------------------------------------------------------------------
// The fst set.

/// The keys of an fst set, in its (lexicographic) order.
pub uninterp spec fn set_keys(s: fst::Set<Vec<u8>>) -> Seq<Seq<u8>>;

/// The keys an fst set builder holds so far, in the order they went in.
pub uninterp spec fn builder_keys(b: fst::SetBuilder<Vec<u8>>) -> Seq<Seq<u8>>;

/// A builder that builds a set in memory, with `SetBuilder::memory`; it
/// holds no key.
#[verifier::external_body]
fn builder_memory() -> (r: fst::SetBuilder<Vec<u8>>)
    ensures
        builder_keys(r) == Seq::<Seq<u8>>::empty(),
{
    fst::SetBuilder::memory()
}

/// Inserts a key with `SetBuilder::insert`: refused, with nothing changed,
/// when the key comes before the last one; accepted and ignored when it
/// equals the last one; else added.
#[verifier::external_body]
fn builder_insert(b: &mut fst::SetBuilder<Vec<u8>>, key: &Vec<u8>) -> (r: bool)
    ensures
        r == !(builder_keys(*old(b)).len() > 0 && bytes_lt(key@, builder_keys(*old(b)).last())),
        r && builder_keys(*old(b)).len() > 0 && key@ == builder_keys(*old(b)).last() ==> builder_keys(*final(b))
            == builder_keys(*old(b)),
        r && !(builder_keys(*old(b)).len() > 0 && key@ == builder_keys(*old(b)).last()) ==> builder_keys(*final(b))
            == builder_keys(*old(b)).push(key@),
        !r ==> builder_keys(*final(b)) == builder_keys(*old(b)),
{
    b.insert(key).is_ok()
}

/// Finishes the set with `SetBuilder::into_set`; it holds the keys that
/// went in.
#[verifier::external_body]
fn builder_into_set(b: fst::SetBuilder<Vec<u8>>) -> (r: fst::Set<Vec<u8>>)
    ensures
        set_keys(r) == builder_keys(b),
{
    b.into_set()
}

/// A stream over the keys of an fst set, held opaque.
#[verifier::external_body]
struct KeyStream<'s> {
    inner: fst::set::Stream<'s>,
}

/// The keys that a stream has still to give, in order.
pub uninterp spec fn stream_keys(s: KeyStream) -> Seq<Seq<u8>>;

/// Opens a stream over the keys of the set from `lo` on, with `Set::range`,
/// `StreamBuilder::ge` and `IntoStreamer::into_stream`: it gives them in the
/// set's order.
#[verifier::external_body]
fn stream_from<'s>(set: &'s fst::Set<Vec<u8>>, lo: &Vec<u8>) -> (r: KeyStream<'s>)
    ensures
        stream_keys(r) == set_keys(*set).filter(not_before(lo@)),
{
    KeyStream { inner: set.range().ge(lo).into_stream() }
}

/// Takes the next key of the stream with `Streamer::next`, copied out of
/// the stream's buffer; `None` once no key is left.
#[verifier::external_body]
fn stream_next(s: &mut KeyStream) -> (r: Option<Vec<u8>>)
    ensures
        match r {
            Some(k) => stream_keys(*old(s)).len() > 0 && k@ == stream_keys(*old(s))[0]
                && stream_keys(*final(s)) == stream_keys(*old(s)).drop_first(),
            None => stream_keys(*old(s)).len() == 0 && stream_keys(*final(s)) == stream_keys(*old(s)),
        },
{
    s.inner.next().map(|k| k.to_vec())
}

// ---------------------------------------------------------------------------
// Sorting.

/// The order of (token, crate) pairs: by token, then by crate.
pub open spec fn pair_le(a: (Seq<u8>, usize), b: (Seq<u8>, usize)) -> bool {
    bytes_lt(a.0, b.0) || (a.0 == b.0 && a.1 <= b.1)
}

pub open spec fn pair_views(v: Seq<(Vec<u8>, usize)>) -> Seq<(Seq<u8>, usize)> {
    v.map_values(|x: (Vec<u8>, usize)| (x.0@, x.1))
}

/// Sorts the pairs with `slice::sort`, which orders tuples field by field
/// and byte vectors lexicographically; the pairs are the same ones.
#[verifier::external_body]
pub(crate) fn sort_pairs(v: &mut Vec<(Vec<u8>, usize)>)
    ensures
        final(v)@.to_multiset() == old(v)@.to_multiset(),
        forall|i: int, j: int| 0 <= i < j < final(v)@.len() ==> pair_le(
            #[trigger] pair_views(final(v)@)[i],
            #[trigger] pair_views(final(v)@)[j],
        ),
{
    v.sort()
}

// ---------------------------------------------------------------------------
// The tokens of the crates.

/// The words a crate is found by: the words of its name, lower-cased, and
/// lower-cased once more as the index does.
pub open spec fn words_of(name: Seq<char>) -> Seq<Seq<char>> {
    lowered(name_runs(name)).map_values(|w: Seq<char>| lowercase(w))
}

/// The (token, crate) pairs of one word: each of its non-empty byte
/// prefixes with the crate.
pub open spec fn word_pairs(b: Seq<u8>, j: usize) -> Seq<(Seq<u8>, usize)> {
    Seq::new(b.len(), |n: int| (b.take(n + 1), j))
}

/// The pairs of the first `k` words of crate `j`.
pub open spec fn crate_pairs(words: Seq<Seq<char>>, j: usize, k: nat) -> Seq<(Seq<u8>, usize)>
    decreases k,
{
    if k == 0 {
        seq![]
    } else {
        crate_pairs(words, j, (k - 1) as nat) + word_pairs(vstd::utf8::encode_utf8(words[k - 1]), j)
    }
}

pub open spec fn crate_names(crates: Seq<Arc<OfflineCrate>>) -> Seq<Seq<char>> {
    crates.map_values(|c: Arc<OfflineCrate>| c.name@)
}

/// The pairs of the first `n` crates.
pub open spec fn all_pairs(names: Seq<Seq<char>>, n: nat) -> Seq<(Seq<u8>, usize)>
    decreases n,
{
    if n == 0 {
        seq![]
    } else {
        all_pairs(names, (n - 1) as nat) + crate_pairs(words_of(names[n - 1]), (n - 1) as usize, words_of(names[n - 1]).len())
    }
}

/// Whether every character of the word takes one byte, so that every byte
/// length of the word ends a character and each byte prefix is a text.
pub open spec fn word_ok(w: Seq<char>) -> bool {
    forall|i: int| 0 <= i < w.len() ==> (#[trigger] w[i] as u32) < 128
}

/// Whether every word of every crate can be cut at each of its bytes.
pub open spec fn crates_ok(crates: Seq<Arc<OfflineCrate>>) -> bool {
    forall|j: int, w: int|
        0 <= j < crates.len() && 0 <= w < words_of(crates[j].name@).len() ==> word_ok(
            #[trigger] words_of(#[trigger] crates[j].name@)[w],
        )
}

/// The pairs of all crates, each word cut after each of its bytes.
fn collect_pairs(crates: &Vec<Arc<OfflineCrate>>) -> (r: Vec<(Vec<u8>, usize)>)
    requires
        crates@.len() <= usize::MAX,
    ensures
        pair_views(r@) == all_pairs(crate_names(crates@), crates@.len()),
{
    let mut out: Vec<(Vec<u8>, usize)> = Vec::new();
    let mut j: usize = 0;
    while j < crates.len()
        invariant
            j <= crates@.len(),
            pair_views(out@) == all_pairs(crate_names(crates@), j as nat),
        decreases crates.len() - j,
    {
        let runs = tokenize(crates[j].name.as_str());
        let ghost words = words_of(crates@[j as int].name@);
        assert(crate_names(crates@)[j as int] == crates@[j as int].name@);
        let ghost base = pair_views(out@);
        let mut k: usize = 0;
        while k < runs.len()
            invariant
                k <= runs@.len(),
                crate::info_api::string_views(runs@) == lowered(name_runs(crates@[j as int].name@)),
                words == words_of(crates@[j as int].name@),
                words.len() == runs@.len(),
                pair_views(out@) == base + crate_pairs(words, j, k as nat),
            decreases runs.len() - k,
        {
            assert(crate::info_api::string_views(runs@)[k as int] == runs@[k as int]@);
            let word = to_lower_text(runs[k].as_str());
            assert(word@ == words[k as int]);
            let bytes = word.as_str().as_bytes_vec();
            let ghost before = pair_views(out@);
            let mut n: usize = 0;
            let _blen = bytes.len();
            while n < bytes.len()
                invariant
                    n <= bytes@.len(),
                    bytes@.len() <= usize::MAX,
                    bytes@ == vstd::utf8::encode_utf8(words[k as int]),
                    pair_views(out@) == before + word_pairs(bytes@, j).take(n as int),
                decreases bytes.len() - n,
            {
                let mut prefix: Vec<u8> = Vec::new();
                let mut m: usize = 0;
                while m <= n
                    invariant
                        m <= n + 1,
                        n < bytes@.len(),
                        bytes@.len() <= usize::MAX,
                        prefix@ == bytes@.take(m as int),
                    decreases n + 1 - m,
                {
                    prefix.push(bytes[m]);
                    m = m + 1;
                    assert(prefix@ =~= bytes@.take(m as int));
                }
                let ghost prev = pair_views(out@);
                out.push((prefix, j));
                assert(pair_views(out@) =~= prev.push((bytes@.take(n + 1), j)));
                assert(word_pairs(bytes@, j).take(n + 1) =~= word_pairs(bytes@, j).take(n as int).push(
                    (bytes@.take(n + 1), j),
                ));
                n = n + 1;
            }
            assert(word_pairs(bytes@, j).take(bytes@.len() as int) == word_pairs(bytes@, j));
            k = k + 1;
        }
        j = j + 1;
    }
    out
}

// ---------------------------------------------------------------------------
// Facts about the order of byte strings.

/// No byte string comes before itself.
pub proof fn lemma_bytes_lt_irreflexive(a: Seq<u8>)
    ensures
        !bytes_lt(a, a),
    decreases a.len(),
{
    if a.len() > 0 {
        lemma_bytes_lt_irreflexive(a.drop_first());
    }
}

/// The order of byte strings is transitive.
pub proof fn lemma_bytes_lt_transitive(a: Seq<u8>, b: Seq<u8>, c: Seq<u8>)
    requires
        bytes_lt(a, b),
        bytes_lt(b, c),
    ensures
        bytes_lt(a, c),
    decreases a.len(),
{
    if a.len() > 0 && b.len() > 0 && c.len() > 0 && a[0] == b[0] && b[0] == c[0] {
        lemma_bytes_lt_transitive(a.drop_first(), b.drop_first(), c.drop_first());
    }
}

/// Of two different byte strings exactly one comes first.
pub proof fn lemma_bytes_lt_total(a: Seq<u8>, b: Seq<u8>)
    ensures
        a == b || bytes_lt(a, b) || bytes_lt(b, a),
        !(bytes_lt(a, b) && bytes_lt(b, a)),
    decreases a.len(),
{
    if a.len() > 0 && b.len() > 0 {
        lemma_bytes_lt_total(a.drop_first(), b.drop_first());
        if a[0] == b[0] && a.drop_first() == b.drop_first() {
            assert(a == seq![a[0]] + a.drop_first());
            assert(b == seq![b[0]] + b.drop_first());
        }
    } else if a.len() == 0 && b.len() == 0 {
        assert(a =~= b);
    }
}

/// A string that `q` starts is not before `q`.
pub proof fn lemma_prefix_not_before(q: Seq<u8>, t: Seq<u8>)
    requires
        is_prefix(q, t),
    ensures
        !bytes_lt(t, q),
    decreases q.len(),
{
    if q.len() > 0 {
        assert(t.drop_first().take(q.len() - 1) =~= q.drop_first());
        lemma_prefix_not_before(q.drop_first(), t.drop_first());
        assert(t[0] == t.take(q.len() as int)[0]);
    }
}

/// A string that is not before `q` and that `q` does not start comes after
/// every string that `q` starts.
pub proof fn lemma_after_prefixed(q: Seq<u8>, x: Seq<u8>, y: Seq<u8>)
    requires
        !bytes_lt(x, q),
        !is_prefix(q, x),
        is_prefix(q, y),
    ensures
        bytes_lt(y, x),
    decreases q.len(),
{
    if q.len() == 0 {
        assert(x.take(0) =~= q);
    } else {
        assert(y[0] == y.take(q.len() as int)[0]);
        if x.len() == 0 {
        } else if x[0] != q[0] {
        } else {
            assert(y.drop_first().take(q.len() - 1) =~= q.drop_first());
            if is_prefix(q.drop_first(), x.drop_first()) {
                assert(x.take(q.len() as int) =~= seq![x[0]] + x.drop_first().take(q.len() - 1));
                assert(q =~= seq![q[0]] + q.drop_first());
            }
            lemma_after_prefixed(q.drop_first(), x.drop_first(), y.drop_first());
        }
    }
}

// ---------------------------------------------------------------------------
// Grouping the pairs by token.

/// The index: the tokens in an fst set, and each token with the crates (by
/// position in the crate list) whose names have a word that it starts.
pub struct SearchIndex {
    pub set: fst::Set<Vec<u8>>,
    pub tokens: Vec<(Vec<u8>, Vec<usize>)>,
}

pub open spec fn token_bytes(ts: Seq<(Vec<u8>, Vec<usize>)>) -> Seq<Seq<u8>> {
    ts.map_values(|x: (Vec<u8>, Vec<usize>)| x.0@)
}

pub open spec fn pair_tokens(ps: Seq<(Seq<u8>, usize)>) -> Seq<Seq<u8>> {
    ps.map_values(|x: (Seq<u8>, usize)| x.0)
}

pub open spec fn increasing(s: Seq<usize>) -> bool {
    forall|i: int, j: int| 0 <= i < j < s.len() ==> #[trigger] s[i] < #[trigger] s[j]
}

/// Whether the sorted pairs are sorted.
pub open spec fn pairs_sorted(ps: Seq<(Seq<u8>, usize)>) -> bool {
    forall|i: int, j: int| 0 <= i < j < ps.len() ==> pair_le(#[trigger] ps[i], #[trigger] ps[j])
}

/// Whether `ts` groups the pairs `ps`: its tokens are those of the pairs,
/// each once and in increasing order, and each token holds, in increasing
/// order, the crates paired with it.
pub open spec fn groups(ts: Seq<(Vec<u8>, Vec<usize>)>, ps: Seq<(Seq<u8>, usize)>) -> bool {
    &&& strictly_sorted(token_bytes(ts))
    &&& forall|t: Seq<u8>| token_bytes(ts).contains(t) <==> pair_tokens(ps).contains(t)
    &&& forall|i: int, j: usize|
        #![trigger ts[i].1@.contains(j)]
        #![trigger ps.contains((ts[i].0@, j))]
        0 <= i < ts.len() ==> (ts[i].1@.contains(j) <==> ps.contains((ts[i].0@, j)))
    &&& forall|i: int| 0 <= i < ts.len() ==> (#[trigger] ts[i]).1@.len() > 0 && increasing(ts[i].1@)
}

pub(crate) fn copy_bytes(b: &Vec<u8>) -> (r: Vec<u8>)
    ensures
        r@ == b@,
{
    let mut out: Vec<u8> = Vec::new();
    let mut i: usize = 0;
    while i < b.len()
        invariant
            i <= b@.len(),
            out@ == b@.take(i as int),
        decreases b.len() - i,
    {
        out.push(b[i]);
        i = i + 1;
        assert(out@ =~= b@.take(i as int));
    }
    assert(b@.take(b@.len() as int) == b@);
    out
}

fn same_bytes(a: &Vec<u8>, b: &Vec<u8>) -> (r: bool)
    ensures
        r == (a@ == b@),
{
    if a.len() != b.len() {
        return false;
    }
    let mut i: usize = 0;
    while i < a.len()
        invariant
            i <= a@.len(),
            a@.len() == b@.len(),
            forall|k: int| 0 <= k < i ==> a@[k] == b@[k],
        decreases a.len() - i,
    {
        if a[i] != b[i] {
            return false;
        }
        i = i + 1;
    }
    assert(a@ =~= b@);
    true
}

proof fn lemma_sorted_last_max(ts: Seq<Seq<u8>>, i: int)
    requires
        strictly_sorted(ts),
        0 <= i < ts.len() - 1,
    ensures
        bytes_lt(ts[i], ts.last()),
        ts[i] != ts.last(),
{
    lemma_bytes_lt_total(ts[i], ts.last());
}

/// Groups sorted pairs by token (see `groups`).
pub(crate) fn group_pairs(pairs: &Vec<(Vec<u8>, usize)>) -> (r: Vec<(Vec<u8>, Vec<usize>)>)
    requires
        pairs_sorted(pair_views(pairs@)),
    ensures
        groups(r@, pair_views(pairs@)),
{
    let ghost ps = pair_views(pairs@);
    let mut out: Vec<(Vec<u8>, Vec<usize>)> = Vec::new();
    let mut p: usize = 0;
    while p < pairs.len()
        invariant
            p <= pairs@.len(),
            ps == pair_views(pairs@),
            pairs_sorted(ps),
            groups(out@, ps.take(p as int)),
            p > 0 ==> out@.len() > 0 && token_bytes(out@).last() == ps[p - 1].0 && out@.last().1@.last() == ps[p - 1].1,
            p == 0 ==> out@.len() == 0,
        decreases pairs.len() - p,
    {
        let ghost x = ps[p as int];
        let ghost before = ps.take(p as int);
        assert(ps.take(p + 1) == before.push(x));
        assert(pair_tokens(ps.take(p + 1)) == pair_tokens(before).push(x.0));
        let n = out.len();
        let same = n > 0 && same_bytes(&out[n - 1].0, &pairs[p].0);
        if same {
            proof {
                assert(pair_le(ps[p - 1], x));
            }
            let ghost old_out = out@;
            let (tok, mut ids) = out.pop().unwrap();
            assert(ids@ == old_out.last().1@);
            assert(tok@ == token_bytes(old_out).last());
            assert(increasing(ids@));
            proof {
                lemma_bytes_lt_irreflexive(x.0);
            }
            let m = ids.len();
            if ids[m - 1] != pairs[p].1 {
                let ghost old_ids = ids@;
                assert(old_ids[m - 1] < x.1);
                ids.push(pairs[p].1);
                proof {
                    assert forall|a: int, b: int| 0 <= a < b < ids@.len() implies #[trigger] ids@[a] < #[trigger] ids@[b] by {
                        if b == ids@.len() - 1 && a < b {
                            if a < m - 1 {
                                assert(old_ids[a] < old_ids[m - 1]);
                            }
                        }
                    }
                }
            }
            out.push((tok, ids));
            proof {
                assert(token_bytes(out@) =~= token_bytes(old_out));
                assert forall|i: int, j: usize| 0 <= i < out@.len() implies (out@[i].1@.contains(j)
                    <==> ps.take(p + 1).contains((out@[i].0@, j))) by {
                    if i < out@.len() - 1 {
                        lemma_sorted_last_max(token_bytes(old_out), i);
                        assert(out@[i] == old_out[i]);
                        if ps.take(p + 1).contains((out@[i].0@, j)) && !before.contains((out@[i].0@, j)) {
                            assert(x == (out@[i].0@, j));
                        }
                    } else {
                        if out@[i].1@.contains(j) && !old_out.last().1@.contains(j) {
                            assert(j == x.1);
                            assert(ps.take(p + 1)[p as int] == x);
                        }
                        if ps.take(p + 1).contains((out@[i].0@, j)) && !before.contains((out@[i].0@, j)) {
                            assert(x == (out@[i].0@, j));
                            if old_out.last().1@.last() == j {
                                assert(old_out.last().1@.contains(j));
                            } else {
                                assert(out@[i].1@.last() == j);
                            }
                        }
                        if old_out.last().1@.contains(j) {
                            let ol = old_out.last().1@;
                            let k = choose|k: int| 0 <= k < ol.len() && #[trigger] ol[k] == j;
                            assert(out@[i].1@[k] == j);
                        }
                    }
                }
                assert forall|t: Seq<u8>| token_bytes(out@).contains(t) <==> pair_tokens(ps.take(p + 1)).contains(t) by {
                    assert(token_bytes(out@) == token_bytes(old_out));
                    if t == x.0 {
                        assert(token_bytes(out@)[out@.len() - 1] == x.0);
                        assert(pair_tokens(ps.take(p + 1))[p as int] == x.0);
                    } else {
                        if pair_tokens(ps.take(p + 1)).contains(t) {
                            let pt = pair_tokens(ps.take(p + 1));
                            let k = choose|k: int| 0 <= k < pt.len() && #[trigger] pt[k] == t;
                            assert(k < p);
                            assert(pair_tokens(before)[k] == t);
                        }
                        if pair_tokens(before).contains(t) {
                            let pb = pair_tokens(before);
                            let k = choose|k: int| 0 <= k < pb.len() && #[trigger] pb[k] == t;
                            assert(pair_tokens(ps.take(p + 1))[k] == t);
                        }
                    }
                }
            }
        } else {
            let tok = copy_bytes(&pairs[p].0);
            let mut ids: Vec<usize> = Vec::new();
            ids.push(pairs[p].1);
            let ghost old_out = out@;
            proof {
                if p > 0 {
                    assert(pair_le(ps[p - 1], x));
                    assert(bytes_lt(token_bytes(old_out).last(), x.0));
                    assert forall|i: int| 0 <= i < old_out.len() implies bytes_lt(#[trigger] token_bytes(old_out)[i], x.0) by {
                        if i < old_out.len() - 1 {
                            lemma_sorted_last_max(token_bytes(old_out), i);
                            lemma_bytes_lt_transitive(token_bytes(old_out)[i], token_bytes(old_out).last(), x.0);
                        }
                    }
                }
            }
            out.push((tok, ids));
            proof {
                assert(token_bytes(out@) =~= token_bytes(old_out).push(x.0));
                assert forall|a: int, b: int| 0 <= a < b < token_bytes(out@).len() implies bytes_lt(
                    #[trigger] token_bytes(out@)[a],
                    #[trigger] token_bytes(out@)[b],
                ) by {
                    if b == token_bytes(out@).len() - 1 {
                        assert(token_bytes(out@)[a] == token_bytes(old_out)[a]);
                    } else {
                        assert(token_bytes(out@)[a] == token_bytes(old_out)[a]);
                        assert(token_bytes(out@)[b] == token_bytes(old_out)[b]);
                    }
                }
                assert forall|t: Seq<u8>| token_bytes(out@).contains(t) <==> pair_tokens(ps.take(p + 1)).contains(t) by {
                    if t == x.0 {
                        assert(token_bytes(out@)[out@.len() - 1] == x.0);
                        assert(pair_tokens(ps.take(p + 1))[p as int] == x.0);
                    } else {
                        if token_bytes(out@).contains(t) {
                            let tb = token_bytes(out@);
                            let i = choose|i: int| 0 <= i < tb.len() && #[trigger] tb[i] == t;
                            assert(i < old_out.len());
                            assert(token_bytes(old_out)[i] == t);
                            assert(token_bytes(old_out).contains(t));
                            assert(pair_tokens(before).contains(t));
                            let pb = pair_tokens(before);
                            let k = choose|k: int| 0 <= k < pb.len() && #[trigger] pb[k] == t;
                            assert(pair_tokens(ps.take(p + 1))[k] == t);
                        }
                        if pair_tokens(ps.take(p + 1)).contains(t) {
                            let pt = pair_tokens(ps.take(p + 1));
                            let k = choose|k: int| 0 <= k < pt.len() && #[trigger] pt[k] == t;
                            assert(k < p);
                            assert(pair_tokens(before)[k] == t);
                            assert(pair_tokens(before).contains(t));
                            assert(token_bytes(old_out).contains(t));
                            let tb = token_bytes(old_out);
                            let i = choose|i: int| 0 <= i < tb.len() && #[trigger] tb[i] == t;
                            assert(token_bytes(out@)[i] == t);
                        }
                    }
                }
                assert forall|i: int, j: usize| 0 <= i < out@.len() implies (out@[i].1@.contains(j)
                    <==> ps.take(p + 1).contains((out@[i].0@, j))) by {
                    if i < out@.len() - 1 {
                        assert(out@[i] == old_out[i]);
                        assert(bytes_lt(token_bytes(old_out)[i], x.0));
                        lemma_bytes_lt_irreflexive(x.0);
                        if ps.take(p + 1).contains((out@[i].0@, j)) && !before.contains((out@[i].0@, j)) {
                            assert(x == (out@[i].0@, j));
                        }
                    } else {
                        if ps.take(p + 1).contains((x.0, j)) {
                            let pk = ps.take(p + 1);
                            let k = choose|k: int| 0 <= k < pk.len() && #[trigger] pk[k] == (x.0, j);
                            if k < p {
                                assert(pair_tokens(before)[k] == x.0);
                                assert(pair_tokens(before).contains(x.0));
                                let tb = token_bytes(old_out);
                                let i2 = choose|i2: int| 0 <= i2 < tb.len() && #[trigger] tb[i2] == x.0;
                                assert(bytes_lt(token_bytes(old_out)[i2], x.0));
                                lemma_bytes_lt_irreflexive(x.0);
                            }
                            assert(out@[i].1@[0] == j);
                        }
                        if out@[i].1@.contains(j) {
                            assert(ps.take(p + 1)[p as int] == x);
                        }
                    }
                }
            }
        }
        p = p + 1;
    }
    assert(ps.take(ps.len() as int) == ps);
    out
}

// ---------------------------------------------------------------------------
// Building the index.

pub(crate) proof fn lemma_same_contents(v1: Seq<(Vec<u8>, usize)>, v2: Seq<(Vec<u8>, usize)>)
    requires
        v1.to_multiset() == v2.to_multiset(),
    ensures
        forall|p: (Seq<u8>, usize)| pair_views(v1).contains(p) <==> pair_views(v2).contains(p),
        forall|t: Seq<u8>| pair_tokens(pair_views(v1)).contains(t) <==> pair_tokens(pair_views(v2)).contains(t),
{
    broadcast use vstd::seq_lib::group_to_multiset_ensures;
    assert forall|p: (Seq<u8>, usize)| pair_views(v1).contains(p) implies pair_views(v2).contains(p) by {
        let k = choose|k: int| 0 <= k < pair_views(v1).len() && #[trigger] pair_views(v1)[k] == p;
        assert(v1.contains(v1[k]));
        assert(v1.to_multiset().count(v1[k]) > 0);
        assert(v2.to_multiset().count(v1[k]) > 0);
        assert(v2.contains(v1[k]));
        let k2 = choose|k2: int| 0 <= k2 < v2.len() && #[trigger] v2[k2] == v1[k];
        assert(pair_views(v2)[k2] == p);
    }
    assert forall|p: (Seq<u8>, usize)| pair_views(v2).contains(p) implies pair_views(v1).contains(p) by {
        let k = choose|k: int| 0 <= k < pair_views(v2).len() && #[trigger] pair_views(v2)[k] == p;
        assert(v2.contains(v2[k]));
        assert(v2.to_multiset().count(v2[k]) > 0);
        assert(v1.to_multiset().count(v2[k]) > 0);
        assert(v1.contains(v2[k]));
        let k2 = choose|k2: int| 0 <= k2 < v1.len() && #[trigger] v1[k2] == v2[k];
        assert(pair_views(v1)[k2] == p);
    }
    assert forall|t: Seq<u8>| pair_tokens(pair_views(v1)).contains(t) implies pair_tokens(pair_views(v2)).contains(t) by {
        let pt = pair_tokens(pair_views(v1));
        let k = choose|k: int| 0 <= k < pt.len() && #[trigger] pt[k] == t;
        assert(pair_views(v1).contains(pair_views(v1)[k]));
        let pv = pair_views(v2);
        let k2 = choose|k2: int| 0 <= k2 < pv.len() && #[trigger] pv[k2] == pair_views(v1)[k];
        assert(pair_tokens(pair_views(v2))[k2] == t);
    }
    assert forall|t: Seq<u8>| pair_tokens(pair_views(v2)).contains(t) implies pair_tokens(pair_views(v1)).contains(t) by {
        let pt = pair_tokens(pair_views(v2));
        let k = choose|k: int| 0 <= k < pt.len() && #[trigger] pt[k] == t;
        assert(pair_views(v2).contains(pair_views(v2)[k]));
        let pv = pair_views(v1);
        let k2 = choose|k2: int| 0 <= k2 < pv.len() && #[trigger] pv[k2] == pair_views(v2)[k];
        assert(pair_tokens(pair_views(v1))[k2] == t);
    }
}

/// An fst set of the tokens, inserted in their increasing order.
fn build_set(tokens: &Vec<(Vec<u8>, Vec<usize>)>) -> (r: fst::Set<Vec<u8>>)
    requires
        strictly_sorted(token_bytes(tokens@)),
    ensures
        set_keys(r) == token_bytes(tokens@),
{
    let mut b = builder_memory();
    let mut i: usize = 0;
    while i < tokens.len()
        invariant
            i <= tokens@.len(),
            strictly_sorted(token_bytes(tokens@)),
            builder_keys(b) == token_bytes(tokens@).take(i as int),
        decreases tokens.len() - i,
    {
        proof {
            if i > 0 {
                let tb = token_bytes(tokens@);
                assert(bytes_lt(tb[i - 1], tb[i as int]));
                lemma_bytes_lt_total(tb[i - 1], tb[i as int]);
                lemma_bytes_lt_irreflexive(tb[i as int]);
                assert(builder_keys(b).last() == tb[i - 1]);
            }
        }
        let ok = builder_insert(&mut b, &tokens[i].0);
        assert(ok);
        assert(token_bytes(tokens@).take(i + 1) =~= token_bytes(tokens@).take(i as int).push(tokens@[i as int].0@));
        i = i + 1;
    }
    assert(token_bytes(tokens@).take(tokens@.len() as int) == token_bytes(tokens@));
    builder_into_set(b)
}

/// Whether `ix` is the index of the crates: its set holds its tokens, and
/// the tokens group every (token, crate) pair of the crates (see `groups`).
pub open spec fn index_of(ix: SearchIndex, crates: Seq<Arc<OfflineCrate>>) -> bool {
    &&& set_keys(ix.set) == token_bytes(ix.tokens@)
    &&& groups(ix.tokens@, all_pairs(crate_names(crates), crates.len()))
    &&& ids_below(ix.tokens@, crates.len())
}

/// Every pair of the first `n` crates names one of them.
proof fn lemma_pairs_below(names: Seq<Seq<char>>, n: nat, p: (Seq<u8>, usize))
    requires
        all_pairs(names, n).contains(p),
    ensures
        p.1 < n,
    decreases n,
{
    if n > 0 {
        let prev = all_pairs(names, (n - 1) as nat);
        let words = words_of(names[n - 1]);
        let last = crate_pairs(words, (n - 1) as usize, words.len());
        let k = choose|k: int| 0 <= k < all_pairs(names, n).len() && all_pairs(names, n)[k] == p;
        if k < prev.len() {
            assert(all_pairs(names, n)[k] == prev[k]);
            lemma_pairs_below(names, (n - 1) as nat, p);
        } else {
            assert(last[k - prev.len()] == p);
            lemma_crate_pairs_name(words, (n - 1) as usize, words.len(), k - prev.len());
        }
    }
}

/// Every pair of a crate names it.
proof fn lemma_crate_pairs_name(words: Seq<Seq<char>>, j: usize, k: nat, i: int)
    requires
        0 <= i < crate_pairs(words, j, k).len(),
    ensures
        crate_pairs(words, j, k)[i].1 == j,
    decreases k,
{
    if k > 0 {
        let prev = crate_pairs(words, j, (k - 1) as nat);
        if i < prev.len() {
            lemma_crate_pairs_name(words, j, (k - 1) as nat, i);
        }
    }
}

/// Builds the index of the crates: every non-empty prefix of every word of
/// every name, with the crates it belongs to, and the fst set of them.
pub fn build_index(crates: &Vec<Arc<OfflineCrate>>) -> (r: SearchIndex)
    requires
        crates_ok(crates@),
    ensures
        index_of(r, crates@),
{
    let _n = crates.len();
    let mut pairs = collect_pairs(crates);
    let ghost unsorted = pairs@;
    sort_pairs(&mut pairs);
    proof {
        lemma_same_contents(unsorted, pairs@);
    }
    let tokens = group_pairs(&pairs);
    let set = build_set(&tokens);
    let ghost ps = all_pairs(crate_names(crates@), crates@.len());
    assert forall|i: int, k: int| 0 <= i < tokens@.len() && 0 <= k < tokens@[i].1@.len() implies #[trigger] tokens@[i].1@[k]
        < crates@.len() by {
        assert(tokens@[i].1@.contains(tokens@[i].1@[k]));
        assert(pair_views(pairs@).contains((tokens@[i].0@, tokens@[i].1@[k])));
        lemma_pairs_below(crate_names(crates@), crates@.len(), (tokens@[i].0@, tokens@[i].1@[k]));
    }
    SearchIndex { set, tokens }
}

/// Whether every character of the text takes one byte.
fn text_is_ascii(s: &str) -> (r: bool)
    ensures
        r == word_ok(s@),
{
    let cs = crate::text::chars_of(s);
    let mut i: usize = 0;
    while i < cs.len()
        invariant
            i <= cs@.len(),
            cs@ == s@,
            forall|k: int| 0 <= k < i ==> (#[trigger] cs@[k] as u32) < 128,
        decreases cs.len() - i,
    {
        if (cs[i] as u32) >= 128 {
            return false;
        }
        i = i + 1;
    }
    true
}

/// Builds the index when every word of every name can be cut at each of
/// its bytes (see `build_index`); nothing otherwise.
pub fn build_index_checked(crates: &Vec<Arc<OfflineCrate>>) -> (r: Option<SearchIndex>)
    ensures
        r is Some <==> crates_ok(crates@),
        r matches Some(ix) ==> index_of(ix, crates@),
{
    let mut j: usize = 0;
    while j < crates.len()
        invariant
            j <= crates@.len(),
            forall|a: int, w: int|
                0 <= a < j && 0 <= w < words_of(crates@[a].name@).len() ==> word_ok(
                    #[trigger] words_of(#[trigger] crates@[a].name@)[w],
                ),
        decreases crates.len() - j,
    {
        let runs = tokenize(crates[j].name.as_str());
        let mut k: usize = 0;
        while k < runs.len()
            invariant
                k <= runs@.len(),
                j < crates@.len(),
                crate::info_api::string_views(runs@) == lowered(name_runs(crates@[j as int].name@)),
                forall|a: int, w: int|
                    0 <= a < j && 0 <= w < words_of(crates@[a].name@).len() ==> word_ok(
                        #[trigger] words_of(#[trigger] crates@[a].name@)[w],
                    ),
                forall|w: int| 0 <= w < k ==> word_ok(#[trigger] words_of(crates@[j as int].name@)[w]),
            decreases runs.len() - k,
        {
            assert(crate::info_api::string_views(runs@)[k as int] == runs@[k as int]@);
            let word = to_lower_text(runs[k].as_str());
            assert(word@ == words_of(crates@[j as int].name@)[k as int]);
            if !text_is_ascii(word.as_str()) {
                return None;
            }
            k = k + 1;
        }
        assert(words_of(crates@[j as int].name@).len() == runs@.len());
        j = j + 1;
    }
    Some(build_index(crates))
}

// ---------------------------------------------------------------------------
// Searching.

/// Whether crate `j` has a token that the query word `q` starts.
pub open spec fn word_hit(ix: SearchIndex, q: Seq<u8>, j: usize) -> bool {
    exists|i: int|
        0 <= i < ix.tokens@.len() && is_prefix(q, #[trigger] token_bytes(ix.tokens@)[i]) && ix.tokens@[i].1@.contains(j)
}

/// The words of a query, as bytes.
pub open spec fn query_words(query: Seq<char>) -> Seq<Seq<u8>> {
    lowered(name_runs(query)).map_values(|w: Seq<char>| vstd::utf8::encode_utf8(w))
}

/// Whether crate `j` is found by the query: the query has words, and each
/// starts a token of the crate.
pub open spec fn found(ix: SearchIndex, query: Seq<char>, j: usize) -> bool {
    query_words(query).len() > 0 && forall|k: int| 0 <= k < query_words(query).len() ==> word_hit(ix, #[trigger] query_words(query)[k], j)
}

/// Whether `q` starts one of the non-empty words of the name, as bytes.
pub open spec fn starts_a_word(q: Seq<u8>, name: Seq<char>) -> bool {
    exists|m: int|
        0 <= m < words_of(name).len() && is_prefix(q, #[trigger] vstd::utf8::encode_utf8(words_of(name)[m]))
            && vstd::utf8::encode_utf8(words_of(name)[m]).len() > 0
}

/// The pairs of one word are its non-empty byte prefixes, each with the crate.
proof fn lemma_word_pairs_member(b: Seq<u8>, j: usize, p: (Seq<u8>, usize))
    ensures
        word_pairs(b, j).contains(p) <==> (p.1 == j && p.0.len() > 0 && is_prefix(p.0, b)),
{
    if word_pairs(b, j).contains(p) {
        let n = choose|n: int| 0 <= n < word_pairs(b, j).len() && word_pairs(b, j)[n] == p;
        assert(p.0 == b.take(n + 1));
        assert(b.take(p.0.len() as int) =~= p.0);
    }
    if p.1 == j && p.0.len() > 0 && is_prefix(p.0, b) {
        let n = p.0.len() - 1;
        assert(word_pairs(b, j)[n] == p);
    }
}

/// The pairs of the first `k` words of a crate are the non-empty byte
/// prefixes of those words, each with the crate.
proof fn lemma_crate_pairs_member(words: Seq<Seq<char>>, j: usize, k: nat, p: (Seq<u8>, usize))
    requires
        k <= words.len(),
    ensures
        crate_pairs(words, j, k).contains(p) <==> (p.1 == j && p.0.len() > 0 && exists|m: int|
            0 <= m < k && is_prefix(p.0, #[trigger] vstd::utf8::encode_utf8(words[m]))),
    decreases k,
{
    if k > 0 {
        let prev = crate_pairs(words, j, (k - 1) as nat);
        let b = vstd::utf8::encode_utf8(words[k - 1]);
        lemma_crate_pairs_member(words, j, (k - 1) as nat, p);
        lemma_word_pairs_member(b, j, p);
        vstd::seq_lib::lemma_seq_concat_contains_all_elements(prev, word_pairs(b, j), p);
        if p.1 == j && p.0.len() > 0 && exists|m: int| 0 <= m < k && is_prefix(p.0, #[trigger] vstd::utf8::encode_utf8(words[m])) {
            let m = choose|m: int| 0 <= m < k && is_prefix(p.0, #[trigger] vstd::utf8::encode_utf8(words[m]));
            if m < k - 1 {
                assert(prev.contains(p));
            } else {
                assert(word_pairs(b, j).contains(p));
            }
        }
    }
}

/// The pairs of the first `n` crates are, for each of them, the pairs of
/// its words.
proof fn lemma_all_pairs_member(names: Seq<Seq<char>>, n: nat, p: (Seq<u8>, usize))
    requires
        n <= names.len(),
        names.len() <= usize::MAX,
    ensures
        all_pairs(names, n).contains(p) <==> (p.1 < n && crate_pairs(
            words_of(names[p.1 as int]),
            p.1,
            words_of(names[p.1 as int]).len(),
        ).contains(p)),
    decreases n,
{
    if n > 0 {
        let prev = all_pairs(names, (n - 1) as nat);
        let words = words_of(names[n - 1]);
        let last = crate_pairs(words, (n - 1) as usize, words.len());
        lemma_all_pairs_member(names, (n - 1) as nat, p);
        lemma_crate_pairs_member(words, (n - 1) as usize, words.len(), p);
        vstd::seq_lib::lemma_seq_concat_contains_all_elements(prev, last, p);
    }
}

/// A query word finds a crate in the index of the crates exactly when it
/// starts one of the non-empty words of the crate's name.
proof fn lemma_word_hit_iff_prefix(ix: SearchIndex, crates: &Vec<Arc<OfflineCrate>>, q: Seq<u8>, j: usize)
    requires
        index_of(ix, crates@),
        j < crates@.len(),
    ensures
        word_hit(ix, q, j) <==> starts_a_word(q, crates@[j as int].name@),
{
    let names = crate_names(crates@);
    let n = crates@.len();
    let ps = all_pairs(names, n);
    let ts = ix.tokens@;
    let words = words_of(crates@[j as int].name@);
    assert(crates.len() == n);
    assert(names[j as int] == crates@[j as int].name@);
    if word_hit(ix, q, j) {
        let i = choose|i: int| 0 <= i < ts.len() && is_prefix(q, #[trigger] token_bytes(ts)[i]) && ts[i].1@.contains(j);
        let t = ts[i].0@;
        assert(token_bytes(ts)[i] == t);
        assert(ps.contains((t, j)));
        lemma_all_pairs_member(names, n, (t, j));
        lemma_crate_pairs_member(words, j, words.len(), (t, j));
        let m = choose|m: int| 0 <= m < words.len() && is_prefix(t, #[trigger] vstd::utf8::encode_utf8(words[m]));
        let e = vstd::utf8::encode_utf8(words[m]);
        assert(e.take(q.len() as int) =~= t.take(q.len() as int));
        assert(is_prefix(q, e));
    }
    if starts_a_word(q, crates@[j as int].name@) {
        let m = choose|m: int|
            0 <= m < words.len() && is_prefix(q, #[trigger] vstd::utf8::encode_utf8(words[m]))
                && vstd::utf8::encode_utf8(words[m]).len() > 0;
        let e = vstd::utf8::encode_utf8(words[m]);
        let t = if q.len() > 0 { q } else { e.take(1) };
        assert(is_prefix(t, e)) by {
            if q.len() == 0 {
                assert(e.take(1).len() == 1);
            }
        }
        lemma_crate_pairs_member(words, j, words.len(), (t, j));
        lemma_all_pairs_member(names, n, (t, j));
        assert(ps.contains((t, j)));
        let k = choose|k: int| 0 <= k < ps.len() && ps[k] == (t, j);
        assert(pair_tokens(ps)[k] == t);
        assert(pair_tokens(ps).contains(t));
        assert(token_bytes(ts).contains(t));
        let i = choose|i: int| 0 <= i < token_bytes(ts).len() && token_bytes(ts)[i] == t;
        assert(ts[i].0@ == t);
        assert(ts[i].1@.contains(j));
        assert(is_prefix(q, token_bytes(ts)[i])) by {
            assert(t.take(q.len() as int) =~= q);
        }
    }
}

/// A crate is found by a query exactly when the query has words and each
/// of them starts one of the words of the crate's name: the search matches
/// word prefixes, not the name as a whole.
pub proof fn lemma_found_by_prefixes(ix: SearchIndex, crates: &Vec<Arc<OfflineCrate>>, query: Seq<char>, j: usize)
    requires
        index_of(ix, crates@),
        j < crates@.len(),
    ensures
        found(ix, query, j) <==> (query_words(query).len() > 0 && forall|k: int|
            0 <= k < query_words(query).len() ==> starts_a_word(#[trigger] query_words(query)[k], crates@[j as int].name@)),
{
    let qw = query_words(query);
    assert forall|k: int| 0 <= k < qw.len() implies (word_hit(ix, #[trigger] qw[k], j) <==> starts_a_word(qw[k], crates@[j as int].name@)) by {
        lemma_word_hit_iff_prefix(ix, crates, qw[k], j);
    }
}

/// The keys from a threshold on in a strictly sorted sequence are its last
/// ones.
proof fn lemma_filter_suffix(s: Seq<Seq<u8>>, q: Seq<u8>)
    requires
        strictly_sorted(s),
    ensures
        s.filter(not_before(q)).len() <= s.len(),
        s.filter(not_before(q)) == s.skip(s.len() - s.filter(not_before(q)).len()),
    decreases s.len(),
{
    let f = not_before(q);
    if s.len() == 0 {
        assert(s.filter(f) =~= Seq::<Seq<u8>>::empty());
        assert(s.skip(0) =~= s);
    } else {
        let init = s.drop_last();
        assert(strictly_sorted(init)) by {
            assert forall|i: int, j: int| 0 <= i < j < init.len() implies bytes_lt(#[trigger] init[i], #[trigger] init[j]) by {
                assert(init[i] == s[i] && init[j] == s[j]);
            }
        }
        lemma_filter_suffix(init, q);
        assert(s == init.push(s.last()));
        init.lemma_filter_push(s.last(), f);
        if f(s.last()) {
            assert(s.filter(f) =~= s.skip(s.len() - s.filter(f).len()));
        } else {
            // every key is before `q`
            assert(init.filter(f).len() == 0) by {
                if init.filter(f).len() > 0 {
                    let m = init.len() - init.filter(f).len();
                    assert(init.filter(f)[0] == init[m]);
                    assert(bytes_lt(init[m], s.last()));
                    assert(bytes_lt(s.last(), q));
                    lemma_bytes_lt_transitive(init[m], s.last(), q);
                    init.filter_lemma(f);
                    assert(f(init.filter(f)[0]));
                }
            }
            assert(s.filter(f) =~= s.skip(s.len() as int));
        }
    }
}

/// Whether every crate of the index lies below `n`.
pub open spec fn ids_below(ts: Seq<(Vec<u8>, Vec<usize>)>, n: nat) -> bool {
    forall|i: int, k: int| 0 <= i < ts.len() && 0 <= k < ts[i].1@.len() ==> #[trigger] ts[i].1@[k] < n
}

fn starts_with(q: &Vec<u8>, k: &Vec<u8>) -> (r: bool)
    ensures
        r == is_prefix(q@, k@),
{
    if q.len() > k.len() {
        return false;
    }
    let mut i: usize = 0;
    while i < q.len()
        invariant
            i <= q@.len() <= k@.len(),
            forall|m: int| 0 <= m < i ==> q@[m] == k@[m],
        decreases q.len() - i,
    {
        if q[i] != k[i] {
            assert(k@.take(q@.len() as int)[i as int] != q@[i as int]);
            return false;
        }
        i = i + 1;
    }
    assert(k@.take(q@.len() as int) =~= q@);
    true
}

/// Whether byte string `a` comes before `b`.
fn bytes_less(a: &Vec<u8>, b: &Vec<u8>) -> (r: bool)
    ensures
        r == bytes_lt(a@, b@),
{
    let mut i: usize = 0;
    assert(a@.skip(0) =~= a@ && b@.skip(0) =~= b@);
    while i < a.len() && i < b.len()
        invariant
            i <= a@.len(),
            i <= b@.len(),
            bytes_lt(a@, b@) == bytes_lt(a@.skip(i as int), b@.skip(i as int)),
        decreases a.len() - i,
    {
        assert(a@.skip(i as int)[0] == a@[i as int]);
        assert(b@.skip(i as int)[0] == b@[i as int]);
        if a[i] != b[i] {
            return a[i] < b[i];
        }
        assert(a@.skip(i as int).drop_first() =~= a@.skip(i + 1));
        assert(b@.skip(i as int).drop_first() =~= b@.skip(i + 1));
        i = i + 1;
    }
    i < b.len()
}

/// The position of a token among strictly sorted tokens, by binary search.
fn find_token(tokens: &Vec<(Vec<u8>, Vec<usize>)>, k: &Vec<u8>) -> (r: usize)
    requires
        strictly_sorted(token_bytes(tokens@)),
        token_bytes(tokens@).contains(k@),
    ensures
        r < tokens@.len(),
        tokens@[r as int].0@ == k@,
{
    let ghost tb = token_bytes(tokens@);
    let mut lo: usize = 0;
    let mut hi: usize = tokens.len();
    while lo < hi
        invariant
            lo <= hi <= tokens@.len(),
            tb == token_bytes(tokens@),
            strictly_sorted(tb),
            forall|t: int| 0 <= t < lo ==> bytes_lt(#[trigger] tb[t], k@),
            forall|t: int| hi <= t < tokens@.len() ==> !bytes_lt(#[trigger] tb[t], k@),
        decreases hi - lo,
    {
        let mid = lo + (hi - lo) / 2;
        assert(tb[mid as int] == tokens@[mid as int].0@);
        if bytes_less(&tokens[mid].0, k) {
            assert forall|t: int| 0 <= t < mid + 1 implies bytes_lt(#[trigger] tb[t], k@) by {
                if t < mid {
                    lemma_bytes_lt_transitive(tb[t], tb[mid as int], k@);
                }
            }
            lo = mid + 1;
        } else {
            assert forall|t: int| mid <= t < tokens@.len() implies !bytes_lt(#[trigger] tb[t], k@) by {
                if t > mid && bytes_lt(tb[t], k@) {
                    lemma_bytes_lt_transitive(tb[mid as int], tb[t], k@);
                }
            }
            hi = mid;
        }
    }
    let ghost p = choose|p: int| 0 <= p < tb.len() && tb[p] == k@;
    proof {
        lemma_bytes_lt_irreflexive(k@);
        if p > lo {
            assert(bytes_lt(tb[lo as int], tb[p]));
        }
    }
    assert(tb[lo as int] == tokens@[lo as int].0@);
    lo
}

/// The crates that a query word hits (see `word_hit`), marked by position:
/// the set's keys from the word on are read while the word starts them, and
/// each one's crates are marked.
fn hits(ix: &SearchIndex, q: &Vec<u8>, n: usize) -> (r: Vec<bool>)
    requires
        set_keys(ix.set) == token_bytes(ix.tokens@),
        strictly_sorted(token_bytes(ix.tokens@)),
        ids_below(ix.tokens@, n as nat),
    ensures
        r@.len() == n,
        forall|j: int| 0 <= j < n ==> #[trigger] r@[j] == word_hit(*ix, q@, j as usize),
{
    let ghost tb = token_bytes(ix.tokens@);
    let ghost f = tb.filter(not_before(q@));
    proof {
        lemma_filter_suffix(tb, q@);
        tb.filter_lemma(not_before(q@));
    }
    let ghost start: int = tb.len() - f.len();
    let mut marks: Vec<bool> = Vec::new();
    let mut z: usize = 0;
    while z < n
        invariant
            z <= n,
            marks@.len() == z,
            forall|j: int| 0 <= j < z ==> !#[trigger] marks@[j],
        decreases n - z,
    {
        marks.push(false);
        z = z + 1;
    }
    let mut stream = stream_from(&ix.set, q);
    let ghost mut i: int = 0;
    loop
        invariant_except_break
            stream_keys(stream) == f.skip(i),
        invariant
            0 <= i <= f.len(),
            f == tb.skip(start),
            forall|m: int| 0 <= m < f.len() ==> !bytes_lt(#[trigger] f[m], q@),
            0 <= start,
            start + f.len() == tb.len(),
            tb == token_bytes(ix.tokens@),
            strictly_sorted(tb),
            ids_below(ix.tokens@, n as nat),
            marks@.len() == n,
            forall|t: int| start <= t < start + i ==> is_prefix(q@, #[trigger] tb[t]),
            forall|j: int|
                0 <= j < n ==> (#[trigger] marks@[j] <==> exists|t: int|
                    start <= t < start + i && ix.tokens@[t].1@.contains(j as usize)),
        ensures
            i == f.len() || !is_prefix(q@, f[i]),
        decreases f.len() - i,
    {
        match stream_next(&mut stream) {
            None => {
                assert(f.skip(i).len() == 0);
                break;
            },
            Some(k) => {
                assert(k@ == f[i]);
                if !starts_with(q, &k) {
                    break;
                }
                assert(f[i] == tb[start + i]);
                assert(tb.contains(k@));
                let t = find_token(&ix.tokens, &k);
                proof {
                    assert(tb[t as int] == k@);
                    lemma_bytes_lt_irreflexive(k@);
                    if (t as int) < start + i {
                        assert(bytes_lt(tb[t as int], tb[start + i]));
                    } else if (t as int) > start + i {
                        assert(bytes_lt(tb[start + i], tb[t as int]));
                    }
                    assert(t as int == start + i);
                }
                let ids = &ix.tokens[t].1;
                let ghost before = marks@;
                let mut k: usize = 0;
                while k < ids.len()
                    invariant
                        k <= ids@.len(),
                        *ids == ix.tokens@[t as int].1,
                        ids_below(ix.tokens@, n as nat),
                        t < ix.tokens@.len(),
                        marks@.len() == n,
                        forall|j: int| 0 <= j < n ==> (#[trigger] marks@[j] <==> (before[j] || ids@.take(k as int).contains(j as usize))),
                    decreases ids.len() - k,
                {
                    assert(ids@[k as int] < n);
                    let id = ids[k];
                    marks.set(id, true);
                    assert forall|j: int| 0 <= j < n implies (#[trigger] marks@[j] <==> (before[j] || ids@.take(k + 1).contains(j as usize))) by {
                        assert(ids@.take(k + 1) == ids@.take(k as int).push(id));
                        if j == id as int {
                            assert(ids@.take(k + 1)[k as int] == id);
                        }
                    }
                    k = k + 1;
                }
                assert(ids@.take(ids@.len() as int) == ids@);
                proof {
                    i = i + 1;
                    assert(f.skip(i - 1).drop_first() =~= f.skip(i));
                }
                assert forall|j: int| 0 <= j < n implies (#[trigger] marks@[j] <==> exists|u: int|
                    start <= u < start + i && ix.tokens@[u].1@.contains(j as usize)) by {
                    if marks@[j] && !before[j] {
                        assert(ix.tokens@[start + i - 1].1@.contains(j as usize));
                    }
                    if !before[j] {
                        assert forall|u: int| start <= u < start + i - 1 implies !ix.tokens@[u].1@.contains(j as usize) by {}
                    }
                }
            },
        }
    }
    proof {
        assert forall|j: int| 0 <= j < n implies #[trigger] marks@[j] == word_hit(*ix, q@, j as usize) by {
            if word_hit(*ix, q@, j as usize) {
                let t = choose|t: int|
                    0 <= t < ix.tokens@.len() && is_prefix(q@, #[trigger] token_bytes(ix.tokens@)[t]) && ix.tokens@[t].1@.contains(j as usize);
                if t < start {
                    // the token comes before `q`, so `q` does not start it
                    if !bytes_lt(tb[t], q@) {
                        assert(f.contains(tb[t]));
                        let m = choose|m: int| 0 <= m < f.len() && f[m] == tb[t];
                        assert(tb.skip(start)[m] == tb[start + m]);
                        assert(bytes_lt(tb[t], tb[start + m]));
                        lemma_bytes_lt_irreflexive(tb[t]);
                    }
                    lemma_prefix_not_before(q@, tb[t]);
                } else if t >= start + i {
                    assert(i < f.len());
                    let x = tb[start + i];
                    assert(f[i] == x);
                    assert(!is_prefix(q@, x));
                    assert(!bytes_lt(x, q@));
                    lemma_after_prefixed(q@, x, tb[t]);
                    if t > start + i {
                        assert(bytes_lt(x, tb[t]));
                        lemma_bytes_lt_total(x, tb[t]);
                    } else {
                        lemma_bytes_lt_irreflexive(x);
                    }
                }
            }
            if marks@[j] {
                let t = choose|t: int| start <= t < start + i && ix.tokens@[t].1@.contains(j as usize);
                assert(is_prefix(q@, tb[t]));
                assert(token_bytes(ix.tokens@)[t] == tb[t]);
            }
        }
    }
    marks
}

/// The crates a query finds (see `found`), by position, ordered by name and
/// then by position.
pub fn search(ix: &SearchIndex, query: &str, crates: &Vec<Arc<OfflineCrate>>) -> (r: Vec<usize>)
    requires
        index_of(*ix, crates@),
    ensures
        forall|j: usize| r@.contains(j) <==> (j < crates@.len() && found(*ix, query@, j)),
        forall|a: int, b: int|
            0 <= a < b < r@.len() ==> r@[a] != r@[b] && pair_le(
                (vstd::utf8::encode_utf8(crates@[#[trigger] r@[a] as int].name@), r@[a]),
                (vstd::utf8::encode_utf8(crates@[#[trigger] r@[b] as int].name@), r@[b]),
            ),
{
    let words = tokenize(query);
    let ghost qw = query_words(query@);
    assert(qw.len() == words@.len());
    if words.len() == 0 {
        let r: Vec<usize> = Vec::new();
        return r;
    }
    let n = crates.len();
    let mut alive: Vec<bool> = Vec::new();
    let mut z: usize = 0;
    while z < n
        invariant
            z <= n,
            alive@.len() == z,
            forall|j: int| 0 <= j < z ==> #[trigger] alive@[j],
        decreases n - z,
    {
        alive.push(true);
        z = z + 1;
    }
    let mut w: usize = 0;
    while w < words.len()
        invariant
            w <= words@.len(),
            n == crates@.len(),
            index_of(*ix, crates@),
            crate::info_api::string_views(words@) == lowered(name_runs(query@)),
            qw == query_words(query@),
            qw.len() == words@.len(),
            alive@.len() == n,
            forall|j: int| 0 <= j < n ==> (#[trigger] alive@[j] <==> forall|k: int| 0 <= k < w ==> word_hit(*ix, #[trigger] qw[k], j as usize)),
        decreases words.len() - w,
    {
        assert(crate::info_api::string_views(words@)[w as int] == words@[w as int]@);
        let qb = words[w].as_str().as_bytes_vec();
        assert(qb@ == qw[w as int]);
        let h = hits(ix, &qb, n);
        let mut any = false;
        let mut j: usize = 0;
        let ghost old_alive = alive@;
        while j < n
            invariant
                j <= n,
                alive@.len() == n,
                h@.len() == n,
                any ==> exists|m: int| 0 <= m < j && #[trigger] h@[m],
                !any ==> forall|m: int| 0 <= m < j ==> !#[trigger] h@[m],
                forall|m: int| 0 <= m < n ==> #[trigger] alive@[m] == (if m < j { old_alive[m] && h@[m] } else { old_alive[m] }),
            decreases n - j,
        {
            if h[j] {
                any = true;
            }
            let keep = alive[j] && h[j];
            alive.set(j, keep);
            j = j + 1;
        }
        if !any {
            let r: Vec<usize> = Vec::new();
            assert forall|m: usize| !(m < crates@.len() && found(*ix, query@, m)) by {
                if m < crates@.len() && found(*ix, query@, m) {
                    assert(word_hit(*ix, qw[w as int], m));
                    assert(h@[m as int]);
                }
            }
            return r;
        }
        assert forall|m: int| 0 <= m < n implies (#[trigger] alive@[m] <==> forall|k: int| 0 <= k < w + 1 ==> word_hit(*ix, #[trigger] qw[k], m as usize)) by {
            assert(h@[m] == word_hit(*ix, qw[w as int], m as usize));
        }
        w = w + 1;
    }
    let mut pairs: Vec<(Vec<u8>, usize)> = Vec::new();
    let mut j: usize = 0;
    while j < n
        invariant
            j <= n,
            n == crates@.len(),
            alive@.len() == n,
            forall|k: int| 0 <= k < pairs@.len() ==> (#[trigger] pairs@[k]).1 < j && alive@[pairs@[k].1 as int]
                && pairs@[k].0@ == vstd::utf8::encode_utf8(crates@[pairs@[k].1 as int].name@),
            forall|m: int| 0 <= m < j && alive@[m] ==> exists|k: int| 0 <= k < pairs@.len() && #[trigger] pairs@[k].1 == m,
            forall|a: int, b: int| 0 <= a < b < pairs@.len() ==> #[trigger] pairs@[a].1 < #[trigger] pairs@[b].1,
        decreases n - j,
    {
        let ghost before = pairs@;
        if alive[j] {
            let b = crates[j].name.as_str().as_bytes_vec();
            pairs.push((b, j));
            assert(pairs@[pairs@.len() - 1].1 == j);
        }
        assert forall|m: int| 0 <= m < j + 1 && alive@[m] implies exists|k: int| 0 <= k < pairs@.len() && #[trigger] pairs@[k].1 == m by {
            if m < j {
                let k = choose|k: int| 0 <= k < before.len() && #[trigger] before[k].1 == m;
                assert(pairs@[k] == before[k]);
            } else {
                assert(pairs@[pairs@.len() - 1].1 == m);
            }
        }
        j = j + 1;
    }
    let ghost unsorted = pairs@;
    sort_pairs(&mut pairs);
    proof {
        broadcast use vstd::seq_lib::group_to_multiset_ensures;
    }
    let mut r: Vec<usize> = Vec::new();
    let mut k: usize = 0;
    while k < pairs.len()
        invariant
            k <= pairs@.len(),
            r@.len() == k,
            forall|i: int| 0 <= i < k ==> #[trigger] r@[i] == pairs@[i].1,
        decreases pairs.len() - k,
    {
        r.push(pairs[k].1);
        k = k + 1;
    }
    proof {
        assert forall|i: int| 0 <= i < pairs@.len() implies unsorted.contains(#[trigger] pairs@[i]) by {
            assert(pairs@.contains(pairs@[i]));
            assert(pairs@.to_multiset().count(pairs@[i]) > 0);
            assert(unsorted.to_multiset().count(pairs@[i]) > 0);
        }
        assert forall|i: int| 0 <= i < unsorted.len() implies pairs@.contains(#[trigger] unsorted[i]) by {
            assert(unsorted.contains(unsorted[i]));
            assert(unsorted.to_multiset().count(unsorted[i]) > 0);
            assert(pairs@.to_multiset().count(unsorted[i]) > 0);
        }
        assert forall|m: usize| r@.contains(m) <==> (m < crates@.len() && found(*ix, query@, m)) by {
            if r@.contains(m) {
                let i = choose|i: int| 0 <= i < r@.len() && r@[i] == m;
                assert(unsorted.contains(pairs@[i]));
                let u = choose|u: int| 0 <= u < unsorted.len() && unsorted[u] == pairs@[i];
                assert(alive@[m as int]);
                assert forall|q: int| 0 <= q < qw.len() implies word_hit(*ix, #[trigger] qw[q], m) by {}
            }
            if m < crates@.len() && found(*ix, query@, m) {
                assert(alive@[m as int]);
                let u = choose|u: int| 0 <= u < unsorted.len() && #[trigger] unsorted[u].1 == m;
                assert(pairs@.contains(unsorted[u]));
                let i = choose|i: int| 0 <= i < pairs@.len() && pairs@[i] == unsorted[u];
                assert(r@[i] == m);
            }
        }
        assert forall|a: int, b: int| 0 <= a < b < r@.len() implies r@[a] != r@[b] && pair_le(
            (vstd::utf8::encode_utf8(crates@[#[trigger] r@[a] as int].name@), r@[a]),
            (vstd::utf8::encode_utf8(crates@[#[trigger] r@[b] as int].name@), r@[b]),
        ) by {
            assert(unsorted.contains(pairs@[a]));
            assert(unsorted.contains(pairs@[b]));
            let ua = choose|u: int| 0 <= u < unsorted.len() && unsorted[u] == pairs@[a];
            let ub = choose|u: int| 0 <= u < unsorted.len() && unsorted[u] == pairs@[b];
            assert(pair_le(pair_views(pairs@)[a], pair_views(pairs@)[b]));
            if r@[a] == r@[b] {
                assert(ua == ub) by {
                    if ua < ub {
                        assert(unsorted[ua].1 < unsorted[ub].1);
                    } else if ub < ua {
                        assert(unsorted[ub].1 < unsorted[ua].1);
                    }
                }
                assert(pairs@[a] == pairs@[b]);
                // two places of the sorted list hold the same pair, which the
                // unsorted list holds once
                assert(unsorted.to_multiset().count(unsorted[ua]) == 1) by {
                    unsorted.lemma_multiset_has_no_duplicates();
                }
                assert(pairs@.to_multiset().count(pairs@[a]) >= 2) by {
                    pairs@.remove(a).to_multiset();
                    assert(pairs@.remove(a).contains(pairs@[b])) by {
                        assert(pairs@.remove(a)[b - 1] == pairs@[b]);
                    }
                    assert(pairs@.remove(a).to_multiset().count(pairs@[b]) > 0);
                }
            }
        }
    }
    r
}

// ---------------------------------------------------------------------------
// Ranking.

/// The order of ranked results: by key, then name, then position.
pub open spec fn triple_le(a: (u32, Seq<u8>, usize), b: (u32, Seq<u8>, usize)) -> bool {
    a.0 < b.0 || (a.0 == b.0 && pair_le((a.1, a.2), (b.1, b.2)))
}

pub open spec fn triple_views(v: Seq<(u32, Vec<u8>, usize)>) -> Seq<(u32, Seq<u8>, usize)> {
    v.map_values(|x: (u32, Vec<u8>, usize)| (x.0, x.1@, x.2))
}

/// Sorts the triples with `slice::sort`, which orders tuples field by field
/// and byte vectors lexicographically; the triples are the same ones.
#[verifier::external_body]
fn sort_triples(v: &mut Vec<(u32, Vec<u8>, usize)>)
    ensures
        final(v)@.to_multiset() == old(v)@.to_multiset(),
        forall|i: int, j: int| 0 <= i < j < final(v)@.len() ==> triple_le(
            #[trigger] triple_views(final(v)@)[i],
            #[trigger] triple_views(final(v)@)[j],
        ),
{
    v.sort()
}

/// Where a crate ranks: the more often it is used the earlier, then by
/// name, then by position.
pub open spec fn rank_key(c: OfflineCrate, j: usize) -> (u32, Seq<u8>, usize) {
    ((u32::MAX - c.order) as u32, vstd::utf8::encode_utf8(c.name@), j)
}

/// Whether `c` shows the crate `oc` as a search result (see
/// `OfflineCrate::as_crate`).
pub open spec fn shown_as(c: Crate, oc: OfflineCrate, exact: bool) -> bool {
    &&& c.exact_match == exact
    &&& c.name@ == oc.name@
    &&& opt_view(c.description) == opt_view(oc.description)
    &&& opt_view(c.homepage) == opt_view(oc.homepage)
    &&& opt_view(c.documentation) == opt_view(oc.documentation)
    &&& opt_view(c.repository) == opt_view(oc.repository)
    &&& opt_view(c.max_stable_version) == opt_view(oc.latest_stable_version)
    &&& opt_view(c.max_version) == match oc.latest_version {
        Some(v) => Some(v@),
        None => opt_view(oc.latest_stable_version),
    }
}

/// The crates found by position whose names start with the query, each
/// once.
fn keep_prefixed(ids: &Vec<usize>, crates: &Vec<Arc<OfflineCrate>>, query: &str) -> (r: Vec<usize>)
    requires
        forall|j: usize| ids@.contains(j) ==> j < crates@.len(),
        forall|a: int, b: int| 0 <= a < b < ids@.len() ==> ids@[a] != ids@[b],
    ensures
        forall|j: usize| r@.contains(j) <==> (ids@.contains(j) && crate::lock::starts_with(crates@[j as int].name@, query@)),
        forall|a: int, b: int| 0 <= a < b < r@.len() ==> r@[a] != r@[b],
{
    let mut out: Vec<usize> = Vec::new();
    let mut k: usize = 0;
    while k < ids.len()
        invariant
            k <= ids@.len(),
            forall|j: usize| ids@.contains(j) ==> j < crates@.len(),
            forall|a: int, b: int| 0 <= a < b < ids@.len() ==> ids@[a] != ids@[b],
            forall|j: usize|
                out@.contains(j) <==> (ids@.take(k as int).contains(j) && crate::lock::starts_with(crates@[j as int].name@, query@)),
            forall|a: int, b: int| 0 <= a < b < out@.len() ==> out@[a] != out@[b],
        decreases ids.len() - k,
    {
        let j = ids[k];
        assert(ids@.contains(j));
        let ghost before = out@;
        assert(ids@.take(k + 1) =~= ids@.take(k as int).push(j));
        if crate::assist::text_starts_with(crates[j].name.as_str(), query) {
            assert(!before.contains(j)) by {
                if before.contains(j) {
                    let t = ids@.take(k as int);
                    let m = choose|m: int| 0 <= m < t.len() && #[trigger] t[m] == j;
                    assert(ids@[m] == ids@[k as int]);
                }
            }
            out.push(j);
            assert forall|a: int, b: int| 0 <= a < b < out@.len() implies out@[a] != out@[b] by {
                if b == out@.len() - 1 {
                    assert(before.contains(before[a]));
                }
            }
            assert forall|x: usize| out@.contains(x) <==> (ids@.take(k + 1).contains(x) && crate::lock::starts_with(crates@[x as int].name@, query@)) by {
                if out@.contains(x) && x != j {
                    let m = choose|m: int| 0 <= m < out@.len() && out@[m] == x;
                    assert(before[m] == x);
                }
                if x == j {
                    assert(out@[out@.len() - 1] == j);
                    assert(ids@.take(k + 1)[k as int] == j);
                }
                if before.contains(x) {
                    let m = choose|m: int| 0 <= m < before.len() && before[m] == x;
                    assert(out@[m] == x);
                }
                if x != j && ids@.take(k + 1).contains(x) {
                    let t = ids@.take(k + 1);
                    let m = choose|m: int| 0 <= m < t.len() && #[trigger] t[m] == x;
                    assert(ids@.take(k as int)[m] == x);
                }
                if ids@.take(k as int).contains(x) {
                    let t = ids@.take(k as int);
                    let m = choose|m: int| 0 <= m < t.len() && #[trigger] t[m] == x;
                    assert(ids@.take(k + 1)[m] == x);
                }
            }
        } else {
            assert forall|x: usize| out@.contains(x) <==> (ids@.take(k + 1).contains(x) && crate::lock::starts_with(crates@[x as int].name@, query@)) by {
                if x != j && ids@.take(k + 1).contains(x) {
                    let t = ids@.take(k + 1);
                    let m = choose|m: int| 0 <= m < t.len() && #[trigger] t[m] == x;
                    assert(ids@.take(k as int)[m] == x);
                }
                if ids@.take(k as int).contains(x) {
                    let t = ids@.take(k as int);
                    let m = choose|m: int| 0 <= m < t.len() && #[trigger] t[m] == x;
                    assert(ids@.take(k + 1)[m] == x);
                }
            }
        }
        k = k + 1;
    }
    assert(ids@.take(k as int) =~= ids@);
    out
}

/// The crates a query finds (see `search`) whose names start with the
/// query, as the offline search promises, as search results ranked by use
/// (most used first), then by name; a result is an exact match when its
/// name is the query.
pub fn search_local(ix: &SearchIndex, query: &str, crates: &Vec<Arc<OfflineCrate>>) -> (r: Vec<Crate>)
    requires
        index_of(*ix, crates@),
    ensures
        exists|js: Seq<usize>|
            #![trigger js.len()]
            js.len() == r@.len() && (forall|j: usize|
                js.contains(j) <==> (j < crates@.len() && found(*ix, query@, j) && crate::lock::starts_with(
                    crates@[j as int].name@,
                    query@,
                )))
                && (forall|a: int, b: int|
                0 <= a < b < js.len() ==> js[a] != js[b] && triple_le(
                    rank_key(*crates@[#[trigger] js[a] as int], js[a]),
                    rank_key(*crates@[#[trigger] js[b] as int], js[b]),
                )) && (forall|i: int|
                0 <= i < r@.len() ==> shown_as(
                    #[trigger] r@[i],
                    *crates@[js[i] as int],
                    crates@[js[i] as int].name@ == query@,
                )),
        forall|i: int| 0 <= i < r@.len() ==> crate::lock::starts_with(#[trigger] r@[i].name@, query@),
{
    let all_ids = search(ix, query, crates);
    let found_ids = keep_prefixed(&all_ids, crates, query);
    let mut triples: Vec<(u32, Vec<u8>, usize)> = Vec::new();
    let mut k: usize = 0;
    while k < found_ids.len()
        invariant
            k <= found_ids@.len(),
            forall|j: usize| found_ids@.contains(j) ==> j < crates@.len(),
            triples@.len() == k,
            forall|i: int| 0 <= i < k ==> #[trigger] triples@[i] == (
                (u32::MAX - crates@[found_ids@[i] as int].order) as u32,
                triples@[i].1,
                found_ids@[i],
            ) && triples@[i].1@ == vstd::utf8::encode_utf8(crates@[found_ids@[i] as int].name@),
        decreases found_ids.len() - k,
    {
        let j = found_ids[k];
        assert(found_ids@.contains(j));
        let c = &crates[j];
        triples.push((u32::MAX - c.order, c.name.as_str().as_bytes_vec(), j));
        k = k + 1;
    }
    let ghost unsorted = triples@;
    sort_triples(&mut triples);
    proof {
        broadcast use vstd::seq_lib::group_to_multiset_ensures;
        assert forall|m: int| 0 <= m < triples@.len() implies (#[trigger] triples@[m]).2 < crates@.len() by {
            assert(triples@.contains(triples@[m]));
            assert(triples@.to_multiset().count(triples@[m]) > 0);
            assert(unsorted.to_multiset().count(triples@[m]) > 0);
            assert(unsorted.contains(triples@[m]));
            let u = choose|u: int| 0 <= u < unsorted.len() && unsorted[u] == triples@[m];
            assert(found_ids@.contains(found_ids@[u]));
        }
    }
    let mut out: Vec<Crate> = Vec::new();
    let mut i: usize = 0;
    while i < triples.len()
        invariant
            i <= triples@.len(),
            out@.len() == i,
            forall|m: int| 0 <= m < triples@.len() ==> (#[trigger] triples@[m]).2 < crates@.len(),
            forall|m: int| 0 <= m < i ==> shown_as(
                #[trigger] out@[m],
                *crates@[triples@[m].2 as int],
                crates@[triples@[m].2 as int].name@ == query@,
            ),
        decreases triples.len() - i,
    {
        let c = &crates[triples[i].2];
        let exact = crate::text::same_text(c.name.as_str(), query);
        out.push(c.as_crate(exact));
        i = i + 1;
    }
    proof {
        let js = triple_views(triples@).map_values(|t: (u32, Seq<u8>, usize)| t.2);
        assert(js.len() == out@.len());
        assert forall|m: int| 0 <= m < unsorted.len() implies triples@.contains(#[trigger] unsorted[m]) by {
            assert(unsorted.contains(unsorted[m]));
            assert(unsorted.to_multiset().count(unsorted[m]) > 0);
            assert(triples@.to_multiset().count(unsorted[m]) > 0);
        }
        assert forall|m: int| 0 <= m < triples@.len() implies unsorted.contains(#[trigger] triples@[m]) by {
            assert(triples@.contains(triples@[m]));
            assert(triples@.to_multiset().count(triples@[m]) > 0);
            assert(unsorted.to_multiset().count(triples@[m]) > 0);
        }
        assert forall|j: usize|
            js.contains(j) <==> (j < crates@.len() && found(*ix, query@, j) && crate::lock::starts_with(
                crates@[j as int].name@,
                query@,
            )) by {
            if js.contains(j) {
                let m = choose|m: int| 0 <= m < js.len() && js[m] == j;
                let u = choose|u: int| 0 <= u < unsorted.len() && unsorted[u] == triples@[m];
                assert(found_ids@[u] == j);
                assert(found_ids@.contains(j));
            }
            if j < crates@.len() && found(*ix, query@, j) && crate::lock::starts_with(crates@[j as int].name@, query@) {
                assert(all_ids@.contains(j));
                assert(found_ids@.contains(j));
                let u = choose|u: int| 0 <= u < found_ids@.len() && found_ids@[u] == j;
                assert(triples@.contains(unsorted[u]));
                let m = choose|m: int| 0 <= m < triples@.len() && triples@[m] == unsorted[u];
                assert(js[m] == j);
            }
        }
        assert forall|a: int, b: int| 0 <= a < b < js.len() implies js[a] != js[b] && triple_le(
            rank_key(*crates@[#[trigger] js[a] as int], js[a]),
            rank_key(*crates@[#[trigger] js[b] as int], js[b]),
        ) by {
            assert(unsorted.contains(triples@[a]));
            assert(unsorted.contains(triples@[b]));
            let ua = choose|u: int| 0 <= u < unsorted.len() && unsorted[u] == triples@[a];
            let ub = choose|u: int| 0 <= u < unsorted.len() && unsorted[u] == triples@[b];
            assert(triple_le(triple_views(triples@)[a], triple_views(triples@)[b]));
            if js[a] == js[b] {
                assert(ua == ub) by {
                    if ua != ub {
                        assert(found_ids@[ua] != found_ids@[ub]);
                    }
                }
                assert(unsorted.to_multiset().count(unsorted[ua]) == 1) by {
                    assert(unsorted.no_duplicates()) by {
                        assert forall|x: int, y: int| 0 <= x < unsorted.len() && 0 <= y < unsorted.len() && x != y implies unsorted[x] != unsorted[y] by {
                            assert(found_ids@[x] != found_ids@[y]);
                        }
                    }
                    unsorted.lemma_multiset_has_no_duplicates();
                }
                assert(triples@.to_multiset().count(triples@[a]) >= 2) by {
                    assert(triples@.remove(a).contains(triples@[b])) by {
                        assert(triples@.remove(a)[b - 1] == triples@[b]);
                    }
                    assert(triples@.remove(a).to_multiset().count(triples@[b]) > 0);
                }
            }
        }
        assert forall|m: int| 0 <= m < out@.len() implies shown_as(
            #[trigger] out@[m],
            *crates@[js[m] as int],
            crates@[js[m] as int].name@ == query@,
        ) by {}
        assert forall|m: int| 0 <= m < out@.len() implies crate::lock::starts_with(#[trigger] out@[m].name@, query@) by {
            let u = choose|u: int| 0 <= u < unsorted.len() && unsorted[u] == triples@[m];
            assert(found_ids@.contains(found_ids@[u]));
        }
        assert(exists|js2: Seq<usize>|
            #![trigger js2.len()]
            js2.len() == out@.len() && (forall|j: usize|
                js2.contains(j) <==> (j < crates@.len() && found(*ix, query@, j) && crate::lock::starts_with(
                    crates@[j as int].name@,
                    query@,
                ))) && (forall|a: int, b: int|
                0 <= a < b < js2.len() ==> js2[a] != js2[b] && triple_le(
                    rank_key(*crates@[#[trigger] js2[a] as int], js2[a]),
                    rank_key(*crates@[#[trigger] js2[b] as int], js2[b]),
                )) && (forall|i: int|
                0 <= i < out@.len() ==> shown_as(
                    #[trigger] out@[i],
                    *crates@[js2[i] as int],
                    crates@[js2[i] as int].name@ == query@,
                ))) by {
            assert(js.len() == out@.len());
        }
    }
    out
}

/// The first crate of the list with the given name.
pub fn get_local(crates: &Vec<Arc<OfflineCrate>>, name: &str) -> (r: Option<usize>)
    ensures
        r matches Some(j) ==> j < crates@.len() && crates@[j as int].name@ == name@ && forall|k: int|
            0 <= k < j ==> (#[trigger] crates@[k]).name@ != name@,
        r is None ==> forall|k: int| 0 <= k < crates@.len() ==> (#[trigger] crates@[k]).name@ != name@,
{
    let mut i: usize = 0;
    while i < crates.len()
        invariant
            i <= crates@.len(),
            forall|k: int| 0 <= k < i ==> (#[trigger] crates@[k]).name@ != name@,
        decreases crates.len() - i,
    {
        if crate::text::same_text(crates[i].name.as_str(), name) {
            return Some(i);
        }
        i = i + 1;
    }
    None
}

} // verus!
