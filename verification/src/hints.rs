//! Which locked package a dependency resolves to, and the hints that show
//! its version next to each dependency.
use vstd::prelude::*;
use crate::lock::{chars_in_bytes, CargoLockRaw, Package, Source as LockSource, group_views, grouped};
use crate::positioned::{Dependency, Positioned, Source};
use crate::rust_version::{parse_version, version_order, RustVersion, VersionView};
use crate::text::same_text;

verus! {

/// A kind of package source.
#[derive(Clone, Copy, PartialEq, Eq, Structural)]
pub enum Sel {
    Registry,
    Git,
    /// Neither a registry nor a git repository.
    Other,
}

/// A part of a version.
#[derive(Clone, Copy, PartialEq, Eq, Structural)]
pub enum Part {
    Major,
    Minor,
    Patch,
}

pub open spec fn selected(p: Package, s: Sel) -> bool {
    match s {
        Sel::Registry => p.source matches Some(LockSource::Registry(_)),
        Sel::Git => p.source matches Some(LockSource::Git { .. }),
        Sel::Other => !(p.source matches Some(LockSource::Registry(_))) && !(p.source matches Some(
            LockSource::Git { .. },
        )),
    }
}

/// The indices of the packages of the given source kind, in order.
pub open spec fn indices_of(ps: Seq<Package>, s: Sel) -> Seq<int>
    decreases ps.len(),
{
    if ps.len() == 0 {
        seq![]
    } else if selected(ps.last(), s) {
        indices_of(ps.drop_last(), s).push(ps.len() - 1)
    } else {
        indices_of(ps.drop_last(), s)
    }
}

pub open spec fn part_of(v: VersionView, part: Part) -> Option<u32> {
    match part {
        Part::Major => v.major,
        Part::Minor => v.minor,
        Part::Patch => v.patch,
    }
}

/// Of `idx`, those whose package has the given part equal to `want`.
pub open spec fn keep_part(ps: Seq<Package>, idx: Seq<int>, part: Part, want: Option<u32>) -> Seq<int>
    decreases idx.len(),
{
    if idx.len() == 0 {
        seq![]
    } else if part_of(ps[idx.last()].version@, part) == want {
        keep_part(ps, idx.drop_last(), part, want).push(idx.last())
    } else {
        keep_part(ps, idx.drop_last(), part, want)
    }
}

/// How packages compare by a part: a missing major counts as 99999, a
/// missing patch comes before every patch.
pub open spec fn key_of(v: VersionView, part: Part) -> int {
    match part {
        Part::Patch => match v.patch {
            Some(p) => p as int,
            None => -1,
        },
        _ => match part_of(v, part) {
            Some(x) => x as int,
            None => 99999,
        },
    }
}

/// The first of `idx` with the smallest key.
pub open spec fn first_min(ps: Seq<Package>, idx: Seq<int>, part: Part) -> Option<int>
    decreases idx.len(),
{
    if idx.len() == 0 {
        None
    } else {
        let i = idx.last();
        match first_min(ps, idx.drop_last(), part) {
            None => Some(i),
            Some(j) => if key_of(ps[i].version@, part) < key_of(ps[j].version@, part) {
                Some(i)
            } else {
                Some(j)
            },
        }
    }
}

/// The last of `idx` with the greatest version.
pub open spec fn last_max(ps: Seq<Package>, idx: Seq<int>) -> Option<int>
    decreases idx.len(),
{
    if idx.len() == 0 {
        None
    } else {
        let i = idx.last();
        match last_max(ps, idx.drop_last()) {
            None => Some(i),
            Some(j) => if version_order(ps[i].version@, ps[j].version@) >= 0 {
                Some(i)
            } else {
                Some(j)
            },
        }
    }
}

/// The first of `idx`, if any.
pub open spec fn first_of(idx: Seq<int>) -> Option<int> {
    if idx.len() == 0 {
        None
    } else {
        Some(idx[0])
    }
}

/// Of several packages of one source kind, the greatest version (the last
/// among equals); of one, that one.
pub open spec fn pick_of_kind(ps: Seq<Package>, s: Sel) -> Option<int> {
    let items = indices_of(ps, s);
    if items.len() > 1 {
        last_max(ps, items)
    } else {
        first_of(items)
    }
}

/// Which registry package a version requirement resolves to: narrowing the
/// registry packages by major, then minor, then patch. When no package has
/// the major, the one with the smallest major; when several match the major
/// but none the minor, none; when several match the minor but none the
/// patch, the one with the smallest patch; when several match all three,
/// none.
pub open spec fn pick_registry(ps: Seq<Package>, items: Seq<int>, ver: VersionView) -> Option<int> {
    let t = keep_part(ps, items, Part::Major, ver.major);
    if t.len() == 0 {
        first_min(ps, items, Part::Major)
    } else if t.len() == 1 {
        Some(t[0])
    } else {
        let m = keep_part(ps, t, Part::Minor, ver.minor);
        if m.len() == 0 {
            None
        } else if m.len() == 1 {
            Some(m[0])
        } else {
            let q = keep_part(ps, m, Part::Patch, ver.patch);
            if q.len() == 0 {
                first_min(ps, m, Part::Patch)
            } else if q.len() == 1 {
                Some(q[0])
            } else {
                None
            }
        }
    }
}

/// Which locked package of the dependency's name a hint shows: the only one
/// when there is one; else by the dependency's source, among the packages
/// of that kind (see `pick_registry` and `pick_of_kind`).
pub open spec fn hint_choice(src: Source, ps: Seq<Package>) -> Option<int> {
    if ps.len() <= 1 {
        first_of(if ps.len() == 1 { seq![0int] } else { seq![] })
    } else {
        match src {
            Source::Version { value, .. } => {
                let items = indices_of(ps, Sel::Registry);
                if items.len() > 1 {
                    match parse_version(value.value.data@) {
                        Ok(ver) => pick_registry(ps, items, ver),
                        Err(_) => None,
                    }
                } else {
                    first_of(items)
                }
            },
            Source::Git { .. } => pick_of_kind(ps, Sel::Git),
            _ => pick_of_kind(ps, Sel::Other),
        }
    }
}

pub open spec fn index_view(v: Seq<usize>) -> Seq<int> {
    v.map_values(|i: usize| i as int)
}

fn is_selected(p: &Package, s: Sel) -> (r: bool)
    ensures
        r == selected(*p, s),
{
    match s {
        Sel::Registry => p.is_registry(),
        Sel::Git => p.is_git(),
        Sel::Other => !p.is_git() && !p.is_registry(),
    }
}

fn indices_exec(ps: &Vec<Package>, s: Sel) -> (r: Vec<usize>)
    ensures
        index_view(r@) == indices_of(ps@, s),
        forall|k: int| 0 <= k < r@.len() ==> (#[trigger] r@[k]) < ps@.len(),
{
    let mut out: Vec<usize> = Vec::new();
    let mut i: usize = 0;
    while i < ps.len()
        invariant
            i <= ps@.len(),
            index_view(out@) == indices_of(ps@.take(i as int), s),
            forall|k: int| 0 <= k < out@.len() ==> (#[trigger] out@[k]) < i,
        decreases ps.len() - i,
    {
        assert(ps@.take(i + 1).drop_last() == ps@.take(i as int));
        assert(ps@.take(i + 1).last() == ps@[i as int]);
        let ghost before = out@;
        if is_selected(&ps[i], s) {
            out.push(i);
            assert(index_view(out@) =~= index_view(before).push(i as int));
        }
        i = i + 1;
    }
    assert(ps@.take(ps@.len() as int) == ps@);
    out
}

fn part_exec(v: &RustVersion, part: Part) -> (r: Option<u32>)
    ensures
        r == part_of(v@, part),
{
    match part {
        Part::Major => v.mahor(),
        Part::Minor => v.minor(),
        Part::Patch => match v.patch() {
            Some(p) => Some(*p),
            None => None,
        },
    }
}

fn keep_exec(ps: &Vec<Package>, idx: &Vec<usize>, part: Part, want: Option<u32>) -> (r: Vec<usize>)
    requires
        forall|k: int| 0 <= k < idx@.len() ==> (#[trigger] idx@[k]) < ps@.len(),
    ensures
        index_view(r@) == keep_part(ps@, index_view(idx@), part, want),
        forall|k: int| 0 <= k < r@.len() ==> (#[trigger] r@[k]) < ps@.len(),
{
    let mut out: Vec<usize> = Vec::new();
    let mut i: usize = 0;
    while i < idx.len()
        invariant
            i <= idx@.len(),
            forall|k: int| 0 <= k < idx@.len() ==> (#[trigger] idx@[k]) < ps@.len(),
            index_view(out@) == keep_part(ps@, index_view(idx@).take(i as int), part, want),
            forall|k: int| 0 <= k < out@.len() ==> (#[trigger] out@[k]) < ps@.len(),
        decreases idx.len() - i,
    {
        assert(index_view(idx@).take(i + 1).drop_last() == index_view(idx@).take(i as int));
        assert(index_view(idx@).take(i + 1).last() == idx@[i as int] as int);
        let ghost before = out@;
        let j = idx[i];
        if part_exec(&ps[j].version, part) == want {
            out.push(j);
            assert(index_view(out@) =~= index_view(before).push(j as int));
        }
        i = i + 1;
    }
    assert(index_view(idx@).take(idx@.len() as int) == index_view(idx@));
    out
}

fn key_exec(v: &RustVersion, part: Part) -> (r: i64)
    ensures
        r == key_of(v@, part),
{
    match part {
        Part::Patch => match v.patch() {
            Some(p) => *p as i64,
            None => -1,
        },
        _ => match part_exec(v, part) {
            Some(x) => x as i64,
            None => 99999,
        },
    }
}

fn first_min_exec(ps: &Vec<Package>, idx: &Vec<usize>, part: Part) -> (r: Option<usize>)
    requires
        forall|k: int| 0 <= k < idx@.len() ==> (#[trigger] idx@[k]) < ps@.len(),
    ensures
        r matches Some(b) ==> b < ps@.len() && first_min(ps@, index_view(idx@), part) == Some(b as int),
        r is None ==> first_min(ps@, index_view(idx@), part) is None,
{
    let mut best: Option<usize> = None;
    let mut i: usize = 0;
    while i < idx.len()
        invariant
            i <= idx@.len(),
            forall|k: int| 0 <= k < idx@.len() ==> (#[trigger] idx@[k]) < ps@.len(),
            best matches Some(b) ==> b < ps@.len() && first_min(ps@, index_view(idx@).take(i as int), part) == Some(
                b as int,
            ),
            best is None ==> first_min(ps@, index_view(idx@).take(i as int), part) is None,
        decreases idx.len() - i,
    {
        assert(index_view(idx@).take(i + 1).drop_last() == index_view(idx@).take(i as int));
        assert(index_view(idx@).take(i + 1).last() == idx@[i as int] as int);
        let j = idx[i];
        best = match best {
            None => Some(j),
            Some(b) => if key_exec(&ps[j].version, part) < key_exec(&ps[b].version, part) {
                Some(j)
            } else {
                Some(b)
            },
        };
        i = i + 1;
    }
    assert(index_view(idx@).take(idx@.len() as int) == index_view(idx@));
    best
}

fn last_max_exec(ps: &Vec<Package>, idx: &Vec<usize>) -> (r: Option<usize>)
    requires
        forall|k: int| 0 <= k < idx@.len() ==> (#[trigger] idx@[k]) < ps@.len(),
    ensures
        r matches Some(b) ==> b < ps@.len() && last_max(ps@, index_view(idx@)) == Some(b as int),
        r is None ==> last_max(ps@, index_view(idx@)) is None,
{
    let mut best: Option<usize> = None;
    let mut i: usize = 0;
    while i < idx.len()
        invariant
            i <= idx@.len(),
            forall|k: int| 0 <= k < idx@.len() ==> (#[trigger] idx@[k]) < ps@.len(),
            best matches Some(b) ==> b < ps@.len() && last_max(ps@, index_view(idx@).take(i as int)) == Some(b as int),
            best is None ==> last_max(ps@, index_view(idx@).take(i as int)) is None,
        decreases idx.len() - i,
    {
        assert(index_view(idx@).take(i + 1).drop_last() == index_view(idx@).take(i as int));
        assert(index_view(idx@).take(i + 1).last() == idx@[i as int] as int);
        let j = idx[i];
        best = match best {
            None => Some(j),
            Some(b) => if !ps[b].version.gt(&ps[j].version) {
                proof { crate::rust_version::lemma_version_order_antisymmetric(ps@[b as int].version@, ps@[j as int].version@); }
                Some(j)
            } else {
                proof { crate::rust_version::lemma_version_order_antisymmetric(ps@[b as int].version@, ps@[j as int].version@); }
                Some(b)
            },
        };
        i = i + 1;
    }
    assert(index_view(idx@).take(idx@.len() as int) == index_view(idx@));
    best
}

fn first_exec(idx: &Vec<usize>) -> (r: Option<usize>)
    ensures
        r matches Some(b) ==> idx@.len() > 0 && b == idx@[0] && first_of(index_view(idx@)) == Some(b as int),
        r is None ==> first_of(index_view(idx@)) is None,
{
    if idx.len() == 0 {
        None
    } else {
        Some(idx[0])
    }
}

fn pick_kind_exec(ps: &Vec<Package>, s: Sel) -> (r: Option<usize>)
    ensures
        r matches Some(b) ==> b < ps@.len() && pick_of_kind(ps@, s) == Some(b as int),
        r is None ==> pick_of_kind(ps@, s) is None,
{
    let items = indices_exec(ps, s);
    if items.len() > 1 {
        last_max_exec(ps, &items)
    } else {
        first_exec(&items)
    }
}

/// Which locked package of the dependency's name a hint shows (see
/// `hint_choice`), by its index among `ps`.
pub fn hint_for(src: &Source, ps: &Vec<Package>) -> (r: Option<usize>)
    ensures
        r matches Some(b) ==> b < ps@.len() && hint_choice(*src, ps@) == Some(b as int),
        r is None ==> hint_choice(*src, ps@) is None,
        required_version(*src) is Some && two_registry(ps@) ==> ({
            let ver = required_version(*src)->Some_0;
            &&& r matches Some(b) ==> {
                &&& selected(ps@[b as int], Sel::Registry)
                &&& (exists|i: int| agrees(ps@, i, ver, false)) ==> ps@[b as int].version@.major == ver.major
                &&& (exists|i: int, j: int| i != j && agrees(ps@, i, ver, false) && agrees(ps@, j, ver, false))
                    ==> ps@[b as int].version@.minor == ver.minor
            }
            &&& forall|k: int| agrees(ps@, k, ver, true) && (forall|j: int| j != k ==> !agrees(ps@, j, ver, true))
                ==> r == Some(k as usize)
        }),
{
    proof {
        lemma_registry_choice(*src, ps@);
        lemma_kind_choice(*src, ps@);
    }
    if ps.len() <= 1 {
        return if ps.len() == 1 { Some(0) } else { None };
    }
    match src {
        Source::Version { value, .. } => {
            let items = indices_exec(ps, Sel::Registry);
            if items.len() > 1 {
                let ver = match RustVersion::try_from(value.value.data.as_str()) {
                    Ok(v) => v,
                    Err(_) => {
                        return None;
                    },
                };
                let t = keep_exec(ps, &items, Part::Major, ver.mahor());
                if t.len() == 0 {
                    return first_min_exec(ps, &items, Part::Major);
                }
                if t.len() == 1 {
                    return Some(t[0]);
                }
                let m = keep_exec(ps, &t, Part::Minor, ver.minor());
                if m.len() == 0 {
                    return None;
                }
                if m.len() == 1 {
                    return Some(m[0]);
                }
                let q = keep_exec(ps, &m, Part::Patch, part_exec(&ver, Part::Patch));
                if q.len() == 0 {
                    return first_min_exec(ps, &m, Part::Patch);
                }
                if q.len() == 1 {
                    return Some(q[0]);
                }
                None
            } else {
                first_exec(&items)
            }
        },
        Source::Git { .. } => pick_kind_exec(ps, Sel::Git),
        _ => pick_kind_exec(ps, Sel::Other),
    }
}

/// Whether the indices rise strictly.
pub open spec fn increasing(s: Seq<int>) -> bool {
    forall|a: int, b: int| 0 <= a < b < s.len() ==> s[a] < s[b]
}

proof fn lemma_indices_of(ps: Seq<Package>, s: Sel)
    ensures
        increasing(indices_of(ps, s)),
        forall|k: int| 0 <= k < indices_of(ps, s).len() ==> 0 <= #[trigger] indices_of(ps, s)[k] < ps.len(),
        forall|x: int| #[trigger] indices_of(ps, s).contains(x) <==> (0 <= x < ps.len() && selected(ps[x], s)),
    decreases ps.len(),
{
    if ps.len() > 0 {
        let pre = ps.drop_last();
        lemma_indices_of(pre, s);
        let a = indices_of(pre, s);
        let r = indices_of(ps, s);
        assert forall|x: int| 0 <= x < pre.len() implies pre[x] == ps[x] by {}
        if selected(ps.last(), s) {
            assert(r == a.push(ps.len() - 1));
            assert forall|x: int| #[trigger] r.contains(x) <==> (0 <= x < ps.len() && selected(ps[x], s)) by {
                if r.contains(x) {
                    let k = choose|k: int| 0 <= k < r.len() && r[k] == x;
                    if k < a.len() {
                        assert(a.contains(x));
                    }
                }
                if 0 <= x < ps.len() && selected(ps[x], s) {
                    if x < ps.len() - 1 {
                        assert(a.contains(x));
                        let k = choose|k: int| 0 <= k < a.len() && a[k] == x;
                        assert(r[k] == x);
                    } else {
                        assert(r[a.len() as int] == x);
                    }
                }
            }
        } else {
            assert(r == a);
            assert forall|x: int| #[trigger] r.contains(x) <==> (0 <= x < ps.len() && selected(ps[x], s)) by {
                if 0 <= x < ps.len() && selected(ps[x], s) {
                    assert(x != ps.len() - 1);
                    assert(a.contains(x));
                }
            }
        }
    }
}

proof fn lemma_keep_part(ps: Seq<Package>, idx: Seq<int>, part: Part, want: Option<u32>)
    ensures
        forall|x: int| #[trigger] keep_part(ps, idx, part, want).contains(x) <==> (idx.contains(x)
            && part_of(ps[x].version@, part) == want),
        increasing(idx) ==> increasing(keep_part(ps, idx, part, want)),
    decreases idx.len(),
{
    if idx.len() > 0 {
        let pre = idx.drop_last();
        lemma_keep_part(ps, pre, part, want);
        let a = keep_part(ps, pre, part, want);
        let r = keep_part(ps, idx, part, want);
        let l = idx.last();
        assert forall|x: int| #[trigger] idx.contains(x) <==> (pre.contains(x) || x == l) by {
            if idx.contains(x) {
                let k = choose|k: int| 0 <= k < idx.len() && idx[k] == x;
                if k < pre.len() {
                    assert(pre[k] == x);
                }
            }
            if pre.contains(x) {
                let k = choose|k: int| 0 <= k < pre.len() && pre[k] == x;
                assert(idx[k] == x);
            }
            if x == l {
                assert(idx[idx.len() - 1] == x);
            }
        }
        if part_of(ps[l].version@, part) == want {
            assert(r == a.push(l));
            assert forall|x: int| #[trigger] r.contains(x) <==> (a.contains(x) || x == l) by {
                if r.contains(x) {
                    let k = choose|k: int| 0 <= k < r.len() && r[k] == x;
                    if k < a.len() {
                        assert(a[k] == x);
                    }
                }
                if a.contains(x) {
                    let k = choose|k: int| 0 <= k < a.len() && a[k] == x;
                    assert(r[k] == x);
                }
                if x == l {
                    assert(r[a.len() as int] == x);
                }
            }
            if increasing(idx) {
                assert(increasing(pre));
                assert forall|a1: int, b1: int| 0 <= a1 < b1 < r.len() implies r[a1] < r[b1] by {
                    if b1 == a.len() {
                        assert(a.contains(a[a1]));
                        assert(pre.contains(a[a1]));
                        let k = choose|k: int| 0 <= k < pre.len() && pre[k] == a[a1];
                        assert(idx[k] < idx[idx.len() - 1]);
                    }
                }
            }
        } else {
            assert(r == a);
            if increasing(idx) {
                assert(increasing(pre));
            }
        }
    }
}

proof fn lemma_first_min_in(ps: Seq<Package>, idx: Seq<int>, part: Part)
    ensures
        idx.len() > 0 ==> first_min(ps, idx, part) is Some,
        first_min(ps, idx, part) matches Some(i) ==> idx.contains(i),
    decreases idx.len(),
{
    if idx.len() > 0 {
        let pre = idx.drop_last();
        lemma_first_min_in(ps, pre, part);
        assert(idx[idx.len() - 1] == idx.last());
        match first_min(ps, pre, part) {
            Some(j) => {
                let k = choose|k: int| 0 <= k < pre.len() && pre[k] == j;
                assert(idx[k] == j);
            },
            None => {},
        }
    }
}

proof fn lemma_first_min_least(ps: Seq<Package>, idx: Seq<int>, part: Part)
    requires
        increasing(idx),
    ensures
        first_min(ps, idx, part) matches Some(b) ==> (forall|x: int| #[trigger] idx.contains(x) ==> key_of(ps[b].version@, part)
            <= key_of(ps[x].version@, part)) && (forall|x: int| #[trigger] idx.contains(x) && x < b ==> key_of(ps[x].version@, part)
            > key_of(ps[b].version@, part)),
    decreases idx.len(),
{
    if idx.len() > 0 {
        let pre = idx.drop_last();
        let l = idx.last();
        assert(increasing(pre));
        lemma_first_min_least(ps, pre, part);
        lemma_first_min_in(ps, pre, part);
        assert forall|x: int| #[trigger] idx.contains(x) implies pre.contains(x) || x == l by {
            let k = choose|k: int| 0 <= k < idx.len() && idx[k] == x;
            if k < pre.len() {
                assert(pre[k] == x);
            }
        }
        assert forall|x: int| #[trigger] pre.contains(x) implies x < l by {
            let k = choose|k: int| 0 <= k < pre.len() && pre[k] == x;
            assert(idx[k] == x);
            assert(idx[idx.len() - 1] == l);
        }
    }
}

proof fn lemma_last_max_greatest(ps: Seq<Package>, idx: Seq<int>)
    requires
        increasing(idx),
    ensures
        idx.len() > 0 ==> last_max(ps, idx) is Some,
        last_max(ps, idx) matches Some(b) ==> idx.contains(b) && (forall|x: int| #[trigger] idx.contains(x) ==> version_order(
            ps[x].version@,
            ps[b].version@,
        ) <= 0) && (forall|x: int| #[trigger] idx.contains(x) && x > b ==> version_order(ps[x].version@, ps[b].version@) < 0),
    decreases idx.len(),
{
    if idx.len() > 0 {
        let pre = idx.drop_last();
        let l = idx.last();
        assert(increasing(pre));
        lemma_last_max_greatest(ps, pre);
        assert(idx[idx.len() - 1] == l);
        assert forall|x: int| #[trigger] idx.contains(x) implies pre.contains(x) || x == l by {
            let k = choose|k: int| 0 <= k < idx.len() && idx[k] == x;
            if k < pre.len() {
                assert(pre[k] == x);
            }
        }
        assert forall|x: int| #[trigger] pre.contains(x) implies x < l && idx.contains(x) by {
            let k = choose|k: int| 0 <= k < pre.len() && pre[k] == x;
            assert(idx[k] == x);
        }
        match last_max(ps, pre) {
            None => {
                assert(idx.contains(l));
                assert forall|x: int| #[trigger] idx.contains(x) implies x == l by {
                    if pre.contains(x) {
                        assert(pre.len() > 0);
                    }
                }
                crate::rust_version::lemma_version_order_antisymmetric(ps[l].version@, ps[l].version@);
            },
            Some(j) => {
                crate::rust_version::lemma_version_order_antisymmetric(ps[l].version@, ps[j].version@);
                if version_order(ps[l].version@, ps[j].version@) >= 0 {
                    assert(idx.contains(l));
                    assert forall|x: int| #[trigger] idx.contains(x) implies version_order(ps[x].version@, ps[l].version@) <= 0 by {
                        if pre.contains(x) {
                            crate::rust_version::lemma_version_order_transitive(ps[x].version@, ps[j].version@, ps[l].version@);
                        } else {
                            crate::rust_version::lemma_version_order_antisymmetric(ps[l].version@, ps[l].version@);
                        }
                    }
                } else {
                    assert(idx.contains(j));
                }
            },
        }
    }
}

/// The kind of locked package a dependency's source calls for.
pub open spec fn kind_for(src: Source) -> Sel {
    match src {
        Source::Version { .. } => Sel::Registry,
        Source::Git { .. } => Sel::Git,
        _ => Sel::Other,
    }
}

/// The choice among several locked packages of a name, by the kind of the
/// dependency's source: for a git or other source, the greatest version of
/// that kind (the last among equal ones), when there is a package of that
/// kind; for a registry source with a single registry package, that one;
/// for a registry requirement that no registry package shares the major of
/// (when there are two or more), the registry package with the smallest
/// major (a missing major counting as 99999), the first among equal ones.
/// With a single package, that one.
pub proof fn lemma_kind_choice(src: Source, ps: Seq<Package>)
    ensures
        ps.len() == 1 ==> hint_choice(src, ps) == Some(0int),
        ps.len() == 0 ==> hint_choice(src, ps) is None,
        ps.len() > 1 && !(src is Version) ==> {
            let s = kind_for(src);
            &&& (exists|i: int| 0 <= i < ps.len() && selected(ps[i], s)) <==> hint_choice(src, ps) is Some
            &&& hint_choice(src, ps) matches Some(b) ==> {
                &&& 0 <= b < ps.len() && selected(ps[b], s)
                &&& forall|i: int| 0 <= i < ps.len() && selected(ps[i], s) ==> version_order(
                    #[trigger] ps[i].version@,
                    ps[b].version@,
                ) <= 0
                &&& forall|i: int| b < i < ps.len() && selected(ps[i], s) ==> version_order(
                    #[trigger] ps[i].version@,
                    ps[b].version@,
                ) < 0
            }
        },
        ps.len() > 1 && src is Version && !two_registry(ps) ==> {
            &&& (exists|i: int| 0 <= i < ps.len() && selected(ps[i], Sel::Registry)) <==> hint_choice(src, ps) is Some
            &&& hint_choice(src, ps) matches Some(b) ==> 0 <= b < ps.len() && selected(ps[b], Sel::Registry)
        },
        ps.len() > 1 && required_version(src) is Some && two_registry(ps) && (forall|i: int|
            !agrees(ps, i, required_version(src)->Some_0, false)) ==> (hint_choice(src, ps) matches Some(b) && {
            &&& 0 <= b < ps.len() && selected(ps[b], Sel::Registry)
            &&& forall|i: int| 0 <= i < ps.len() && selected(ps[i], Sel::Registry) ==> key_of(ps[b].version@, Part::Major)
                <= key_of(#[trigger] ps[i].version@, Part::Major)
            &&& forall|i: int| 0 <= i < b && selected(ps[i], Sel::Registry) ==> key_of(#[trigger] ps[i].version@, Part::Major)
                > key_of(ps[b].version@, Part::Major)
        }),
{
    if ps.len() > 1 {
        let s = kind_for(src);
        let items = indices_of(ps, s);
        lemma_indices_of(ps, s);
        if items.len() > 0 {
            assert(items.contains(items[0]));
        }
        if items.len() == 1 {
            assert forall|x: int| #[trigger] items.contains(x) implies x == items[0] by {}
        }
        if !(src is Version) {
            lemma_last_max_greatest(ps, items);
            if exists|i: int| 0 <= i < ps.len() && selected(ps[i], s) {
                let i = choose|i: int| 0 <= i < ps.len() && selected(ps[i], s);
                assert(items.contains(i));
            }
            match hint_choice(src, ps) {
                Some(b) => {
                    if items.len() == 1 {
                        crate::rust_version::lemma_version_order_antisymmetric(ps[b].version@, ps[b].version@);
                        assert(items.contains(b));
                    }
                    assert(items.contains(b));
                    assert forall|i: int| 0 <= i < ps.len() && selected(ps[i], s) implies version_order(
                        #[trigger] ps[i].version@,
                        ps[b].version@,
                    ) <= 0 by {
                        assert(items.contains(i));
                    }
                    assert forall|i: int| b < i < ps.len() && selected(ps[i], s) implies version_order(
                        #[trigger] ps[i].version@,
                        ps[b].version@,
                    ) < 0 by {
                        assert(items.contains(i));
                    }
                },
                None => {},
            }
        } else {
            if !two_registry(ps) {
                if items.len() > 1 {
                    assert(items.contains(items[0]) && items.contains(items[1]));
                    assert(items[0] < items[1]);
                    assert(two_registry(ps));
                }
                if exists|i: int| 0 <= i < ps.len() && selected(ps[i], s) {
                    let i = choose|i: int| 0 <= i < ps.len() && selected(ps[i], s);
                    assert(items.contains(i));
                }
            }
            if required_version(src) is Some && two_registry(ps) && (forall|i: int|
                !agrees(ps, i, required_version(src)->Some_0, false)) {
                let ver = required_version(src)->Some_0;
                let (i0, j0) = choose|i: int, j: int| 0 <= i < j < ps.len() && selected(ps[i], Sel::Registry) && selected(ps[j], Sel::Registry);
                assert(items.contains(i0) && items.contains(j0));
                assert(items.len() > 1);
                let t = keep_part(ps, items, Part::Major, ver.major);
                lemma_keep_part(ps, items, Part::Major, ver.major);
                if t.len() > 0 {
                    assert(t.contains(t[0]));
                    assert(agrees(ps, t[0], ver, false));
                }
                lemma_first_min_in(ps, items, Part::Major);
                lemma_first_min_least(ps, items, Part::Major);
                let b = first_min(ps, items, Part::Major)->Some_0;
                assert(items.contains(b));
                assert forall|i: int| 0 <= i < ps.len() && selected(ps[i], Sel::Registry) implies key_of(ps[b].version@, Part::Major)
                    <= key_of(#[trigger] ps[i].version@, Part::Major) by {
                    assert(items.contains(i));
                }
                assert forall|i: int| 0 <= i < b && selected(ps[i], Sel::Registry) implies key_of(#[trigger] ps[i].version@, Part::Major)
                    > key_of(ps[b].version@, Part::Major) by {
                    assert(items.contains(i));
                }
            }
        }
    }
}

/// The version a registry requirement reads as.
pub open spec fn required_version(src: Source) -> Option<VersionView> {
    match src {
        Source::Version { value, .. } => match parse_version(value.value.data@) {
            Ok(v) => Some(v),
            Err(_) => None,
        },
        _ => None,
    }
}

/// Whether two of the packages come from a registry.
pub open spec fn two_registry(ps: Seq<Package>) -> bool {
    exists|i: int, j: int| 0 <= i < j < ps.len() && selected(ps[i], Sel::Registry) && selected(ps[j], Sel::Registry)
}

/// Whether package `i` is a registry package whose version agrees with
/// `ver` on its major part, and on its minor part when `minor`.
pub open spec fn agrees(ps: Seq<Package>, i: int, ver: VersionView, minor: bool) -> bool {
    &&& 0 <= i < ps.len()
    &&& selected(ps[i], Sel::Registry)
    &&& ps[i].version@.major == ver.major
    &&& (minor ==> ps[i].version@.minor == ver.minor)
}

/// How a registry requirement picks among several registry packages of its
/// name: the chosen package is a registry one; it shares the requirement's
/// major when any does; its minor when two share the major; its patch when
/// two share the major and minor and one shares all three; and when exactly
/// one registry package shares the major and minor, that one is chosen.
pub proof fn lemma_registry_choice(src: Source, ps: Seq<Package>)
    ensures
        required_version(src) is Some && two_registry(ps) ==> ({
            let ver = required_version(src)->Some_0;
            &&& hint_choice(src, ps) matches Some(b) ==> {
                &&& selected(ps[b], Sel::Registry)
                &&& (exists|i: int| agrees(ps, i, ver, false)) ==> ps[b].version@.major == ver.major
                &&& (exists|i: int, j: int| i != j && agrees(ps, i, ver, false) && agrees(ps, j, ver, false))
                    ==> ps[b].version@.minor == ver.minor
                &&& (exists|i: int, j: int| i != j && agrees(ps, i, ver, true) && agrees(ps, j, ver, true))
                    && (exists|i: int| agrees(ps, i, ver, true) && ps[i].version@.patch == ver.patch)
                    ==> ps[b].version@.patch == ver.patch
            }
            &&& forall|k: int| agrees(ps, k, ver, true) && (forall|j: int| j != k ==> !agrees(ps, j, ver, true))
                ==> hint_choice(src, ps) == Some(k)
        }),
{
    if required_version(src) is Some && two_registry(ps) {
        let ver = required_version(src)->Some_0;
        let items = indices_of(ps, Sel::Registry);
        lemma_indices_of(ps, Sel::Registry);
        let (i0, j0) = choose|i: int, j: int| 0 <= i < j < ps.len() && selected(ps[i], Sel::Registry) && selected(ps[j], Sel::Registry);
        assert(items.contains(i0) && items.contains(j0));
        assert(items.len() > 1);
        assert(hint_choice(src, ps) == pick_registry(ps, items, ver));
        let t = keep_part(ps, items, Part::Major, ver.major);
        let m = keep_part(ps, t, Part::Minor, ver.minor);
        let q = keep_part(ps, m, Part::Patch, ver.patch);
        lemma_keep_part(ps, items, Part::Major, ver.major);
        lemma_keep_part(ps, t, Part::Minor, ver.minor);
        lemma_keep_part(ps, m, Part::Patch, ver.patch);
        lemma_first_min_in(ps, items, Part::Major);
        lemma_first_min_in(ps, m, Part::Patch);
        assert forall|i: int| agrees(ps, i, ver, false) implies #[trigger] t.contains(i) by {
            assert(items.contains(i));
        }
        assert forall|i: int| agrees(ps, i, ver, true) implies #[trigger] m.contains(i) by {
            assert(t.contains(i));
        }
        assert forall|x: int| #[trigger] t.contains(x) implies agrees(ps, x, ver, false) by {}
        assert forall|x: int| #[trigger] m.contains(x) implies agrees(ps, x, ver, true) by {
            assert(t.contains(x));
        }
        if t.len() > 0 {
            assert(t.contains(t[0]));
        }
        if t.len() == 1 {
            assert(t.contains(t[0]));
        }
        if m.len() > 0 {
            assert(m.contains(m[0]));
        }
        if q.len() > 0 {
            assert(q.contains(q[0]));
            assert(m.contains(q[0]));
        }
        match hint_choice(src, ps) {
            Some(b) => {
                assert(items.contains(b));
                if exists|i: int| agrees(ps, i, ver, false) {
                    let i = choose|i: int| agrees(ps, i, ver, false);
                    assert(t.contains(i));
                    assert(t.contains(b));
                }
                if exists|i: int, j: int| i != j && agrees(ps, i, ver, false) && agrees(ps, j, ver, false) {
                    let (i, j) = choose|i: int, j: int| i != j && agrees(ps, i, ver, false) && agrees(ps, j, ver, false);
                    assert(t.contains(i) && t.contains(j));
                    assert(t.len() > 1);
                    assert(m.contains(b));
                }
                if (exists|i: int, j: int| i != j && agrees(ps, i, ver, true) && agrees(ps, j, ver, true))
                    && (exists|i: int| agrees(ps, i, ver, true) && ps[i].version@.patch == ver.patch) {
                    let (i, j) = choose|i: int, j: int| i != j && agrees(ps, i, ver, true) && agrees(ps, j, ver, true);
                    let c = choose|i: int| agrees(ps, i, ver, true) && ps[i].version@.patch == ver.patch;
                    assert(t.contains(i) && t.contains(j));
                    assert(t.len() > 1);
                    assert(m.contains(i) && m.contains(j));
                    assert(m.len() > 1);
                    assert(m.contains(c));
                    assert(q.contains(c));
                    assert(q.contains(b));
                }
            },
            None => {},
        }
        assert forall|k: int| agrees(ps, k, ver, true) && (forall|j: int| j != k ==> !agrees(ps, j, ver, true))
            implies hint_choice(src, ps) == Some(k) by {
            assert(t.contains(k));
            assert(m.contains(k));
            if t.len() == 1 {
                assert(t[0] == k);
            } else {
                assert(increasing(t));
                assert(increasing(m));
                assert forall|x: int| #[trigger] m.contains(x) implies x == k by {
                    assert(agrees(ps, x, ver, true));
                }
                if m.len() > 1 {
                    assert(m.contains(m[0]) && m.contains(m[1]));
                    assert(m[0] < m[1]);
                }
                assert(m[0] == k);
            }
        }
    }
}

/// Every git package has a revision whose first seven bytes end on a
/// character boundary, as its label needs.
pub open spec fn labels_ok(groups: Seq<(String, Vec<Package>)>) -> bool {
    forall|g: int, k: int|
        0 <= g < groups.len() && 0 <= k < groups[g].1@.len() ==> ((#[trigger] groups[g].1@[k]).source matches Some(
            LockSource::Git { rev, .. },
        ) ==> chars_in_bytes(rev@, 7) is Some)
}

/// The first group with the given name.
pub open spec fn group_named(groups: Seq<(String, Vec<Package>)>, name: Seq<char>) -> Option<int>
    decreases groups.len(),
{
    if groups.len() == 0 {
        None
    } else if groups[0].0@ == name {
        Some(0)
    } else {
        match group_named(groups.drop_first(), name) {
            Some(i) => Some(i + 1),
            None => None,
        }
    }
}

fn find_group(groups: &Vec<(String, Vec<Package>)>, name: &str) -> (r: Option<usize>)
    ensures
        r matches Some(i) ==> i < groups@.len() && group_named(groups@, name@) == Some(i as int),
        r is None ==> group_named(groups@, name@) is None,
{
    let mut i: usize = 0;
    assert(groups@.skip(0) == groups@);
    while i < groups.len()
        invariant
            i <= groups@.len(),
            group_named(groups@, name@) == match group_named(groups@.skip(i as int), name@) {
                Some(j) => Some(j + i),
                None => None::<int>,
            },
        decreases groups.len() - i,
    {
        assert(groups@.skip(i as int).drop_first() == groups@.skip(i + 1));
        if same_text(groups[i].0.as_str(), name) {
            return Some(i);
        }
        i = i + 1;
    }
    None
}

/// A hint: where it goes, and what it says.
pub struct Hint {
    pub offset: u32,
    pub label: String,
}

/// The hints of a manifest: for each dependency whose name has locked
/// packages, at its end, the label of the package that `hint_choice` picks.
pub open spec fn hints_of(deps: Seq<Positioned<Dependency>>, groups: Seq<(String, Vec<Package>)>) -> Seq<(u32, Option<(int, int)>)>
    decreases deps.len(),
{
    if deps.len() == 0 {
        seq![]
    } else {
        let d = deps.last();
        let rest = hints_of(deps.drop_last(), groups);
        match group_named(groups, d.data.name.data@) {
            Some(g) => match hint_choice(d.data.source, groups[g].1@) {
                Some(k) => rest.push((d.end, Some((g, k)))),
                None => rest,
            },
            None => rest,
        }
    }
}

/// The hints of a manifest (see `hints_of`): each gives the offset and the
/// label of the chosen package.
pub fn inlay_hints(deps: &Vec<Positioned<Dependency>>, groups: &Vec<(String, Vec<Package>)>) -> (r: Vec<Hint>)
    requires
        labels_ok(groups@),
    ensures
        r@.len() == hints_of(deps@, groups@).len(),
        forall|i: int| 0 <= i < r@.len() ==> {
            let h = #[trigger] hints_of(deps@, groups@)[i];
            &&& r@[i].offset == h.0
            &&& h.1 matches Some((g, k)) && 0 <= g < groups@.len() && 0 <= k < groups@[g].1@.len()
                && r@[i].label@ == package_label(groups@[g].1@[k])
        },
{
    let mut out: Vec<Hint> = Vec::new();
    let mut i: usize = 0;
    while i < deps.len()
        invariant
            i <= deps@.len(),
            labels_ok(groups@),
            out@.len() == hints_of(deps@.take(i as int), groups@).len(),
            forall|j: int| 0 <= j < out@.len() ==> {
                let h = #[trigger] hints_of(deps@.take(i as int), groups@)[j];
                &&& out@[j].offset == h.0
                &&& h.1 matches Some((g, k)) && 0 <= g < groups@.len() && 0 <= k < groups@[g].1@.len()
                    && out@[j].label@ == package_label(groups@[g].1@[k])
            },
        decreases deps.len() - i,
    {
        assert(deps@.take(i + 1).drop_last() == deps@.take(i as int));
        assert(deps@.take(i + 1).last() == deps@[i as int]);
        let d = &deps[i];
        let ghost before = hints_of(deps@.take(i as int), groups@);
        let ghost after = hints_of(deps@.take(i + 1), groups@);
        let mut pushed = false;
        if let Some(g) = find_group(groups, d.data.name.data.as_str()) {
            if let Some(k) = hint_for(&d.data.source, &groups[g].1) {
                assert(labels_ok(groups@));
                assert(0 <= g < groups@.len() && 0 <= k < groups@[g as int].1@.len());
                let label = groups[g].1[k].label();
                out.push(Hint { offset: d.end, label });
                assert(after == before.push((d.end, Some((g as int, k as int)))));
                pushed = true;
            }
        }
        if !pushed {
            assert(after == before);
        }
        i = i + 1;
    }
    assert(deps@.take(deps@.len() as int) == deps@);
    out
}

/// The label of a locked package (see `Package::label`).
pub open spec fn package_label(p: Package) -> Seq<char> {
    match p.source {
        Some(LockSource::Git { rev, .. }) => crate::rust_version::version_text(p.version@) + " #"@ + rev@.take(
            chars_in_bytes(rev@, 7)->Some_0 as int,
        ),
        _ => crate::rust_version::version_text(p.version@),
    }
}

/// A lock file: its packages and its text.
pub struct Lock {
    pub raw_data: CargoLockRaw,
    pub raw_content: String,
}

impl Lock {
    /// The text of the lock file.
    pub fn text(&self) -> (r: &str)
        ensures
            r@ == self.raw_content@,
    {
        self.raw_content.as_str()
    }

    /// The text of the lock file, to be changed in place.
    pub fn text_mut(&mut self) -> (r: &mut String)
        ensures
            *r == old(self).raw_content,
            final(self).raw_content == *final(r),
            final(self).raw_data == old(self).raw_data,
    {
        &mut self.raw_content
    }

    /// The packages, grouped by name (see `CargoLockRaw::packages`).
    pub fn packages(&self) -> (r: Vec<(String, Vec<Package>)>)
        requires
            forall|i: int| 0 <= i < self.raw_data.package@.len() ==> parse_version(
                (#[trigger] self.raw_data.package@[i]).version@,
            ) is Ok,
        ensures
            group_views(r@) == grouped(self.raw_data.package@),
    {
        self.raw_data.packages()
    }
}

} // verus!
