//! Lists of texts kept in ascending order without repeats, as an ordered
//! set of strings keeps them.
use vstd::prelude::*;
use crate::order::{char_seq_order, lemma_char_seq_order_basics, lemma_char_seq_order_trans};
use crate::text::{lex_sign, views_of};

verus! {

/// Each sequence is smaller than every later one.
pub open spec fn strictly_sorted(s: Seq<Seq<char>>) -> bool {
    forall|i: int, j: int| 0 <= i < j < s.len() ==> char_seq_order(#[trigger] s[i], #[trigger] s[j]) < 0
}

/// Where `item` belongs in a strictly sorted list, and whether it is there.
fn sorted_position(list: &Vec<Vec<char>>, item: &Vec<char>) -> (r: (usize, bool))
    requires
        strictly_sorted(views_of(list@)),
    ensures
        r.0 <= list@.len(),
        forall|k: int| 0 <= k < r.0 ==> char_seq_order(#[trigger] list@[k]@, item@) < 0,
        r.1 ==> r.0 < list@.len() && list@[r.0 as int]@ == item@,
        !r.1 ==> forall|k: int| r.0 <= k < list@.len() ==> char_seq_order(item@, #[trigger] list@[k]@) < 0,
{
    let mut j: usize = 0;
    while j < list.len()
        invariant
            j <= list@.len(),
            strictly_sorted(views_of(list@)),
            forall|k: int| 0 <= k < j ==> char_seq_order(#[trigger] list@[k]@, item@) < 0,
        decreases list.len() - j,
    {
        let o = lex_sign(&list[j], item);
        proof { lemma_char_seq_order_basics(list@[j as int]@, item@); }
        if o < 0 {
            j = j + 1;
        } else if o == 0 {
            return (j, true);
        } else {
            {
                assert forall|k: int| j <= k < list@.len() implies char_seq_order(item@, #[trigger] list@[k]@) < 0 by {
                    if k > j {
                        assert(views_of(list@)[j as int] == list@[j as int]@);
                        assert(views_of(list@)[k] == list@[k]@);
                        lemma_char_seq_order_trans(item@, list@[j as int]@, list@[k]@);
                    }
                }
                return (j, false);
            }
        }
    }
    (j, false)
}

/// Puts `item` in its place in a strictly sorted list, unless it is there
/// already.
pub fn insert_sorted(list: &mut Vec<Vec<char>>, item: Vec<char>)
    requires
        strictly_sorted(views_of(old(list)@)),
    ensures
        strictly_sorted(views_of(final(list)@)),
        views_of(final(list)@).to_set() == views_of(old(list)@).to_set().insert(item@),
{
    let (j, found) = sorted_position(list, &item);
    let ghost before = views_of(list@);
    if found {
        assert(before[j as int] == item@);
        assert(before.to_set().insert(item@) =~= before.to_set());
        return;
    }
    let ghost iv = item@;
    list.insert(j, item);
    let ghost after = views_of(list@);
    assert(after =~= before.insert(j as int, iv));
    assert forall|a: int, b: int| 0 <= a < b < after.len() implies char_seq_order(#[trigger] after[a], #[trigger] after[b]) < 0 by {
        if b < j {
            assert(after[a] == before[a] && after[b] == before[b]);
        } else if b == j {
            assert(after[a] == before[a]);
            assert(before[a] == old(list)@[a]@);
        } else if a < j {
            assert(after[a] == before[a] && after[b] == before[b - 1]);
            assert(before[a] == old(list)@[a]@);
            assert(before[b - 1] == old(list)@[b - 1]@);
            lemma_char_seq_order_trans(before[a], iv, before[b - 1]);
        } else if a == j {
            assert(after[b] == before[b - 1]);
            assert(before[b - 1] == old(list)@[b - 1]@);
        } else {
            assert(after[a] == before[a - 1] && after[b] == before[b - 1]);
        }
    }
    assert forall|x: Seq<char>| after.to_set().contains(x) == before.to_set().insert(iv).contains(x) by {
        if after.to_set().contains(x) {
            let k = choose|k: int| 0 <= k < after.len() && after[k] == x;
            if k < j {
                assert(before[k] == x);
            } else if k > j {
                assert(before[k - 1] == x);
            }
        }
        if before.to_set().contains(x) {
            let k = choose|k: int| 0 <= k < before.len() && before[k] == x;
            if k < j {
                assert(after[k] == x);
            } else {
                assert(after[k + 1] == x);
            }
        }
        if x == iv {
            assert(after[j as int] == x);
        }
    }
    assert(after.to_set() =~= before.to_set().insert(iv));
}


} // verus!
