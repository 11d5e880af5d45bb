//! Three-way comparison helpers and the facts about them that the version
//! orders rest on.
use std::cmp::Ordering;
use vstd::prelude::*;

verus! {

/// `-1`, `0` or `1` for less, equal and greater.
pub open spec fn ordering_sign(o: Ordering) -> int {
    match o {
        Ordering::Less => -1,
        Ordering::Equal => 0,
        Ordering::Greater => 1,
    }
}

/// Compares two numbers: `-1`, `0` or `1`.
pub open spec fn u64_order(a: u64, b: u64) -> int {
    if a < b {
        -1
    } else if a == b {
        0
    } else {
        1
    }
}

/// Lexicographic order of two character sequences, by code point; a proper
/// prefix is smaller. This is the order of `str` in std, since UTF-8 keeps
/// code point order.
pub open spec fn char_seq_order(a: Seq<char>, b: Seq<char>) -> int
    decreases a.len(),
{
    if a.len() == 0 && b.len() == 0 {
        0
    } else if a.len() == 0 {
        -1
    } else if b.len() == 0 {
        1
    } else if a[0] < b[0] {
        -1
    } else if a[0] > b[0] {
        1
    } else {
        char_seq_order(a.drop_first(), b.drop_first())
    }
}

/// The order of character sequences flips when the arguments swap, gives
/// `-1`, `0` or `1`, and ties only equal sequences.
pub proof fn lemma_char_seq_order_basics(a: Seq<char>, b: Seq<char>)
    ensures
        char_seq_order(a, b) == -char_seq_order(b, a),
        -1 <= char_seq_order(a, b) <= 1,
        char_seq_order(a, b) == 0 <==> a == b,
    decreases a.len(),
{
    lemma_char_seq_order_refl(a);
    if a.len() > 0 && b.len() > 0 && a[0] == b[0] {
        lemma_char_seq_order_basics(a.drop_first(), b.drop_first());
        if a.drop_first() == b.drop_first() {
            assert(a =~= seq![a[0]] + a.drop_first());
            assert(b =~= seq![b[0]] + b.drop_first());
        }
    }
    if a.len() == 0 && b.len() == 0 {
        assert(a =~= b);
    }
}

/// A character sequence compares as equal to itself.
pub proof fn lemma_char_seq_order_refl(a: Seq<char>)
    ensures
        char_seq_order(a, a) == 0,
    decreases a.len(),
{
    if a.len() > 0 {
        lemma_char_seq_order_refl(a.drop_first());
    }
}

/// The order of character sequences is transitive, strictly so when either
/// step is strict.
pub proof fn lemma_char_seq_order_trans(a: Seq<char>, b: Seq<char>, c: Seq<char>)
    requires
        char_seq_order(a, b) <= 0,
        char_seq_order(b, c) <= 0,
    ensures
        char_seq_order(a, c) <= 0,
        char_seq_order(a, b) < 0 || char_seq_order(b, c) < 0 ==> char_seq_order(a, c) < 0,
    decreases a.len(),
{
    if a.len() > 0 && b.len() > 0 && c.len() > 0 && a[0] == b[0] && b[0] == c[0] {
        lemma_char_seq_order_trans(a.drop_first(), b.drop_first(), c.drop_first());
    }
}

/// Compares two character sequences in the order of `char_seq_order`.
pub fn compare_chars(a: &Vec<char>, b: &Vec<char>) -> (r: Ordering)
    ensures
        ordering_sign(r) == char_seq_order(a@, b@),
{
    let s = crate::text::lex_sign(a, b);
    proof { lemma_char_seq_order_basics(a@, b@); }
    if s < 0 {
        Ordering::Less
    } else if s == 0 {
        Ordering::Equal
    } else {
        Ordering::Greater
    }
}

/// Compares two `u64` values.
pub fn compare_u64(a: u64, b: u64) -> (r: Ordering)
    ensures
        ordering_sign(r) == u64_order(a, b),
{
    if a < b {
        Ordering::Less
    } else if a == b {
        Ordering::Equal
    } else {
        Ordering::Greater
    }
}


} // verus!
