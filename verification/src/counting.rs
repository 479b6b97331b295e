//! Counting `true` entries of a boolean sequence, and the small arithmetic
//! facts about that count that the game engine needs.

use vstd::prelude::*;

verus! {

/// Number of `true` entries in a sequence of booleans.
pub open spec fn count_true(s: Seq<bool>) -> int
    decreases s.len(),
{
    if s.len() <= 0 {
        0
    } else {
        count_true(s.drop_last()) + if s.last() {
            1int
        } else {
            0int
        }
    }
}

/// The count lies between zero and the length of the sequence.
pub proof fn lemma_count_true_bounds(s: Seq<bool>)
    ensures
        0 <= count_true(s) <= s.len(),
    decreases s.len(),
{
    if s.len() > 0 {
        lemma_count_true_bounds(s.drop_last());
    }
}

/// A sequence without `true` entries counts zero.
pub proof fn lemma_count_true_all_false(s: Seq<bool>)
    requires
        forall|i: int| 0 <= i < s.len() ==> !s[i],
    ensures
        count_true(s) == 0,
    decreases s.len(),
{
    if s.len() > 0 {
        lemma_count_true_all_false(s.drop_last());
    }
}

/// Writing one entry changes the count by the difference of the two entries.
pub proof fn lemma_count_true_update(s: Seq<bool>, i: int, b: bool)
    requires
        0 <= i < s.len(),
    ensures
        count_true(s.update(i, b)) == count_true(s) - (if s[i] {
            1int
        } else {
            0int
        }) + (if b {
            1int
        } else {
            0int
        }),
    decreases s.len(),
{
    let t = s.update(i, b);
    if i == s.len() - 1 {
        assert(t.drop_last() =~= s.drop_last());
    } else {
        assert(t.drop_last() =~= s.drop_last().update(i, b));
        lemma_count_true_update(s.drop_last(), i, b);
    }
}

/// The count is monotone under pointwise implication.
pub proof fn lemma_count_true_le(a: Seq<bool>, b: Seq<bool>)
    requires
        a.len() == b.len(),
        forall|i: int| 0 <= i < a.len() && a[i] ==> b[i],
    ensures
        count_true(a) <= count_true(b),
    decreases a.len(),
{
    if a.len() > 0 {
        lemma_count_true_le(a.drop_last(), b.drop_last());
    }
}

/// Under pointwise implication, one extra `true` entry makes the count
/// strictly larger.
pub proof fn lemma_count_true_lt(a: Seq<bool>, b: Seq<bool>, k: int)
    requires
        a.len() == b.len(),
        forall|i: int| 0 <= i < a.len() && a[i] ==> b[i],
        0 <= k < a.len(),
        !a[k],
        b[k],
    ensures
        count_true(a) < count_true(b),
    decreases a.len(),
{
    if k == a.len() - 1 {
        lemma_count_true_le(a.drop_last(), b.drop_last());
    } else {
        lemma_count_true_lt(a.drop_last(), b.drop_last(), k);
    }
}

/// For sequences that are never `true` at the same index, the counts add up
/// to at most the length, with equality exactly when every index is `true`
/// in one of the two.
pub proof fn lemma_count_true_disjoint(a: Seq<bool>, b: Seq<bool>)
    requires
        a.len() == b.len(),
        forall|i: int| 0 <= i < a.len() ==> !(a[i] && b[i]),
    ensures
        count_true(a) + count_true(b) <= a.len(),
        (count_true(a) + count_true(b) == a.len()) <==> (forall|i: int|
            0 <= i < a.len() ==> a[i] || b[i]),
    decreases a.len(),
{
    if a.len() > 0 {
        lemma_count_true_disjoint(a.drop_last(), b.drop_last());
        let n = a.len() - 1;
        if count_true(a) + count_true(b) == a.len() {
            assert forall|i: int| 0 <= i < a.len() implies a[i] || b[i] by {
                if i < n {
                    assert(a.drop_last()[i] == a[i] && b.drop_last()[i] == b[i]);
                }
            }
        }
        if forall|i: int| 0 <= i < a.len() ==> a[i] || b[i] {
            assert(forall|i: int|
                0 <= i < n ==> a.drop_last()[i] || b.drop_last()[i]);
            assert(a[n] || b[n]);
        }
    }
}

} // verus!
