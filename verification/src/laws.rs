//! Laws that relate whole runs of the sort: a sorted rearrangement of a
//! sequence is unique, so sorting is idempotent and the two entry points
//! always agree on the order they leave behind.

use vstd::prelude::*;

verus! {

use crate::sort::is_sorted;

/// A multiset of values has exactly one non-decreasing arrangement: two
/// sorted sequences holding the same multiset are equal position by
/// position.
pub proof fn lemma_sorted_permutation_unique(a: Seq<i64>, b: Seq<i64>)
    requires
        is_sorted(a),
        is_sorted(b),
        a.to_multiset() == b.to_multiset(),
    ensures
        a == b,
{
    let leq = |x: i64, y: i64| x <= y;
    assert(vstd::relations::total_ordering(leq));
    assert(vstd::relations::sorted_by(a, leq));
    assert(vstd::relations::sorted_by(b, leq));
    vstd::seq_lib::lemma_sorted_unique(a, b, leq);
    assert(a =~= b);
}

/// Sorting is idempotent: a run of the sort on an already-sorted sequence
/// leaves it exactly as it was, and therefore sorting twice in a row gives
/// the same result as sorting once. `before` is a sorted sequence handed to
/// the sort, `after` is what the sort's contract says comes out: sorted, and
/// the same multiset.
pub proof fn lemma_sort_idempotent(before: Seq<i64>, after: Seq<i64>)
    requires
        is_sorted(before),
        is_sorted(after),
        after.to_multiset() == before.to_multiset(),
    ensures
        after == before,
{
    lemma_sorted_permutation_unique(after, before);
}

/// A run of the sort on a sequence of length 0 or 1 is a no-op: such a
/// sequence is already sorted, so whatever meets the sort's contract comes
/// out exactly as it went in.
pub proof fn lemma_short_input_noop(before: Seq<i64>, after: Seq<i64>)
    requires
        before.len() <= 1,
        is_sorted(after),
        after.to_multiset() == before.to_multiset(),
    ensures
        after == before,
{
    lemma_sorted_permutation_unique(after, before);
}

/// The two entry points agree: applied to logically identical input
/// sequences, any two runs meeting the sort's contract — sorted output,
/// same multiset as the input — leave identical orderings.
pub proof fn lemma_variants_agree(input: Seq<i64>, a: Seq<i64>, b: Seq<i64>)
    requires
        is_sorted(a),
        a.to_multiset() == input.to_multiset(),
        is_sorted(b),
        b.to_multiset() == input.to_multiset(),
    ensures
        a == b,
{
    lemma_sorted_permutation_unique(a, b);
}

} // verus!
