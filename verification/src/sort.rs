//! The sorting algorithm: pivot selection, in-place partition, and the
//! recursive driver, together with the spec functions its contracts use.

use vstd::prelude::*;

verus! {

use vstd::pervasive::VecAdditionalExecFns;

/// Every pair of positions drawn from `[lo, hi)` is in non-decreasing order.
pub open spec fn sorted_range(s: Seq<i64>, lo: int, hi: int) -> bool {
    forall|i: int, j: int| lo <= i <= j < hi ==> s[i] <= s[j]
}

/// The whole sequence is in non-decreasing order.
pub open spec fn is_sorted(s: Seq<i64>) -> bool {
    sorted_range(s, 0, s.len() as int)
}

/// The pivot index chosen among `lo`, the midpoint, and `hi` (all
/// inclusive), by pairwise comparisons in a fixed order: the midpoint when
/// its value lies between the end values inclusive of equality, else the
/// left end when its value lies between the midpoint's and the right end's,
/// else the right end. This heuristic steers the pivot towards the median of
/// the three candidates, guarding against the quadratic worst case on
/// already-sorted input, and its fixed tie order keeps the sort
/// deterministic on inputs with many equal elements.
pub open spec fn median_of_three_index(s: Seq<i64>, lo: int, hi: int) -> int
    recommends
        0 <= lo <= hi < s.len(),
{
    let mid = lo + (hi - lo) / 2;
    if s[lo] <= s[mid] && s[mid] <= s[hi] {
        mid
    } else if s[mid] <= s[lo] && s[lo] <= s[hi] {
        lo
    } else {
        hi
    }
}

/// Median-of-three pivot selection over the inclusive range `[lo, hi]`.
/// Reads three elements, mutates nothing.
fn median_of_three(xs: &Vec<i64>, lo: usize, hi: usize) -> (m: usize)
    requires
        lo <= hi < xs.len(),
    ensures
        lo <= m <= hi,
        m == median_of_three_index(xs@, lo as int, hi as int),
{
    let mid = lo + (hi - lo) / 2;
    if xs[lo] <= xs[mid] && xs[mid] <= xs[hi] {
        mid
    } else if xs[mid] <= xs[lo] && xs[lo] <= xs[hi] {
        lo
    } else {
        hi
    }
}

/// The sequence `s` with the values at `a` and `b` exchanged.
pub open spec fn swapped(s: Seq<i64>, a: int, b: int) -> Seq<i64>
    recommends
        0 <= a < s.len(),
        0 <= b < s.len(),
{
    s.update(a, s[b]).update(b, s[a])
}

/// Exchanging two positions leaves the sequence's multiset of values
/// unchanged.
proof fn lemma_swap_multiset(s: Seq<i64>, a: int, b: int)
    requires
        0 <= a < s.len(),
        0 <= b < s.len(),
    ensures
        swapped(s, a, b).to_multiset() == s.to_multiset(),
{
    broadcast use vstd::seq_lib::to_multiset_update;
    broadcast use vstd::seq_lib::to_multiset_contains;
    broadcast use vstd::multiset::group_multiset_axioms;
    broadcast use vstd::multiset::group_multiset_properties;

    if a == b {
        assert(swapped(s, a, b) =~= s);
    } else {
        let s1 = s.update(a, s[b]);
        assert(s1.to_multiset() == s.to_multiset().insert(s[b]).remove(s[a]));
        assert(s1[b] == s[b]);
        assert(swapped(s, a, b).to_multiset() == s1.to_multiset().insert(s[a]).remove(s[b]));
        assert(s.contains(s[a]));
        assert(s.to_multiset().count(s[a]) > 0);
        assert(s.to_multiset().insert(s[b]).remove(s[a]).insert(s[a]).remove(s[b])
            =~= s.to_multiset());
    }
}

/// A swap of two positions inside `[lo, hi)` leaves the multiset of that
/// subrange unchanged.
proof fn lemma_swap_subrange_multiset(s: Seq<i64>, lo: int, hi: int, a: int, b: int)
    requires
        0 <= lo <= a < hi <= s.len(),
        lo <= b < hi,
    ensures
        swapped(s, a, b).subrange(lo, hi).to_multiset() == s.subrange(lo, hi).to_multiset(),
{
    assert(swapped(s, a, b).subrange(lo, hi) =~= swapped(s.subrange(lo, hi), a - lo, b - lo));
    lemma_swap_multiset(s.subrange(lo, hi), a - lo, b - lo);
}

/// Two sequences that agree pointwise outside `[a, b)` and whose `[a, b)`
/// subranges hold the same multiset hold the same multiset over any
/// enclosing range `[lo, hi)`.
proof fn lemma_patch_subrange_multiset(s: Seq<i64>, t: Seq<i64>, lo: int, a: int, b: int, hi: int)
    requires
        s.len() == t.len(),
        0 <= lo <= a <= b <= hi <= s.len(),
        forall|k: int| lo <= k < a ==> s[k] == t[k],
        forall|k: int| b <= k < hi ==> s[k] == t[k],
        s.subrange(a, b).to_multiset() == t.subrange(a, b).to_multiset(),
    ensures
        s.subrange(lo, hi).to_multiset() == t.subrange(lo, hi).to_multiset(),
{
    broadcast use vstd::seq_lib::lemma_multiset_commutative;

    assert(s.subrange(lo, hi) =~= s.subrange(lo, a) + s.subrange(a, b) + s.subrange(b, hi));
    assert(t.subrange(lo, hi) =~= t.subrange(lo, a) + t.subrange(a, b) + t.subrange(b, hi));
    assert(s.subrange(lo, a) =~= t.subrange(lo, a));
    assert(s.subrange(b, hi) =~= t.subrange(b, hi));
}

/// An upper bound on every value of a sequence carries over to any
/// rearrangement of it.
proof fn lemma_perm_le(s: Seq<i64>, t: Seq<i64>, v: i64)
    requires
        s.to_multiset() == t.to_multiset(),
        forall|k: int| 0 <= k < s.len() ==> s[k] <= v,
    ensures
        forall|k: int| 0 <= k < t.len() ==> t[k] <= v,
{
    broadcast use vstd::seq_lib::to_multiset_contains;

    assert forall|k: int| 0 <= k < t.len() implies t[k] <= v by {
        assert(t.contains(t[k]));
        assert(s.to_multiset().count(t[k]) > 0);
        assert(s.contains(t[k]));
        let j = choose|j: int| 0 <= j < s.len() && s[j] == t[k];
        assert(s[j] <= v);
    };
}

/// A strict lower bound on every value of a sequence carries over to any
/// rearrangement of it.
proof fn lemma_perm_gt(s: Seq<i64>, t: Seq<i64>, v: i64)
    requires
        s.to_multiset() == t.to_multiset(),
        forall|k: int| 0 <= k < s.len() ==> s[k] > v,
    ensures
        forall|k: int| 0 <= k < t.len() ==> t[k] > v,
{
    broadcast use vstd::seq_lib::to_multiset_contains;

    assert forall|k: int| 0 <= k < t.len() implies t[k] > v by {
        assert(t.contains(t[k]));
        assert(s.to_multiset().count(t[k]) > 0);
        assert(s.contains(t[k]));
        let j = choose|j: int| 0 <= j < s.len() && s[j] == t[k];
        assert(s[j] > v);
    };
}

/// Exchanges the elements at positions `a` and `b`.
fn swap_in(xs: &mut Vec<i64>, a: usize, b: usize)
    requires
        a < old(xs).len(),
        b < old(xs).len(),
    ensures
        final(xs)@ == swapped(old(xs)@, a as int, b as int),
        final(xs).len() == old(xs).len(),
{
    let va = xs[a];
    let vb = xs[b];
    xs.set(a, vb);
    xs.set(b, va);
}

/// Lomuto partition of the half-open range `[lo, hi)` around the element at
/// `piv`. A single left-to-right sweep: the pivot value is parked at the
/// range's last position, every element no greater than it is swapped down
/// onto a rising write cursor, and a final swap drops the pivot value at the
/// cursor, its final sorted position `p`.
fn partition(xs: &mut Vec<i64>, lo: usize, hi: usize, piv: usize) -> (p: usize)
    requires
        lo <= piv < hi <= old(xs).len(),
    ensures
        final(xs).len() == old(xs).len(),
        lo <= p < hi,
        forall|k: int|
            0 <= k < old(xs).len() && !(lo <= k < hi) ==> final(xs)@[k] == old(xs)@[k],
        final(xs)@.subrange(lo as int, hi as int).to_multiset() == old(xs)@.subrange(
            lo as int,
            hi as int,
        ).to_multiset(),
        forall|k: int| lo <= k < p ==> final(xs)@[k] <= final(xs)@[p as int],
        forall|k: int| p < k < hi ==> final(xs)@[k] > final(xs)@[p as int],
        final(xs)@[p as int] == old(xs)@[piv as int],
{
    let last = hi - 1;
    proof {
        lemma_swap_subrange_multiset(xs@, lo as int, hi as int, piv as int, last as int);
    }
    swap_in(xs, piv, last);
    let mut w = lo;
    let mut i = lo;
    while i < last
        invariant
            lo <= w <= i <= last,
            last == hi - 1,
            lo < hi <= old(xs).len(),
            xs.len() == old(xs).len(),
            piv < hi,
            xs@[last as int] == old(xs)@[piv as int],
            forall|k: int| 0 <= k < old(xs).len() && !(lo <= k < hi) ==> xs@[k] == old(xs)@[k],
            xs@.subrange(lo as int, hi as int).to_multiset() == old(xs)@.subrange(
                lo as int,
                hi as int,
            ).to_multiset(),
            forall|k: int| lo <= k < w ==> xs@[k] <= xs@[last as int],
            forall|k: int| w <= k < i ==> xs@[k] > xs@[last as int],
        decreases last - i,
    {
        if xs[i] <= xs[last] {
            proof {
                lemma_swap_subrange_multiset(xs@, lo as int, hi as int, i as int, w as int);
            }
            swap_in(xs, i, w);
            w = w + 1;
        }
        i = i + 1;
    }
    proof {
        lemma_swap_subrange_multiset(xs@, lo as int, hi as int, w as int, last as int);
    }
    swap_in(xs, w, last);
    w
}

/// Recursive driver: sorts the half-open range `[lo, hi)` in place. A range
/// of length 0 or 1 is already sorted and returns at once; otherwise a
/// median-of-three pivot is chosen, the range is partitioned around it, and
/// the two disjoint sides are sorted recursively.
fn quick_sort_range(xs: &mut Vec<i64>, lo: usize, hi: usize)
    requires
        lo <= hi <= old(xs).len(),
    ensures
        final(xs).len() == old(xs).len(),
        forall|k: int|
            0 <= k < old(xs).len() && !(lo <= k < hi) ==> final(xs)@[k] == old(xs)@[k],
        final(xs)@.subrange(lo as int, hi as int).to_multiset() == old(xs)@.subrange(
            lo as int,
            hi as int,
        ).to_multiset(),
        sorted_range(final(xs)@, lo as int, hi as int),
    decreases hi - lo,
{
    if hi - lo <= 1 {
        return ;
    }
    let last = hi - 1;
    let piv = median_of_three(xs, lo, last);
    let p = partition(xs, lo, hi, piv);
    let ghost s1 = xs@;
    quick_sort_range(xs, lo, p);
    let ghost s2 = xs@;
    quick_sort_range(xs, p + 1, hi);
    let ghost s3 = xs@;
    proof {
        let loi = lo as int;
        let hii = hi as int;
        let pi = p as int;
        let v = s1[pi];
        assert(s3[pi] == v);
        // Everything left of the pivot is still no greater than it.
        lemma_perm_le(s1.subrange(loi, pi), s2.subrange(loi, pi), v);
        assert forall|k: int| loi <= k < pi implies s3[k] <= v by {
            assert(s3[k] == s2[k]);
            assert(s2.subrange(loi, pi)[k - loi] == s2[k]);
        };
        // Everything right of the pivot is still strictly greater than it.
        assert(s2.subrange(pi + 1, hii) =~= s1.subrange(pi + 1, hii));
        lemma_perm_gt(s2.subrange(pi + 1, hii), s3.subrange(pi + 1, hii), v);
        assert forall|k: int| pi < k < hii implies s3[k] > v by {
            assert(s3.subrange(pi + 1, hii)[k - (pi + 1)] == s3[k]);
        };
        // The left side kept its order through the right-hand recursion.
        assert(sorted_range(s3, loi, pi)) by {
            assert forall|i: int, j: int| loi <= i <= j < pi implies s3[i] <= s3[j] by {
                assert(s3[i] == s2[i]);
                assert(s3[j] == s2[j]);
            };
        };
        // The whole range is sorted.
        assert forall|i: int, j: int| loi <= i <= j < hii implies s3[i] <= s3[j] by {
            if j < pi {
                assert(s3[i] <= s3[j]);
            } else if i < pi && j == pi {
                assert(s3[i] <= v);
            } else if i < pi && j > pi {
                assert(s3[i] <= v);
                assert(s3[j] > v);
            } else if i == pi && j > pi {
                assert(s3[j] > v);
            }
        };
        // The range's multiset survived both recursive calls.
        lemma_patch_subrange_multiset(s2, s1, loi, loi, pi, hii);
        lemma_patch_subrange_multiset(s3, s2, loi, pi + 1, hii, hii);
    }
}

/// Sorts the whole vector in place through checked indexing: the safe,
/// bounds-known entry point. The result is the input's multiset of values in
/// non-decreasing order.
pub fn quick_sort_slice(xs: &mut Vec<i64>)
    ensures
        final(xs).len() == old(xs).len(),
        is_sorted(final(xs)@),
        final(xs)@.to_multiset() == old(xs)@.to_multiset(),
{
    let n = xs.len();
    quick_sort_range(xs, 0, n);
    proof {
        assert(xs@.subrange(0, n as int) =~= xs@);
        assert(old(xs)@.subrange(0, n as int) =~= old(xs)@);
    }
}

/// Sorts the first `n` elements of a buffer in place, leaving every element
/// at or beyond `n` untouched. The counted-prefix entry point: the caller
/// hands a buffer and an element count, and must hand a count no larger than
/// the buffer itself; lengths 0 and 1 are no-ops. The prefix `[0, n)` ends in
/// non-decreasing order and holds the same multiset of values it started
/// with.
pub fn quick_sort_buffer(xs: &mut Vec<i64>, n: usize)
    requires
        n <= old(xs).len(),
    ensures
        final(xs).len() == old(xs).len(),
        sorted_range(final(xs)@, 0, n as int),
        final(xs)@.subrange(0, n as int).to_multiset() == old(xs)@.subrange(
            0,
            n as int,
        ).to_multiset(),
        forall|k: int| n <= k < old(xs).len() ==> final(xs)@[k] == old(xs)@[k],
{
    quick_sort_range(xs, 0, n);
}

} // verus!
