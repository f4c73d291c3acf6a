//! Counting the items of a sequence below a bound, and what the count tells
//! of the sequence in ascending order.

use vstd::prelude::*;
use vstd::seq_lib::{to_multiset_contains, to_multiset_len, to_multiset_remove};

verus! {

/// How many items of `s` are smaller than `bound`.
pub open spec fn count_below(s: Seq<u64>, bound: int) -> nat
    decreases s.len(),
{
    if s.len() == 0 {
        0
    } else if s.last() < bound {
        count_below(s.drop_last(), bound) + 1
    } else {
        count_below(s.drop_last(), bound)
    }
}

/// No item of `s` is followed by a smaller one.
pub open spec fn ascending(s: Seq<u64>) -> bool {
    forall|a: int, b: int| 0 <= a <= b < s.len() ==> s[a] <= s[b]
}

/// Never more items are below a bound than there are items, and a larger
/// bound has no fewer items below it.
pub proof fn lemma_count_grows(s: Seq<u64>, low: int, high: int)
    requires
        low <= high,
    ensures
        count_below(s, low) <= count_below(s, high) <= s.len(),
    decreases s.len(),
{
    if s.len() > 0 {
        lemma_count_grows(s.drop_last(), low, high);
    }
}

/// The count over the first `upto + 1` items follows from the count over
/// the first `upto`.
pub proof fn lemma_count_step(s: Seq<u64>, upto: int, bound: int)
    requires
        0 <= upto < s.len(),
    ensures
        count_below(s.take(upto + 1), bound) == count_below(s.take(upto), bound) + if s[upto]
            < bound {
            1nat
        } else {
            0nat
        },
{
    assert(s.take(upto + 1).drop_last() == s.take(upto));
}

/// Taking one item out lowers the count by one if that item was below the
/// bound, and leaves it otherwise.
pub proof fn lemma_count_without(s: Seq<u64>, at: int, bound: int)
    requires
        0 <= at < s.len(),
    ensures
        count_below(s.remove(at), bound) + (if s[at] < bound {
            1nat
        } else {
            0nat
        }) == count_below(s, bound),
    decreases s.len(),
{
    if at == s.len() - 1 {
        assert(s.remove(at) == s.drop_last());
    } else {
        lemma_count_without(s.drop_last(), at, bound);
        assert(s.remove(at).drop_last() == s.drop_last().remove(at));
    }
}

/// The count does not depend on the order of the items.
pub proof fn lemma_count_rearranged(a: Seq<u64>, b: Seq<u64>, bound: int)
    requires
        a.to_multiset() == b.to_multiset(),
    ensures
        count_below(a, bound) == count_below(b, bound),
    decreases a.len(),
{
    to_multiset_len(a);
    to_multiset_len(b);
    if a.len() > 0 {
        let x = a.last();
        to_multiset_contains(a, x);
        to_multiset_contains(b, x);
        let at = choose|at: int| 0 <= at < b.len() && b[at] == x;
        to_multiset_remove(a, a.len() - 1);
        to_multiset_remove(b, at);
        lemma_count_rearranged(a.drop_last(), b.remove(at), bound);
        lemma_count_without(b, at, bound);
    }
}

/// If a bound admits none of the items from position `from` on, at most
/// `from` items are below it.
pub proof fn lemma_count_at_most(s: Seq<u64>, from: int, bound: int)
    requires
        0 <= from <= s.len(),
        forall|q: int| from <= q < s.len() ==> s[q] >= bound,
    ensures
        count_below(s, bound) <= from,
    decreases s.len(),
{
    if s.len() > from {
        lemma_count_at_most(s.drop_last(), from, bound);
    } else {
        lemma_count_grows(s, bound, bound);
    }
}

/// If a bound admits each of the first `upto` items, at least `upto` items
/// are below it.
pub proof fn lemma_count_at_least(s: Seq<u64>, upto: int, bound: int)
    requires
        0 <= upto <= s.len(),
        forall|q: int| 0 <= q < upto ==> s[q] < bound,
    ensures
        count_below(s, bound) >= upto,
    decreases s.len(),
{
    if s.len() > 0 {
        if upto == s.len() {
            lemma_count_at_least(s.drop_last(), upto - 1, bound);
        } else {
            lemma_count_at_least(s.drop_last(), upto, bound);
        }
    }
}

/// Where `sorted` holds the items of `s` in ascending order, its item at
/// position `k - 1` is the `k`-th smallest of `s`: fewer than `k` items of `s`
/// are below a value exactly if the value does not exceed it.
pub proof fn lemma_kth_smallest(s: Seq<u64>, sorted: Seq<u64>, k: int, value: int)
    requires
        sorted.to_multiset() == s.to_multiset(),
        ascending(sorted),
        1 <= k <= s.len(),
    ensures
        sorted.len() == s.len(),
        count_below(s, value) < k <==> value <= sorted[k - 1],
{
    to_multiset_len(s);
    to_multiset_len(sorted);
    lemma_count_rearranged(sorted, s, value);
    if value <= sorted[k - 1] {
        lemma_count_at_most(sorted, k - 1, value);
    } else {
        lemma_count_at_least(sorted, k, value);
    }
}

} // verus!
