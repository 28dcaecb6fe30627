//! The mathematical model of order statistics over `u64` keys.
//!
//! A value `v` is the zero-based `k`-th smallest element of a sequence `s`
//! exactly when fewer than `k + 1` elements of `s` are strictly below `v`
//! and more than `k` elements are at or below `v`. That characterization is
//! insensitive to the order of `s`, which is what lets the destructive
//! engines promise a result about the *original* buffer contents while
//! reordering the buffer itself.

use vstd::prelude::*;

verus! {

use crate::counts::count_where;
use crate::counts::lemma_count_all;
use crate::counts::lemma_count_complement;
use crate::counts::lemma_count_le_len;
use crate::counts::lemma_count_monotone;
use crate::counts::lemma_count_none;
use crate::counts::lemma_count_permutation;
use crate::counts::lemma_count_split_at;

/// The elements of `s` appear in ascending order.
pub open spec fn sorted(s: Seq<u64>) -> bool {
    forall|i: int, j: int| 0 <= i < j < s.len() ==> s[i] <= s[j]
}

/// Holds of the values strictly below `v`.
pub open spec fn below(v: u64) -> spec_fn(u64) -> bool {
    |x: u64| x < v
}

/// Holds of the values at or below `v`.
pub open spec fn at_or_below(v: u64) -> spec_fn(u64) -> bool {
    |x: u64| x <= v
}

/// How many elements of `s` lie strictly below `v`.
pub open spec fn count_lt(s: Seq<u64>, v: u64) -> nat {
    count_where(s, below(v))
}

/// How many elements of `s` lie at or below `v`.
pub open spec fn count_le(s: Seq<u64>, v: u64) -> nat {
    count_where(s, at_or_below(v))
}

/// Holds of the values strictly above `v`.
pub open spec fn above(v: u64) -> spec_fn(u64) -> bool {
    |x: u64| x > v
}

/// Holds of the values at or above `v`.
pub open spec fn at_or_above(v: u64) -> spec_fn(u64) -> bool {
    |x: u64| x >= v
}

/// How many elements of `s` lie strictly above `v`.
pub open spec fn count_gt(s: Seq<u64>, v: u64) -> nat {
    count_where(s, above(v))
}

/// How many elements of `s` lie at or above `v`.
pub open spec fn count_ge(s: Seq<u64>, v: u64) -> nat {
    count_where(s, at_or_above(v))
}

/// The four counts pair up into complements that cover the whole sequence.
pub proof fn lemma_counts_complement(s: Seq<u64>, v: u64)
    ensures
        count_lt(s, v) + count_ge(s, v) == s.len(),
        count_le(s, v) + count_gt(s, v) == s.len(),
{
    lemma_count_complement(s, below(v), at_or_above(v));
    lemma_count_complement(s, at_or_below(v), above(v));
}

/// `v` is the value at zero-based position `k` of `s` sorted ascending.
pub open spec fn is_kth_smallest(s: Seq<u64>, k: int, v: u64) -> bool {
    &&& count_lt(s, v) <= k
    &&& k < count_le(s, v)
}

/// `v` is the least element of `s`.
pub open spec fn is_minimum(s: Seq<u64>, v: u64) -> bool {
    &&& s.contains(v)
    &&& forall|i: int| 0 <= i < s.len() ==> v <= s[i]
}

/// `v` is the greatest element of `s`.
pub open spec fn is_maximum(s: Seq<u64>, v: u64) -> bool {
    &&& s.contains(v)
    &&& forall|i: int| 0 <= i < s.len() ==> s[i] <= v
}

/// At most one value is the `k`-th smallest element of a sequence.
pub proof fn lemma_kth_smallest_unique(s: Seq<u64>, k: int, v1: u64, v2: u64)
    requires
        is_kth_smallest(s, k, v1),
        is_kth_smallest(s, k, v2),
    ensures
        v1 == v2,
{
    if v1 < v2 {
        lemma_count_monotone(s, at_or_below(v1), below(v2));
    }
    if v2 < v1 {
        lemma_count_monotone(s, at_or_below(v2), below(v1));
    }
}

/// Being the `k`-th smallest element only depends on the multiset of elements.
pub proof fn lemma_kth_smallest_permutation(s: Seq<u64>, t: Seq<u64>, k: int, v: u64)
    requires
        s.to_multiset() == t.to_multiset(),
        is_kth_smallest(s, k, v),
    ensures
        is_kth_smallest(t, k, v),
{
    lemma_count_permutation(s, t, below(v));
    lemma_count_permutation(s, t, at_or_below(v));
}

/// If everything before position `k` is at most `s[k]` and everything after
/// is at least `s[k]`, then position `k` holds the `k`-th smallest element.
pub proof fn lemma_kth_from_pointwise(s: Seq<u64>, k: int)
    requires
        0 <= k < s.len(),
        forall|x: int| 0 <= x < k ==> s[x] <= s[k],
        forall|y: int| k < y < s.len() ==> s[k] <= s[y],
    ensures
        is_kth_smallest(s, k, s[k]),
{
    let v = s[k];
    lemma_count_split_at(s, k, below(v));
    lemma_count_le_len(s.take(k), below(v));
    lemma_count_none(s.skip(k), below(v));
    lemma_count_split_at(s, k + 1, at_or_below(v));
    lemma_count_all(s.take(k + 1), at_or_below(v));
}

/// In a sorted sequence, position `k` holds the `k`-th smallest element.
pub proof fn lemma_kth_smallest_of_sorted(s: Seq<u64>, k: int)
    requires
        sorted(s),
        0 <= k < s.len(),
    ensures
        is_kth_smallest(s, k, s[k]),
{
    lemma_kth_from_pointwise(s, k);
}

/// The least element is exactly the first order statistic.
pub proof fn lemma_minimum_is_kth_smallest(s: Seq<u64>, v: u64)
    requires
        is_minimum(s, v),
    ensures
        is_kth_smallest(s, 0, v),
{
    lemma_count_none(s, below(v));
    let i = choose|i: int| 0 <= i < s.len() && s[i] == v;
    lemma_count_split_at(s, i, at_or_below(v));
    lemma_count_split_at(s.skip(i), 1, at_or_below(v));
    lemma_count_all(s.skip(i).take(1), at_or_below(v));
}

/// The greatest element is exactly the last order statistic.
pub proof fn lemma_maximum_is_kth_smallest(s: Seq<u64>, v: u64)
    requires
        is_maximum(s, v),
    ensures
        is_kth_smallest(s, s.len() - 1, v),
{
    lemma_count_all(s, at_or_below(v));
    lemma_count_le_len(s, below(v));
    let i = choose|i: int| 0 <= i < s.len() && s[i] == v;
    lemma_count_split_at(s, i, below(v));
    lemma_count_split_at(s.skip(i), 1, below(v));
    lemma_count_none(s.skip(i).take(1), below(v));
    lemma_count_le_len(s.take(i), below(v));
    lemma_count_le_len(s.skip(i).skip(1), below(v));
}

} // verus!
