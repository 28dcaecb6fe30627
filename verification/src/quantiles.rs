//! The order-statistic layer over the selection engine.
//!
//! `order_statistic` answers one-based rank queries and signals an
//! out-of-range rank or an empty buffer with `None` — the caller decides
//! how to surface that (a floating-point front end would answer NaN).
//! `median_pair` returns the two central order statistics, whose average
//! is the median; `quantile_neighbors` returns the two adjacent order
//! statistics an interpolating quantile estimator blends together.
//! All three reorder the buffer in place, and all three promise their
//! results relative to the buffer's *original* contents.

use vstd::prelude::*;

verus! {

use crate::order::is_kth_smallest;
use crate::order::lemma_kth_smallest_permutation;
use crate::order::lemma_maximum_is_kth_smallest;
use crate::order::lemma_minimum_is_kth_smallest;
use crate::selection::scan_max;
use crate::selection::scan_min;
use crate::selection::select_inplace;

/// The `order`-th smallest key, one-based, reordering the buffer in place.
///
/// Answers `None` exactly when the buffer is empty or `order` lies outside
/// `[1, n]`. A rank of `1` or `n` short-circuits to a linear minimum or
/// maximum scan that leaves the buffer untouched.
pub fn order_statistic(data: &mut Vec<u64>, order: usize) -> (r: Option<u64>)
    ensures
        final(data)@.len() == old(data)@.len(),
        final(data)@.to_multiset() == old(data)@.to_multiset(),
        match r {
            Option::None => order < 1 || order > old(data)@.len(),
            Option::Some(v) => 1 <= order <= old(data)@.len() && is_kth_smallest(
                old(data)@,
                order - 1,
                v,
            ),
        },
{
    let n = data.len();
    if order < 1 || order > n {
        return Option::None;
    }
    if order == 1 {
        let m = scan_min(data);
        proof {
            lemma_minimum_is_kth_smallest(data@, m);
        }
        return Option::Some(m);
    }
    if order == n {
        let m = scan_max(data);
        proof {
            lemma_maximum_is_kth_smallest(data@, m);
        }
        return Option::Some(m);
    }
    Option::Some(select_inplace(data, order - 1))
}

/// The two central order statistics, reordering the buffer in place: the
/// ones at zero-based positions `(n - 1) / 2` and `n / 2`.
///
/// For odd lengths the two coincide and are the median; for even lengths
/// the median is their midpoint. Answers `None` exactly when the buffer is
/// empty.
pub fn median_pair(data: &mut Vec<u64>) -> (r: Option<(u64, u64)>)
    ensures
        final(data)@.len() == old(data)@.len(),
        final(data)@.to_multiset() == old(data)@.to_multiset(),
        match r {
            Option::None => old(data)@.len() == 0,
            Option::Some(pair) => old(data)@.len() > 0 && is_kth_smallest(
                old(data)@,
                (old(data)@.len() - 1) as int / 2,
                pair.0,
            ) && is_kth_smallest(old(data)@, old(data)@.len() as int / 2, pair.1),
        },
{
    let n = data.len();
    if n == 0 {
        return Option::None;
    }
    let k = n / 2;
    if n % 2 != 0 {
        let m = select_inplace(data, k);
        proof {
            assert((n - 1) as int / 2 == k as int);
        }
        Option::Some((m, m))
    } else {
        let ghost orig = data@;
        let lo = select_inplace(data, k - 1);
        let ghost mid = data@;
        let hi = select_inplace(data, k);
        proof {
            assert((n - 1) as int / 2 == k as int - 1);
            lemma_kth_smallest_permutation(mid, orig, k as int, hi);
        }
        Option::Some((lo, hi))
    }
}

/// The order statistics at zero-based positions `h - 1` and `h`,
/// reordering the buffer in place.
///
/// These are the two values an interpolating quantile estimator blends:
/// one whose plotting position falls between them answers
/// `r.0 + fraction * (r.1 - r.0)`.
pub fn quantile_neighbors(data: &mut Vec<u64>, h: usize) -> (r: (u64, u64))
    requires
        1 <= h < old(data).len(),
    ensures
        final(data)@.len() == old(data)@.len(),
        final(data)@.to_multiset() == old(data)@.to_multiset(),
        is_kth_smallest(old(data)@, h - 1, r.0),
        is_kth_smallest(old(data)@, h as int, r.1),
{
    let ghost orig = data@;
    let a = select_inplace(data, h - 1);
    let ghost mid = data@;
    let b = select_inplace(data, h);
    proof {
        lemma_kth_smallest_permutation(mid, orig, h as int, b);
    }
    (a, b)
}

} // verus!
