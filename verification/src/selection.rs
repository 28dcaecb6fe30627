//! The in-place selection engine.
//!
//! `select_inplace` finds the zero-based `rank`-th order statistic of a key
//! buffer by an iterative median-of-three quickselect with Hoare
//! partitioning. It reorders the buffer as a side effect; its contract
//! promises only that the result is the `rank`-th smallest element of the
//! *original* contents and that the final buffer is a permutation of them.
//! Rank zero short-circuits to a linear minimum scan, which leaves the
//! buffer untouched.

use vstd::prelude::*;

verus! {

use crate::order::is_kth_smallest;
use crate::order::is_maximum;
use crate::order::is_minimum;
use crate::order::lemma_kth_from_pointwise;
use crate::order::lemma_kth_smallest_permutation;
use crate::order::lemma_minimum_is_kth_smallest;
use crate::perm::lemma_untouched_outside_window;
use crate::perm::swap_elems;
use crate::perm::window_source;

/// The least key of a non-empty buffer, found by a linear scan.
pub(crate) fn scan_min(data: &Vec<u64>) -> (r: u64)
    requires
        data.len() >= 1,
    ensures
        is_minimum(data@, r),
{
    let mut m = data[0];
    let ghost mut wit: int = 0;
    let mut i: usize = 1;
    while i < data.len()
        invariant
            1 <= i <= data.len(),
            0 <= wit < i,
            data@[wit] == m,
            forall|k: int| 0 <= k < i ==> m <= data@[k],
        decreases data.len() - i,
    {
        if data[i] < m {
            m = data[i];
            proof {
                wit = i as int;
            }
        }
        i = i + 1;
    }
    proof {
        assert(data@[wit] == m);
    }
    m
}

/// The greatest key of a non-empty buffer, found by a linear scan.
pub(crate) fn scan_max(data: &Vec<u64>) -> (r: u64)
    requires
        data.len() >= 1,
    ensures
        is_maximum(data@, r),
{
    let mut m = data[0];
    let ghost mut wit: int = 0;
    let mut i: usize = 1;
    while i < data.len()
        invariant
            1 <= i <= data.len(),
            0 <= wit < i,
            data@[wit] == m,
            forall|k: int| 0 <= k < i ==> data@[k] <= m,
        decreases data.len() - i,
    {
        if data[i] > m {
            m = data[i];
            proof {
                wit = i as int;
            }
        }
        i = i + 1;
    }
    proof {
        assert(data@[wit] == m);
    }
    m
}

/// The least key of the buffer, or `None` when the buffer is empty.
pub fn min(data: &Vec<u64>) -> (r: Option<u64>)
    ensures
        match r {
            Option::None => data@.len() == 0,
            Option::Some(v) => is_minimum(data@, v),
        },
{
    if data.len() == 0 {
        Option::None
    } else {
        Option::Some(scan_min(data))
    }
}

/// The greatest key of the buffer, or `None` when the buffer is empty.
pub fn max(data: &Vec<u64>) -> (r: Option<u64>)
    ensures
        match r {
            Option::None => data@.len() == 0,
            Option::Some(v) => is_maximum(data@, v),
        },
{
    if data.len() == 0 {
        Option::None
    } else {
        Option::Some(scan_max(data))
    }
}

/// One round of Hoare partitioning of the window `[low, high]` around a
/// median-of-three pivot.
///
/// Returns `(i, j)` such that the window splits into `[low, i)` at most the
/// pivot, `[i, j)` exactly the pivot, and `[j, high]` at least the pivot.
/// `i <= high` and `low < j`, so both flanks are strictly smaller windows.
fn partition(data: &mut Vec<u64>, low: usize, high: usize) -> (r: (usize, usize))
    requires
        low < high < old(data).len(),
    ensures
        final(data)@.len() == old(data)@.len(),
        final(data)@.to_multiset() == old(data)@.to_multiset(),
        forall|k: int|
            0 <= k < old(data)@.len() && !(low <= k <= high) ==> final(data)@[k] == old(data)@[k],
        low <= r.0 <= r.1 <= high + 1,
        r.0 <= high,
        low < r.1,
        forall|x: int, y: int|
            low <= x < r.0 <= y <= high ==> final(data)@[x] <= final(data)@[y],
        forall|x: int, y: int|
            low <= x < r.1 && r.1 <= y <= high ==> final(data)@[x] <= final(data)@[y],
        forall|x: int, y: int|
            r.0 <= x < r.1 && r.0 <= y < r.1 ==> final(data)@[x] == final(data)@[y],
{
    let buf_len = data.len();
    assert(high < buf_len && buf_len <= usize::MAX);
    let mid = low + (high - low) / 2;
    if data[low] > data[mid] {
        swap_elems(data, low, mid);
    }
    if data[low] > data[high] {
        swap_elems(data, low, high);
    }
    if data[mid] > data[high] {
        swap_elems(data, mid, high);
    }
    let pv = data[mid];
    assert(data@[low as int] <= pv && pv <= data@[high as int]);
    let mut a = low;
    let mut b = high;
    loop
        invariant
            low < high < data@.len(),
            high < usize::MAX,
            data@.len() == old(data)@.len(),
            data@.to_multiset() == old(data)@.to_multiset(),
            forall|k: int|
                0 <= k < old(data)@.len() && !(low <= k <= high) ==> data@[k] == old(data)@[k],
            low <= a <= high,
            low <= b <= high,
            a <= b + 1,
            data@[low as int] <= pv,
            pv <= data@[high as int],
            forall|k: int| low <= k < a ==> data@[k] <= pv,
            forall|k: int| b < k <= high ==> pv <= data@[k],
        decreases b + 1 - a,
    {
        if a > b {
            // the pointers crossed: the window is split at `a` with no
            // middle zone
            return (a, a);
        }
        if data[a] < pv {
            a = a + 1;
        } else if data[b] > pv {
            if b == a {
                // everything from `a` on is at least the pivot, and the
                // element at `a` itself exceeds it
                assert(a > low);
                return (a, a);
            }
            b = b - 1;
        } else if a == b {
            // the element at `a` equals the pivot: a one-element middle zone
            return (a, a + 1);
        } else {
            swap_elems(data, a, b);
            a = a + 1;
            b = b - 1;
        }
    }
}

/// Returns the value that would occupy zero-based position `rank` if the
/// buffer were sorted ascending, reordering the buffer in place.
///
/// The buffer afterwards is some permutation of its original contents;
/// beyond that its order is unspecified.
pub fn select_inplace(data: &mut Vec<u64>, rank: usize) -> (r: u64)
    requires
        old(data).len() >= 1,
        rank < old(data).len(),
    ensures
        final(data)@.len() == old(data)@.len(),
        final(data)@.to_multiset() == old(data)@.to_multiset(),
        is_kth_smallest(old(data)@, rank as int, r),
{
    if rank == 0 {
        let m = scan_min(data);
        proof {
            lemma_minimum_is_kth_smallest(data@, m);
        }
        return m;
    }
    let n = data.len();
    let mut lo: usize = 0;
    let mut hi: usize = n - 1;
    loop
        invariant
            n == old(data)@.len(),
            data@.len() == n,
            data@.to_multiset() == old(data)@.to_multiset(),
            lo <= rank <= hi < n,
            forall|x: int, y: int| 0 <= x < lo <= y < n ==> data@[x] <= data@[y],
            forall|x: int, y: int| 0 <= x <= hi < y < n ==> data@[x] <= data@[y],
        decreases hi - lo,
    {
        if hi <= lo + 1 {
            if hi == lo + 1 && data[hi] < data[lo] {
                let ghost pre = data@;
                swap_elems(data, lo, hi);
                assert forall|x: int, y: int| 0 <= x < lo <= y < n implies data@[x]
                    <= data@[y] by {
                    assert(pre[x] <= pre[lo as int] && pre[x] <= pre[hi as int]);
                }
                assert forall|x: int, y: int| 0 <= x <= hi < y < n implies data@[x]
                    <= data@[y] by {
                    assert(pre[lo as int] <= pre[y] && pre[hi as int] <= pre[y]);
                }
            }
            let result = data[rank];
            proof {
                assert forall|x: int| 0 <= x < rank implies data@[x] <= data@[rank as int] by {}
                assert forall|y: int| rank < y < n implies data@[rank as int] <= data@[y] by {}
                lemma_kth_from_pointwise(data@, rank as int);
                lemma_kth_smallest_permutation(data@, old(data)@, rank as int, result);
            }
            return result;
        }
        let ghost pre = data@;
        let (i, j) = partition(data, lo, hi);
        proof {
            lemma_untouched_outside_window(pre, data@, lo as int, hi as int);
        }
        if rank < i {
            proof {
                assert(lo < i);
                assert forall|x: int, y: int| 0 <= x < lo <= y < n implies data@[x]
                    <= data@[y] by {
                    if lo <= y <= hi {
                        let y0 = window_source(pre, data@, lo as int, hi as int, y);
                        assert(pre[x] <= pre[y0]);
                    }
                }
                assert forall|x: int, y: int| 0 <= x <= i - 1 < y < n implies data@[x]
                    <= data@[y] by {
                    if x < lo {
                        if lo <= y <= hi {
                            let y0 = window_source(pre, data@, lo as int, hi as int, y);
                            assert(pre[x] <= pre[y0]);
                        }
                    } else {
                        if y > hi {
                            let x0 = window_source(pre, data@, lo as int, hi as int, x);
                            assert(pre[x0] <= pre[y]);
                        }
                    }
                }
            }
            hi = i - 1;
        } else if rank >= j {
            proof {
                assert(j <= hi);
                assert forall|x: int, y: int| 0 <= x <= hi < y < n implies data@[x]
                    <= data@[y] by {
                    if lo <= x <= hi {
                        let x0 = window_source(pre, data@, lo as int, hi as int, x);
                        assert(pre[x0] <= pre[y]);
                    }
                }
                assert forall|x: int, y: int| 0 <= x < j <= y < n implies data@[x]
                    <= data@[y] by {
                    if x < lo {
                        if y <= hi {
                            let y0 = window_source(pre, data@, lo as int, hi as int, y);
                            assert(pre[x] <= pre[y0]);
                        }
                    } else {
                        if y > hi {
                            let x0 = window_source(pre, data@, lo as int, hi as int, x);
                            assert(pre[x0] <= pre[y]);
                        }
                    }
                }
            }
            lo = j;
        } else {
            // `rank` landed in the middle zone, which already holds the
            // pivot value everywhere
            let result = data[rank];
            proof {
                assert forall|x: int| 0 <= x < rank implies data@[x] <= data@[rank as int] by {
                    if x < lo {
                        let r0 = window_source(pre, data@, lo as int, hi as int, rank as int);
                        assert(pre[x] <= pre[r0]);
                    }
                }
                assert forall|y: int| rank < y < n implies data@[rank as int] <= data@[y] by {
                    if y > hi {
                        let r0 = window_source(pre, data@, lo as int, hi as int, rank as int);
                        assert(pre[r0] <= pre[y]);
                    }
                }
                lemma_kth_from_pointwise(data@, rank as int);
                lemma_kth_smallest_permutation(data@, old(data)@, rank as int, result);
            }
            return result;
        }
    }
}

} // verus!
