//! The dual-array sort engines.
//!
//! Both engines sort a primary key buffer ascending while permuting a
//! secondary index buffer in lockstep, so that the pair `(key, index)` at
//! each position travels as one unit. The primary-only variant
//! (`quick_sort`, and `sort` which fronts it with an insertion sort for
//! short buffers) leaves the relative order of equal keys unspecified; the
//! dual-key variant (`quick_sort_all`) breaks ties by the secondary value
//! and therefore produces one deterministic total order.
//!
//! Contracts speak about the sequence of pairs: its multiset never changes,
//! and afterwards it is sorted in the order the variant promises.

use vstd::prelude::*;

verus! {

use crate::order::sorted;
use crate::perm::lemma_swap_multiset;
use crate::perm::lemma_untouched_outside_window;
use crate::perm::nested_window_source;
use crate::perm::swap_elems;
use crate::perm::window_source;

/// The pair carried at position `k`: primary key and secondary index.
pub open spec fn pair_at(p: Seq<u64>, s: Seq<usize>, k: int) -> (u64, usize) {
    (p[k], s[k])
}

/// The sequence of pairs carried by the two buffers.
pub open spec fn zip_view(p: Seq<u64>, s: Seq<usize>) -> Seq<(u64, usize)> {
    Seq::new(p.len(), |k: int| (p[k], s[k]))
}

/// The order the engines sort by: primary key first and, only when
/// `use_index` is set, the secondary value as a tie break.
pub open spec fn pair_lt(x: (u64, usize), y: (u64, usize), use_index: bool) -> bool {
    x.0 < y.0 || (use_index && x.0 == y.0 && x.1 < y.1)
}

/// The pairs of the window `[left, right]` appear in ascending order.
pub open spec fn pairs_sorted(
    p: Seq<u64>,
    s: Seq<usize>,
    left: int,
    right: int,
    use_index: bool,
) -> bool {
    forall|x: int, y: int|
        left <= x < y <= right ==> !pair_lt(pair_at(p, s, y), pair_at(p, s, x), use_index)
}

/// Compares two pairs in the engine order.
fn pair_less(a0: u64, a1: usize, b0: u64, b1: usize, use_index: bool) -> (r: bool)
    ensures
        r == pair_lt((a0, a1), (b0, b1), use_index),
{
    if a0 < b0 {
        true
    } else {
        use_index && a0 == b0 && a1 < b1
    }
}

/// Exchanges positions `i` and `j` of both buffers at once.
fn swap_pair(p: &mut Vec<u64>, s: &mut Vec<usize>, i: usize, j: usize)
    requires
        old(p).len() == old(s).len(),
        i < old(p).len(),
        j < old(p).len(),
    ensures
        final(p)@.len() == old(p)@.len(),
        final(s)@.len() == old(s)@.len(),
        final(p)@ == old(p)@.update(i as int, old(p)@[j as int]).update(
            j as int,
            old(p)@[i as int],
        ),
        final(s)@ == old(s)@.update(i as int, old(s)@[j as int]).update(
            j as int,
            old(s)@[i as int],
        ),
        zip_view(final(p)@, final(s)@).to_multiset() == zip_view(old(p)@, old(s)@).to_multiset(),
        final(p)@.to_multiset() == old(p)@.to_multiset(),
        final(s)@.to_multiset() == old(s)@.to_multiset(),
        forall|k: int|
            0 <= k < old(p)@.len() && k != i && k != j ==> (final(p)@[k] == old(p)@[k]
                && final(s)@[k] == old(s)@[k]),
{
    let ghost zp = zip_view(p@, s@);
    swap_elems(p, i, j);
    swap_elems(s, i, j);
    proof {
        assert(zip_view(p@, s@) =~= zp.update(i as int, zp[j as int]).update(
            j as int,
            zp[i as int],
        ));
        lemma_swap_multiset(zp, i as int, j as int);
    }
}

/// One round of Hoare partitioning of the window `[low, high]` of the pair
/// sequence around a median-of-three pivot pair.
///
/// Returns `(i, j)`: the pairs of `[low, i)` are at most the pivot, those of
/// `[i, j)` are equivalent to it, and those of `[j, high]` are at least it,
/// all in the engine order selected by `use_index`.
fn partition_pairs(
    p: &mut Vec<u64>,
    s: &mut Vec<usize>,
    low: usize,
    high: usize,
    use_index: bool,
) -> (r: (usize, usize))
    requires
        old(p).len() == old(s).len(),
        low < high < old(p).len(),
    ensures
        final(p)@.len() == old(p)@.len(),
        final(s)@.len() == old(s)@.len(),
        zip_view(final(p)@, final(s)@).to_multiset() == zip_view(old(p)@, old(s)@).to_multiset(),
        final(p)@.to_multiset() == old(p)@.to_multiset(),
        final(s)@.to_multiset() == old(s)@.to_multiset(),
        forall|k: int|
            0 <= k < old(p)@.len() && !(low <= k <= high) ==> (final(p)@[k] == old(p)@[k]
                && final(s)@[k] == old(s)@[k]),
        low <= r.0 <= r.1 <= high + 1,
        r.0 <= high,
        low < r.1,
        forall|x: int, y: int|
            low <= x < r.0 <= y <= high ==> !pair_lt(
                pair_at(final(p)@, final(s)@, y),
                pair_at(final(p)@, final(s)@, x),
                use_index,
            ),
        forall|x: int, y: int|
            low <= x < r.1 && r.1 <= y <= high ==> !pair_lt(
                pair_at(final(p)@, final(s)@, y),
                pair_at(final(p)@, final(s)@, x),
                use_index,
            ),
        forall|x: int, y: int|
            r.0 <= x < r.1 && r.0 <= y < r.1 ==> !pair_lt(
                pair_at(final(p)@, final(s)@, y),
                pair_at(final(p)@, final(s)@, x),
                use_index,
            ),
{
    let buf_len = p.len();
    assert(high < buf_len && buf_len <= usize::MAX);
    let mid = low + (high - low) / 2;
    if pair_less(p[mid], s[mid], p[low], s[low], use_index) {
        swap_pair(p, s, low, mid);
    }
    if pair_less(p[high], s[high], p[low], s[low], use_index) {
        swap_pair(p, s, low, high);
    }
    if pair_less(p[high], s[high], p[mid], s[mid], use_index) {
        swap_pair(p, s, mid, high);
    }
    let pv0 = p[mid];
    let pv1 = s[mid];
    let ghost pv = (pv0, pv1);
    assert(!pair_lt(pv, pair_at(p@, s@, low as int), use_index));
    assert(!pair_lt(pair_at(p@, s@, high as int), pv, use_index));
    let mut a = low;
    let mut b = high;
    loop
        invariant
            low < high < p@.len(),
            high < usize::MAX,
            p@.len() == old(p)@.len(),
            s@.len() == old(s)@.len(),
            p@.len() == s@.len(),
            pv == (pv0, pv1),
            zip_view(p@, s@).to_multiset() == zip_view(old(p)@, old(s)@).to_multiset(),
            p@.to_multiset() == old(p)@.to_multiset(),
            s@.to_multiset() == old(s)@.to_multiset(),
            forall|k: int|
                0 <= k < old(p)@.len() && !(low <= k <= high) ==> p@[k] == old(p)@[k] && s@[k]
                    == old(s)@[k],
            low <= a <= high,
            low <= b <= high,
            a <= b + 1,
            !pair_lt(pv, pair_at(p@, s@, low as int), use_index),
            !pair_lt(pair_at(p@, s@, high as int), pv, use_index),
            forall|k: int| low <= k < a ==> !pair_lt(pv, pair_at(p@, s@, k), use_index),
            forall|k: int| b < k <= high ==> !pair_lt(pair_at(p@, s@, k), pv, use_index),
        decreases b + 1 - a,
    {
        if a > b {
            // the pointers crossed: the window is split at `a` with no
            // middle zone
            return (a, a);
        }
        if pair_less(p[a], s[a], pv0, pv1, use_index) {
            a = a + 1;
        } else if pair_less(pv0, pv1, p[b], s[b], use_index) {
            if b == a {
                // everything from `a` on is at least the pivot, and the
                // pair at `a` itself exceeds it
                assert(a > low);
                return (a, a);
            }
            b = b - 1;
        } else if a == b {
            // the pair at `a` is equivalent to the pivot: a one-element
            // middle zone
            return (a, a + 1);
        } else {
            let ghost pp = p@;
            let ghost ss = s@;
            swap_pair(p, s, a, b);
            proof {
                assert(pair_at(p@, s@, a as int) == pair_at(pp, ss, b as int));
                assert(pair_at(p@, s@, b as int) == pair_at(pp, ss, a as int));
                assert forall|k: int| low <= k < a + 1 implies !pair_lt(
                    pv,
                    pair_at(p@, s@, k),
                    use_index,
                ) by {
                    if k != a {
                        assert(pair_at(p@, s@, k) == pair_at(pp, ss, k));
                        assert(!pair_lt(pv, pair_at(pp, ss, k), use_index));
                    }
                }
                assert forall|k: int| b - 1 < k <= high implies !pair_lt(
                    pair_at(p@, s@, k),
                    pv,
                    use_index,
                ) by {
                    if k != b {
                        assert(pair_at(p@, s@, k) == pair_at(pp, ss, k));
                        assert(!pair_lt(pair_at(pp, ss, k), pv, use_index));
                    }
                }
                assert(!pair_lt(pv, pair_at(p@, s@, low as int), use_index)) by {
                    if a != low {
                        assert(pair_at(p@, s@, low as int) == pair_at(pp, ss, low as int));
                    }
                }
                assert(!pair_lt(pair_at(p@, s@, high as int), pv, use_index)) by {
                    if b != high {
                        assert(pair_at(p@, s@, high as int) == pair_at(pp, ss, high as int));
                    }
                }
            }
            a = a + 1;
            b = b - 1;
        }
    }
}

/// The core shared by the two quicksort variants: sorts the window
/// `[left, right]` of the pair sequence in the order selected by
/// `use_index`, touching nothing outside the window.
///
/// Each round partitions the current window, sorts the smaller flank by a
/// recursive call and keeps iterating on the larger one, so the recursion
/// depth stays logarithmic in the window size.
fn quick_sort_window(
    p: &mut Vec<u64>,
    s: &mut Vec<usize>,
    left: usize,
    right: usize,
    use_index: bool,
)
    requires
        old(p).len() == old(s).len(),
        left <= right < old(p).len(),
    ensures
        final(p)@.len() == old(p)@.len(),
        final(s)@.len() == old(s)@.len(),
        zip_view(final(p)@, final(s)@).to_multiset() == zip_view(old(p)@, old(s)@).to_multiset(),
        final(p)@.to_multiset() == old(p)@.to_multiset(),
        final(s)@.to_multiset() == old(s)@.to_multiset(),
        forall|k: int|
            0 <= k < old(p)@.len() && !(left <= k <= right) ==> (final(p)@[k] == old(p)@[k]
                && final(s)@[k] == old(s)@[k]),
        pairs_sorted(final(p)@, final(s)@, left as int, right as int, use_index),
    decreases right - left,
{
    let buf_len = p.len();
    assert(right < buf_len && buf_len <= usize::MAX);
    let mut cl = left;
    let mut cr = right;
    while cl < cr
        invariant
            p@.len() == old(p)@.len(),
            s@.len() == old(s)@.len(),
            p@.len() == s@.len(),
            left <= cl,
            cl <= cr + 1,
            cr <= right,
            right < p@.len(),
            right < usize::MAX,
            zip_view(p@, s@).to_multiset() == zip_view(old(p)@, old(s)@).to_multiset(),
            p@.to_multiset() == old(p)@.to_multiset(),
            s@.to_multiset() == old(s)@.to_multiset(),
            forall|k: int|
                0 <= k < p@.len() && !(left <= k <= right) ==> (p@[k] == old(p)@[k] && s@[k]
                    == old(s)@[k]),
            pairs_sorted(p@, s@, left as int, cl as int - 1, use_index),
            pairs_sorted(p@, s@, cr as int + 1, right as int, use_index),
            forall|x: int, y: int|
                left <= x < cl && cl <= y <= right ==> !pair_lt(
                    pair_at(p@, s@, y),
                    pair_at(p@, s@, x),
                    use_index,
                ),
            forall|x: int, y: int|
                left <= x <= cr && cr < y <= right ==> !pair_lt(
                    pair_at(p@, s@, y),
                    pair_at(p@, s@, x),
                    use_index,
                ),
        decreases cr + 1 - cl,
    {
        let ghost pb = p@;
        let ghost sb = s@;
        let ghost zb = zip_view(pb, sb);
        let (i, j) = partition_pairs(p, s, cl, cr, use_index);
        let ghost pm = p@;
        let ghost sm = s@;
        let ghost zm = zip_view(pm, sm);
        let lcl = cl;
        let lcr = cr;
        proof {
            assert forall|k: int| 0 <= k < zm.len() && !(lcl <= k <= lcr) implies zm[k]
                == zb[k] by {
                assert(pm[k] == pb[k] && sm[k] == sb[k]);
            }
            lemma_untouched_outside_window(zb, zm, lcl as int, lcr as int);
        }
        // sort the smaller flank recursively and keep iterating on the
        // larger one, so the recursion depth stays logarithmic
        if i - cl <= (cr + 1) - j {
            let ghost rl = cl as int;
            let ghost rr = if cl + 1 < i {
                i as int - 1
            } else {
                cl as int - 1
            };
            if cl + 1 < i {
                quick_sort_window(p, s, cl, i - 1, use_index);
            }
            proof {
                restore_after_left_flank(
                    pb, sb, pm, sm, p@, s@,
                    left as int, right as int, lcl as int, lcr as int,
                    i as int, j as int, rl, rr, use_index,
                );
            }
            cl = j;
        } else {
            let ghost rl = if j < cr {
                j as int
            } else {
                lcr as int + 1
            };
            let ghost rr = lcr as int;
            if j < cr {
                quick_sort_window(p, s, j, cr, use_index);
            }
            proof {
                restore_after_right_flank(
                    pb, sb, pm, sm, p@, s@,
                    left as int, right as int, lcl as int, lcr as int,
                    i as int, j as int, rl, rr, use_index,
                );
            }
            cr = i - 1;
        }
    }
    proof {
        assert forall|x: int, y: int| left <= x < y <= right implies !pair_lt(
            pair_at(p@, s@, y),
            pair_at(p@, s@, x),
            use_index,
        ) by {
            if y <= cl - 1 {
                // both in the settled left region
            } else if x >= cr + 1 {
                // both in the settled right region
            } else if x < cl {
                // x settled on the left, y at or beyond the boundary
            } else {
                // x is inside [cl, cr], which holds at most one position,
                // so y lies beyond cr
                assert(x <= cr && cr < y);
            }
        }
    }
}

/// Re-establishes the loop invariants of `quick_sort_window` after a round
/// that partitioned `[cl, cr]` at `(i, j)` and then sorted the left flank
/// `[rl, rr]` (empty when the flank held at most one pair): the settled
/// region now reaches to `j`.
#[verifier::spinoff_prover]
proof fn restore_after_left_flank(
    pb: Seq<u64>,
    sb: Seq<usize>,
    pm: Seq<u64>,
    sm: Seq<usize>,
    pc: Seq<u64>,
    sc: Seq<usize>,
    ll: int,
    lr: int,
    cl: int,
    cr: int,
    i: int,
    j: int,
    rl: int,
    rr: int,
    u: bool,
)
    requires
        pb.len() == sb.len(),
        pm.len() == pb.len(),
        sm.len() == sb.len(),
        pc.len() == pb.len(),
        sc.len() == sb.len(),
        0 <= ll <= cl < cr <= lr < pb.len(),
        pairs_sorted(pb, sb, ll, cl - 1, u),
        pairs_sorted(pb, sb, cr + 1, lr, u),
        forall|x: int, y: int|
            ll <= x < cl && cl <= y <= lr ==> !pair_lt(pair_at(pb, sb, y), pair_at(pb, sb, x), u),
        forall|x: int, y: int|
            ll <= x <= cr && cr < y <= lr ==> !pair_lt(pair_at(pb, sb, y), pair_at(pb, sb, x), u),
        forall|k: int| 0 <= k < pb.len() && !(cl <= k <= cr) ==> pm[k] == pb[k] && sm[k] == sb[k],
        zip_view(pm, sm).to_multiset() == zip_view(pb, sb).to_multiset(),
        cl <= i <= j <= cr + 1,
        i <= cr,
        cl < j,
        forall|x: int, y: int|
            cl <= x < i <= y <= cr ==> !pair_lt(pair_at(pm, sm, y), pair_at(pm, sm, x), u),
        forall|x: int, y: int|
            cl <= x < j && j <= y <= cr ==> !pair_lt(pair_at(pm, sm, y), pair_at(pm, sm, x), u),
        forall|x: int, y: int|
            i <= x < j && i <= y < j ==> !pair_lt(pair_at(pm, sm, y), pair_at(pm, sm, x), u),
        rl == cl,
        rr <= i - 1,
        rl <= rr ==> rr == i - 1,
        rl > rr ==> i - cl <= 1,
        forall|k: int| 0 <= k < pc.len() && !(rl <= k <= rr) ==> pc[k] == pm[k] && sc[k] == sm[k],
        zip_view(pc, sc).to_multiset() == zip_view(pm, sm).to_multiset(),
        rl <= rr ==> pairs_sorted(pc, sc, rl, rr, u),
    ensures
        pairs_sorted(pc, sc, ll, j - 1, u),
        pairs_sorted(pc, sc, cr + 1, lr, u),
        forall|x: int, y: int|
            ll <= x < j && j <= y <= lr ==> !pair_lt(pair_at(pc, sc, y), pair_at(pc, sc, x), u),
        forall|x: int, y: int|
            ll <= x <= cr && cr < y <= lr ==> !pair_lt(pair_at(pc, sc, y), pair_at(pc, sc, x), u),
        forall|k: int| 0 <= k < pc.len() && !(cl <= k <= cr) ==> pc[k] == pb[k] && sc[k] == sb[k],
{
    let zb = zip_view(pb, sb);
    let zm = zip_view(pm, sm);
    let zc = zip_view(pc, sc);
    assert forall|k: int| 0 <= k < zm.len() && !(cl <= k <= cr) implies zm[k] == zb[k] by {
        assert(pm[k] == pb[k] && sm[k] == sb[k]);
    }
    lemma_untouched_outside_window(zb, zm, cl, cr);
    assert forall|k: int| 0 <= k < zc.len() && !(rl <= k <= rr) implies zc[k] == zm[k] by {
        assert(pc[k] == pm[k] && sc[k] == sm[k]);
    }
    if rl <= rr {
        lemma_untouched_outside_window(zm, zc, rl, rr);
    }
    assert forall|k: int| 0 <= k < pc.len() && !(cl <= k <= cr) implies pc[k] == pb[k] && sc[k]
        == sb[k] by {
        assert(pc[k] == pm[k] && sc[k] == sm[k]);
    }
    assert forall|x: int, y: int| ll <= x < y <= j - 1 implies !pair_lt(
        pair_at(pc, sc, y),
        pair_at(pc, sc, x),
        u,
    ) by {
        assert(pair_at(pc, sc, x) == zc[x] && pair_at(pc, sc, y) == zc[y]);
        if y < cl {
            assert(zc[x] == zb[x] && zc[y] == zb[y]);
            assert(pair_at(pb, sb, x) == zb[x] && pair_at(pb, sb, y) == zb[y]);
            assert(!pair_lt(pair_at(pb, sb, y), pair_at(pb, sb, x), u));
        } else if x < cl {
            let y1 = nested_window_source(zb, zm, zc, cl, cr, rl, rr, y);
            assert(pair_at(pb, sb, y1) == zb[y1] && pair_at(pb, sb, x) == zb[x]);
            assert(zc[x] == zb[x]);
            assert(!pair_lt(pair_at(pb, sb, y1), pair_at(pb, sb, x), u));
        } else if y <= rr {
            assert(!pair_lt(pair_at(pc, sc, y), pair_at(pc, sc, x), u));
        } else if x > rr {
            assert(zc[x] == zm[x] && zc[y] == zm[y]);
            assert(pair_at(pm, sm, x) == zm[x] && pair_at(pm, sm, y) == zm[y]);
            if x >= i {
                assert(!pair_lt(pair_at(pm, sm, y), pair_at(pm, sm, x), u));
            } else {
                assert(y >= i);
                assert(!pair_lt(pair_at(pm, sm, y), pair_at(pm, sm, x), u));
            }
        } else {
            let x1 = window_source(zm, zc, rl, rr, x);
            assert(zc[y] == zm[y]);
            assert(pair_at(pm, sm, x1) == zm[x1] && pair_at(pm, sm, y) == zm[y]);
            assert(y >= i);
            assert(!pair_lt(pair_at(pm, sm, y), pair_at(pm, sm, x1), u));
        }
    }
    assert forall|x: int, y: int| ll <= x < j && j <= y <= lr implies !pair_lt(
        pair_at(pc, sc, y),
        pair_at(pc, sc, x),
        u,
    ) by {
        assert(pair_at(pc, sc, x) == zc[x] && pair_at(pc, sc, y) == zc[y]);
        if x < cl {
            assert(zc[x] == zb[x]);
            if y <= cr {
                let y1 = nested_window_source(zb, zm, zc, cl, cr, rl, rr, y);
                assert(pair_at(pb, sb, y1) == zb[y1] && pair_at(pb, sb, x) == zb[x]);
                assert(!pair_lt(pair_at(pb, sb, y1), pair_at(pb, sb, x), u));
            } else {
                assert(zc[y] == zb[y]);
                assert(pair_at(pb, sb, y) == zb[y] && pair_at(pb, sb, x) == zb[x]);
                assert(!pair_lt(pair_at(pb, sb, y), pair_at(pb, sb, x), u));
            }
        } else if y <= cr {
            let x0: int = if rl <= x <= rr {
                window_source(zm, zc, rl, rr, x)
            } else {
                x
            };
            assert(zm[x0] == zc[x] && x0 < j);
            assert(zc[y] == zm[y]);
            assert(pair_at(pm, sm, x0) == zm[x0] && pair_at(pm, sm, y) == zm[y]);
            assert(!pair_lt(pair_at(pm, sm, y), pair_at(pm, sm, x0), u));
        } else {
            let x1 = nested_window_source(zb, zm, zc, cl, cr, rl, rr, x);
            assert(zc[y] == zb[y]);
            assert(pair_at(pb, sb, x1) == zb[x1] && pair_at(pb, sb, y) == zb[y]);
            assert(!pair_lt(pair_at(pb, sb, y), pair_at(pb, sb, x1), u));
        }
    }
    assert forall|x: int, y: int| cr + 1 <= x < y <= lr implies !pair_lt(
        pair_at(pc, sc, y),
        pair_at(pc, sc, x),
        u,
    ) by {
        assert(pair_at(pc, sc, x) == zc[x] && pair_at(pc, sc, y) == zc[y]);
        assert(zc[x] == zb[x] && zc[y] == zb[y]);
        assert(pair_at(pb, sb, x) == zb[x] && pair_at(pb, sb, y) == zb[y]);
        assert(!pair_lt(pair_at(pb, sb, y), pair_at(pb, sb, x), u));
    }
    assert forall|x: int, y: int| ll <= x <= cr && cr < y <= lr implies !pair_lt(
        pair_at(pc, sc, y),
        pair_at(pc, sc, x),
        u,
    ) by {
        assert(pair_at(pc, sc, x) == zc[x] && pair_at(pc, sc, y) == zc[y]);
        assert(zc[y] == zb[y]);
        assert(pair_at(pb, sb, y) == zb[y]);
        if x < cl {
            assert(zc[x] == zb[x]);
            assert(pair_at(pb, sb, x) == zb[x]);
            assert(!pair_lt(pair_at(pb, sb, y), pair_at(pb, sb, x), u));
        } else {
            let x1 = nested_window_source(zb, zm, zc, cl, cr, rl, rr, x);
            assert(pair_at(pb, sb, x1) == zb[x1]);
            assert(!pair_lt(pair_at(pb, sb, y), pair_at(pb, sb, x1), u));
        }
    }
}

/// The mirror image of `restore_after_left_flank` for a round that sorted
/// the right flank `[rl, rr]`: the settled region now reaches down to `i`.
#[verifier::spinoff_prover]
proof fn restore_after_right_flank(
    pb: Seq<u64>,
    sb: Seq<usize>,
    pm: Seq<u64>,
    sm: Seq<usize>,
    pc: Seq<u64>,
    sc: Seq<usize>,
    ll: int,
    lr: int,
    cl: int,
    cr: int,
    i: int,
    j: int,
    rl: int,
    rr: int,
    u: bool,
)
    requires
        pb.len() == sb.len(),
        pm.len() == pb.len(),
        sm.len() == sb.len(),
        pc.len() == pb.len(),
        sc.len() == sb.len(),
        0 <= ll <= cl < cr <= lr < pb.len(),
        pairs_sorted(pb, sb, ll, cl - 1, u),
        pairs_sorted(pb, sb, cr + 1, lr, u),
        forall|x: int, y: int|
            ll <= x < cl && cl <= y <= lr ==> !pair_lt(pair_at(pb, sb, y), pair_at(pb, sb, x), u),
        forall|x: int, y: int|
            ll <= x <= cr && cr < y <= lr ==> !pair_lt(pair_at(pb, sb, y), pair_at(pb, sb, x), u),
        forall|k: int| 0 <= k < pb.len() && !(cl <= k <= cr) ==> pm[k] == pb[k] && sm[k] == sb[k],
        zip_view(pm, sm).to_multiset() == zip_view(pb, sb).to_multiset(),
        cl <= i <= j <= cr + 1,
        i <= cr,
        cl < j,
        forall|x: int, y: int|
            cl <= x < i <= y <= cr ==> !pair_lt(pair_at(pm, sm, y), pair_at(pm, sm, x), u),
        forall|x: int, y: int|
            cl <= x < j && j <= y <= cr ==> !pair_lt(pair_at(pm, sm, y), pair_at(pm, sm, x), u),
        forall|x: int, y: int|
            i <= x < j && i <= y < j ==> !pair_lt(pair_at(pm, sm, y), pair_at(pm, sm, x), u),
        rr == cr,
        rl >= j,
        rl <= rr ==> rl == j,
        rl > rr ==> cr + 1 - j <= 1,
        forall|k: int| 0 <= k < pc.len() && !(rl <= k <= rr) ==> pc[k] == pm[k] && sc[k] == sm[k],
        zip_view(pc, sc).to_multiset() == zip_view(pm, sm).to_multiset(),
        rl <= rr ==> pairs_sorted(pc, sc, rl, rr, u),
    ensures
        pairs_sorted(pc, sc, ll, cl - 1, u),
        pairs_sorted(pc, sc, i, lr, u),
        forall|x: int, y: int|
            ll <= x < cl && cl <= y <= lr ==> !pair_lt(pair_at(pc, sc, y), pair_at(pc, sc, x), u),
        forall|x: int, y: int|
            ll <= x <= i - 1 && i - 1 < y <= lr ==> !pair_lt(
                pair_at(pc, sc, y),
                pair_at(pc, sc, x),
                u,
            ),
        forall|k: int| 0 <= k < pc.len() && !(cl <= k <= cr) ==> pc[k] == pb[k] && sc[k] == sb[k],
{
    let zb = zip_view(pb, sb);
    let zm = zip_view(pm, sm);
    let zc = zip_view(pc, sc);
    assert forall|k: int| 0 <= k < zm.len() && !(cl <= k <= cr) implies zm[k] == zb[k] by {
        assert(pm[k] == pb[k] && sm[k] == sb[k]);
    }
    lemma_untouched_outside_window(zb, zm, cl, cr);
    assert forall|k: int| 0 <= k < zc.len() && !(rl <= k <= rr) implies zc[k] == zm[k] by {
        assert(pc[k] == pm[k] && sc[k] == sm[k]);
    }
    if rl <= rr {
        lemma_untouched_outside_window(zm, zc, rl, rr);
    }
    assert forall|k: int| 0 <= k < pc.len() && !(cl <= k <= cr) implies pc[k] == pb[k] && sc[k]
        == sb[k] by {
        assert(pc[k] == pm[k] && sc[k] == sm[k]);
    }
    assert forall|x: int, y: int| ll <= x < y <= cl - 1 implies !pair_lt(
        pair_at(pc, sc, y),
        pair_at(pc, sc, x),
        u,
    ) by {
        assert(pair_at(pc, sc, x) == zc[x] && pair_at(pc, sc, y) == zc[y]);
        assert(zc[x] == zb[x] && zc[y] == zb[y]);
        assert(pair_at(pb, sb, x) == zb[x] && pair_at(pb, sb, y) == zb[y]);
        assert(!pair_lt(pair_at(pb, sb, y), pair_at(pb, sb, x), u));
    }
    assert forall|x: int, y: int| i <= x < y <= lr implies !pair_lt(
        pair_at(pc, sc, y),
        pair_at(pc, sc, x),
        u,
    ) by {
        assert(pair_at(pc, sc, x) == zc[x] && pair_at(pc, sc, y) == zc[y]);
        if x > cr {
            assert(zc[x] == zb[x] && zc[y] == zb[y]);
            assert(pair_at(pb, sb, x) == zb[x] && pair_at(pb, sb, y) == zb[y]);
            assert(!pair_lt(pair_at(pb, sb, y), pair_at(pb, sb, x), u));
        } else if y > cr {
            let x1 = nested_window_source(zb, zm, zc, cl, cr, rl, rr, x);
            assert(zc[y] == zb[y]);
            assert(pair_at(pb, sb, x1) == zb[x1] && pair_at(pb, sb, y) == zb[y]);
            assert(!pair_lt(pair_at(pb, sb, y), pair_at(pb, sb, x1), u));
        } else if y < j {
            assert(zc[x] == zm[x] && zc[y] == zm[y]);
            assert(pair_at(pm, sm, x) == zm[x] && pair_at(pm, sm, y) == zm[y]);
            assert(!pair_lt(pair_at(pm, sm, y), pair_at(pm, sm, x), u));
        } else if x < j {
            let y0: int = if rl <= y <= rr {
                window_source(zm, zc, rl, rr, y)
            } else {
                y
            };
            assert(zm[y0] == zc[y] && j <= y0 <= cr);
            assert(zc[x] == zm[x]);
            assert(pair_at(pm, sm, x) == zm[x] && pair_at(pm, sm, y0) == zm[y0]);
            assert(!pair_lt(pair_at(pm, sm, y0), pair_at(pm, sm, x), u));
        } else {
            assert(rl <= rr);
            assert(!pair_lt(pair_at(pc, sc, y), pair_at(pc, sc, x), u));
        }
    }
    assert forall|x: int, y: int| ll <= x < cl && cl <= y <= lr implies !pair_lt(
        pair_at(pc, sc, y),
        pair_at(pc, sc, x),
        u,
    ) by {
        assert(pair_at(pc, sc, x) == zc[x] && pair_at(pc, sc, y) == zc[y]);
        assert(zc[x] == zb[x]);
        assert(pair_at(pb, sb, x) == zb[x]);
        if y <= cr {
            let y1 = nested_window_source(zb, zm, zc, cl, cr, rl, rr, y);
            assert(pair_at(pb, sb, y1) == zb[y1]);
            assert(!pair_lt(pair_at(pb, sb, y1), pair_at(pb, sb, x), u));
        } else {
            assert(zc[y] == zb[y]);
            assert(pair_at(pb, sb, y) == zb[y]);
            assert(!pair_lt(pair_at(pb, sb, y), pair_at(pb, sb, x), u));
        }
    }
    assert forall|x: int, y: int| ll <= x <= i - 1 && i - 1 < y <= lr implies !pair_lt(
        pair_at(pc, sc, y),
        pair_at(pc, sc, x),
        u,
    ) by {
        assert(pair_at(pc, sc, x) == zc[x] && pair_at(pc, sc, y) == zc[y]);
        if x < cl {
            assert(zc[x] == zb[x]);
            assert(pair_at(pb, sb, x) == zb[x]);
            if y <= cr {
                let y1 = nested_window_source(zb, zm, zc, cl, cr, rl, rr, y);
                assert(pair_at(pb, sb, y1) == zb[y1]);
                assert(!pair_lt(pair_at(pb, sb, y1), pair_at(pb, sb, x), u));
            } else {
                assert(zc[y] == zb[y]);
                assert(pair_at(pb, sb, y) == zb[y]);
                assert(!pair_lt(pair_at(pb, sb, y), pair_at(pb, sb, x), u));
            }
        } else {
            assert(zc[x] == zm[x]);
            assert(pair_at(pm, sm, x) == zm[x]);
            if y < j {
                assert(zc[y] == zm[y]);
                assert(pair_at(pm, sm, y) == zm[y]);
                assert(!pair_lt(pair_at(pm, sm, y), pair_at(pm, sm, x), u));
            } else if y <= cr {
                let y0: int = if rl <= y <= rr {
                    window_source(zm, zc, rl, rr, y)
                } else {
                    y
                };
                assert(zm[y0] == zc[y] && i <= y0 <= cr);
                assert(pair_at(pm, sm, y0) == zm[y0]);
                assert(!pair_lt(pair_at(pm, sm, y0), pair_at(pm, sm, x), u));
            } else {
                let x1 = window_source(zb, zm, cl, cr, x);
                assert(zb[x1] == zm[x] && zc[y] == zb[y]);
                assert(pair_at(pb, sb, x1) == zb[x1] && pair_at(pb, sb, y) == zb[y]);
                assert(!pair_lt(pair_at(pb, sb, y), pair_at(pb, sb, x1), u));
            }
        }
    }
}

/// Sorts both buffers in lockstep by the primary key with a dual-array
/// insertion sort; used for short buffers, where it beats quicksort.
fn insertion_sort(p: &mut Vec<u64>, s: &mut Vec<usize>)
    requires
        old(p).len() == old(s).len(),
    ensures
        final(p)@.len() == old(p)@.len(),
        final(s)@.len() == old(s)@.len(),
        zip_view(final(p)@, final(s)@).to_multiset() == zip_view(old(p)@, old(s)@).to_multiset(),
        final(p)@.to_multiset() == old(p)@.to_multiset(),
        final(s)@.to_multiset() == old(s)@.to_multiset(),
        forall|a: int, b: int| 0 <= a < b < final(p)@.len() ==> final(p)@[a] <= final(p)@[b],
{
    let n = p.len();
    let mut idx: usize = 1;
    while idx < n
        invariant
            n == p@.len(),
            1 <= idx,
            idx <= n || n == 0,
            p@.len() == old(p)@.len(),
            s@.len() == old(s)@.len(),
            p@.len() == s@.len(),
            zip_view(p@, s@).to_multiset() == zip_view(old(p)@, old(s)@).to_multiset(),
            p@.to_multiset() == old(p)@.to_multiset(),
            s@.to_multiset() == old(s)@.to_multiset(),
            forall|a: int, b: int| 0 <= a < b < idx ==> p@[a] <= p@[b],
        decreases n - idx,
    {
        let mut j: usize = idx;
        while j > 0 && p[j - 1] > p[j]
            invariant
                n == p@.len(),
                0 <= j <= idx < n,
                p@.len() == old(p)@.len(),
                s@.len() == old(s)@.len(),
                p@.len() == s@.len(),
                zip_view(p@, s@).to_multiset() == zip_view(old(p)@, old(s)@).to_multiset(),
                p@.to_multiset() == old(p)@.to_multiset(),
                s@.to_multiset() == old(s)@.to_multiset(),
                forall|a: int, b: int| 0 <= a < b <= idx && b != j ==> p@[a] <= p@[b],
            decreases j,
        {
            swap_pair(p, s, j - 1, j);
            j = j - 1;
        }
        proof {
            assert forall|a: int, b: int| 0 <= a < b < idx + 1 implies p@[a] <= p@[b] by {
                if b == j && j > 0 && a < j - 1 {
                    assert(p@[a] <= p@[j - 1]);
                }
            }
        }
        idx = idx + 1;
    }
}

/// Quicksorts the window `[left, right]`, keeping the secondary buffer in
/// lockstep with the primary one. Equal primary keys may end up in any
/// relative order.
pub fn quick_sort(primary: &mut Vec<u64>, secondary: &mut Vec<usize>, left: usize, right: usize)
    requires
        old(primary).len() == old(secondary).len(),
        left <= right < old(primary).len(),
    ensures
        final(primary)@.len() == old(primary)@.len(),
        final(secondary)@.len() == old(secondary)@.len(),
        zip_view(final(primary)@, final(secondary)@).to_multiset() == zip_view(
            old(primary)@,
            old(secondary)@,
        ).to_multiset(),
        final(primary)@.to_multiset() == old(primary)@.to_multiset(),
        final(secondary)@.to_multiset() == old(secondary)@.to_multiset(),
        forall|k: int|
            0 <= k < old(primary)@.len() && !(left <= k <= right) ==> (final(primary)@[k] == old(
                primary,
            )@[k] && final(secondary)@[k] == old(secondary)@[k]),
        forall|x: int, y: int|
            left <= x < y <= right ==> final(primary)@[x] <= final(primary)@[y],
{
    quick_sort_window(primary, secondary, left, right, false);
    proof {
        assert forall|x: int, y: int| left <= x < y <= right implies primary@[x]
            <= primary@[y] by {
            assert(!pair_lt(pair_at(primary@, secondary@, y), pair_at(primary@, secondary@, x), false));
        }
    }
}

/// Quicksorts the window `[left, right]` by primary key, breaking ties in
/// equal primary keys by ascending secondary value: one deterministic
/// total order.
pub fn quick_sort_all(primary: &mut Vec<u64>, secondary: &mut Vec<usize>, left: usize, right: usize)
    requires
        old(primary).len() == old(secondary).len(),
        left <= right < old(primary).len(),
    ensures
        final(primary)@.len() == old(primary)@.len(),
        final(secondary)@.len() == old(secondary)@.len(),
        zip_view(final(primary)@, final(secondary)@).to_multiset() == zip_view(
            old(primary)@,
            old(secondary)@,
        ).to_multiset(),
        final(primary)@.to_multiset() == old(primary)@.to_multiset(),
        final(secondary)@.to_multiset() == old(secondary)@.to_multiset(),
        forall|k: int|
            0 <= k < old(primary)@.len() && !(left <= k <= right) ==> (final(primary)@[k] == old(
                primary,
            )@[k] && final(secondary)@[k] == old(secondary)@[k]),
        pairs_sorted(final(primary)@, final(secondary)@, left as int, right as int, true),
{
    quick_sort_window(primary, secondary, left, right, true);
}

/// Sorts the primary buffer ascending while permuting the secondary buffer
/// identically: insertion sort for at most ten elements, quicksort beyond.
/// The relative order of equal primary keys is unspecified.
pub fn sort(primary: &mut Vec<u64>, secondary: &mut Vec<usize>)
    requires
        old(primary).len() == old(secondary).len(),
    ensures
        final(primary)@.len() == old(primary)@.len(),
        final(secondary)@.len() == old(secondary)@.len(),
        zip_view(final(primary)@, final(secondary)@).to_multiset() == zip_view(
            old(primary)@,
            old(secondary)@,
        ).to_multiset(),
        final(primary)@.to_multiset() == old(primary)@.to_multiset(),
        final(secondary)@.to_multiset() == old(secondary)@.to_multiset(),
        sorted(final(primary)@),
{
    let n = primary.len();
    if n <= 1 {
        return ;
    }
    if n == 2 {
        if primary[0] > primary[1] {
            swap_pair(primary, secondary, 0, 1);
        }
        return ;
    }
    if n <= 10 {
        insertion_sort(primary, secondary);
        return ;
    }
    quick_sort(primary, secondary, 0, n - 1);
}

} // verus!
