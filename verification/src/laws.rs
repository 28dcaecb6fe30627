//! Laws the library's operations obey, stated and proved once over the
//! mathematical model so every caller can lean on them.
//!
//! Each proof function here ties together the contracts of two or more
//! public operations: extreme order statistics coincide with the minimum
//! and maximum, order statistics are unique and depend only on the
//! multiset of elements (so the median survives any shuffling of its
//! input), the `Average` ranks of a buffer always sum to `n(n+1)/2`, and
//! the `First` ranks are `n` distinct even values between `2` and `2n` —
//! a permutation of the doubled ranks `1..n`.

use vstd::prelude::*;

verus! {

use vstd::relations::total_ordering;
use vstd::seq_lib::group_to_multiset_ensures;

use crate::counts::count_where;
use crate::counts::lemma_count_all;
use crate::counts::lemma_count_none;
use crate::counts::lemma_count_permutation;
use crate::counts::lemma_count_push;
use crate::counts::lemma_count_split_at;
use crate::counts::lemma_count_strict_monotone;
use crate::order::above;
use crate::order::at_or_above;
use crate::order::at_or_below;
use crate::order::below;
use crate::order::count_le;
use crate::order::count_lt;
use crate::order::is_kth_smallest;
use crate::order::is_maximum;
use crate::order::is_minimum;
use crate::order::lemma_counts_complement;
use crate::order::lemma_kth_smallest_permutation;
use crate::order::lemma_kth_smallest_unique;
use crate::order::lemma_maximum_is_kth_smallest;
use crate::order::lemma_minimum_is_kth_smallest;
use crate::ranking::count_first;
use crate::ranking::indexed;
use crate::ranking::lex_below;
use crate::ranking::rank_doubled;
use crate::ranking::RankTieBreaker;
use crate::sorting::pair_lt;

/// The first order statistic of a non-empty buffer is its minimum, and the
/// last is its maximum: `order_statistic(1)` answers what `min` answers,
/// and `order_statistic(n)` what `max` answers.
pub proof fn lemma_extreme_order_statistics(s: Seq<u64>, first: u64, last: u64, mn: u64, mx: u64)
    requires
        s.len() > 0,
        is_kth_smallest(s, 0, first),
        is_kth_smallest(s, s.len() - 1, last),
        is_minimum(s, mn),
        is_maximum(s, mx),
    ensures
        first == mn,
        last == mx,
{
    lemma_minimum_is_kth_smallest(s, mn);
    lemma_kth_smallest_unique(s, 0, first, mn);
    lemma_maximum_is_kth_smallest(s, mx);
    lemma_kth_smallest_unique(s, s.len() - 1, last, mx);
}

/// The two central order statistics — and with them the median, their
/// midpoint — are the same for every reordering of a buffer: shuffling the
/// input and asking again yields the identical answer.
pub proof fn lemma_median_permutation_invariant(
    s: Seq<u64>,
    t: Seq<u64>,
    pair_s: (u64, u64),
    pair_t: (u64, u64),
)
    requires
        s.to_multiset() == t.to_multiset(),
        s.len() > 0,
        is_kth_smallest(s, (s.len() - 1) as int / 2, pair_s.0),
        is_kth_smallest(s, s.len() as int / 2, pair_s.1),
        is_kth_smallest(t, (t.len() - 1) as int / 2, pair_t.0),
        is_kth_smallest(t, t.len() as int / 2, pair_t.1),
    ensures
        pair_s == pair_t,
{
    broadcast use vstd::seq_lib::group_to_multiset_ensures;

    assert(s.to_multiset().len() == s.len());
    assert(t.to_multiset().len() == t.len());
    lemma_kth_smallest_permutation(s, t, (s.len() - 1) as int / 2, pair_s.0);
    lemma_kth_smallest_unique(t, (t.len() - 1) as int / 2, pair_s.0, pair_t.0);
    lemma_kth_smallest_permutation(s, t, s.len() as int / 2, pair_s.1);
    lemma_kth_smallest_unique(t, t.len() as int / 2, pair_s.1, pair_t.1);
}

/// Selection and sorting agree: the `k`-th order statistic of a buffer is
/// exactly the value that position `k` holds after sorting any permutation
/// of that buffer ascending.
pub proof fn lemma_kth_smallest_is_sorted_position(s: Seq<u64>, t: Seq<u64>, k: int, v: u64)
    requires
        t.to_multiset() == s.to_multiset(),
        crate::order::sorted(t),
        0 <= k < t.len(),
        is_kth_smallest(s, k, v),
    ensures
        t[k] == v,
{
    crate::order::lemma_kth_smallest_of_sorted(t, k);
    lemma_kth_smallest_permutation(s, t, k, v);
    lemma_kth_smallest_unique(t, k, v, t[k]);
}

/// The sum of the elements of a sequence of doubled ranks.
pub open spec fn sum_of(s: Seq<u64>) -> int
    decreases s.len(),
{
    if s.len() == 0 {
        0
    } else {
        sum_of(s.drop_last()) + s.last()
    }
}

/// The summed comparison weight of the values of `t` against `s`: for each
/// position of `t`, how many elements of `s` fall strictly below it, plus
/// how many fall at or below it, plus one.
spec fn total_rank2(s: Seq<u64>, t: Seq<u64>) -> int
    decreases t.len(),
{
    if t.len() == 0 {
        0
    } else {
        total_rank2(s, t.drop_last()) + count_lt(s, t.last()) + count_le(s, t.last()) + 1
    }
}

/// Extending `s` by one element raises the weight of each position of `t`
/// by its comparisons against the newcomer.
proof fn lemma_total_rank2_grow_s(s: Seq<u64>, t: Seq<u64>, x: u64)
    ensures
        total_rank2(s.push(x), t) == total_rank2(s, t) + count_where(t, at_or_above(x))
            + count_where(t, above(x)),
    decreases t.len(),
{
    if t.len() > 0 {
        lemma_total_rank2_grow_s(s, t.drop_last(), x);
        lemma_count_push(s, below(t.last()), x);
        lemma_count_push(s, at_or_below(t.last()), x);
        assert(count_where(t, at_or_above(x)) == count_where(t.drop_last(), at_or_above(x)) + (
        if t.last() >= x {
            1nat
        } else {
            0nat
        })) by {
            assert(t.drop_last().push(t.last()) =~= t);
            lemma_count_push(t.drop_last(), at_or_above(x), t.last());
        }
        assert(count_where(t, above(x)) == count_where(
            t.drop_last(),
            above(x),
        ) + (if t.last() > x {
            1nat
        } else {
            0nat
        })) by {
            assert(t.drop_last().push(t.last()) =~= t);
            lemma_count_push(t.drop_last(), above(x), t.last());
        }
    }
}

/// The total comparison weight of a buffer against itself is `n(n+1)`.
proof fn lemma_total_rank2_square(s: Seq<u64>)
    ensures
        total_rank2(s, s) == s.len() * (s.len() + 1),
    decreases s.len(),
{
    if s.len() == 0 {
    } else {
        let u = s.drop_last();
        let x = s.last();
        let n = u.len() as int;
        lemma_total_rank2_square(u);
        assert(u.push(x) =~= s);
        lemma_total_rank2_grow_s(u, u, x);
        assert(total_rank2(s, u) == total_rank2(u, u) + count_where(u, at_or_above(x))
            + count_where(u, above(x)));
        lemma_count_push(u, below(x), x);
        lemma_count_push(u, at_or_below(x), x);
        assert(total_rank2(s, s) == total_rank2(s, u) + count_lt(s, x) + count_le(s, x) + 1);
        lemma_counts_complement(u, x);
        assert(count_lt(u, x) + count_where(u, at_or_above(x)) == n);
        assert(count_le(u, x) + count_where(u, above(x)) == n);
        assert(total_rank2(s, s) == n * (n + 1) + 2 * n + 2);
        assert(n * (n + 1) + 2 * n + 2 == (n + 1) * (n + 2)) by (nonlinear_arith);
    }
}

/// A prefix of an `Average` rank vector sums to the prefix's total
/// comparison weight.
proof fn lemma_average_rank_sum_prefix(s: Seq<u64>, r: Seq<u64>, k: int)
    requires
        r.len() == s.len(),
        forall|j: int|
            0 <= j < s.len() ==> (#[trigger] r[j]) as int == rank_doubled(
                s,
                j,
                RankTieBreaker::Average,
            ),
        0 <= k <= s.len(),
    ensures
        sum_of(r.take(k)) == total_rank2(s, s.take(k)),
    decreases k,
{
    if k > 0 {
        lemma_average_rank_sum_prefix(s, r, k - 1);
        assert(r.take(k).drop_last() =~= r.take(k - 1));
        assert(s.take(k).drop_last() =~= s.take(k - 1));
        assert(r.take(k).last() == r[k - 1]);
        assert(s.take(k).last() == s[k - 1]);
    }
}

/// Under the `Average` tie break, the doubled ranks of any buffer of
/// length `n` sum to `2 * (1 + 2 + … + n) = n(n+1)`, however many values
/// tie: the ranks themselves always sum to `n(n+1)/2`.
pub proof fn lemma_average_rank_sum(s: Seq<u64>, r: Seq<u64>)
    requires
        r.len() == s.len(),
        forall|j: int|
            0 <= j < s.len() ==> (#[trigger] r[j]) as int == rank_doubled(
                s,
                j,
                RankTieBreaker::Average,
            ),
    ensures
        sum_of(r) == s.len() * (s.len() + 1),
{
    lemma_average_rank_sum_prefix(s, r, s.len() as int);
    assert(r.take(r.len() as int) =~= r);
    assert(s.take(s.len() as int) =~= s);
    lemma_total_rank2_square(s);
}

/// Under the `First` tie break, every rank is a whole number between `1`
/// and `n` and no two positions ever receive the same rank — the rank
/// vector is a permutation of `1..n`, even when values repeat.
pub proof fn lemma_first_ranks_distinct(s: Seq<u64>, r: Seq<u64>)
    requires
        s.len() <= usize::MAX,
        r.len() == s.len(),
        forall|j: int|
            0 <= j < s.len() ==> (#[trigger] r[j]) as int == rank_doubled(
                s,
                j,
                RankTieBreaker::First,
            ),
    ensures
        forall|j: int| 0 <= j < s.len() ==> 2 <= (#[trigger] r[j]) as int <= 2 * s.len(),
        forall|j: int| 0 <= j < s.len() ==> (#[trigger] r[j]) as int % 2 == 0,
        forall|j1: int, j2: int| 0 <= j1 < j2 < s.len() ==> r[j1] != r[j2],
{
    let z = indexed(s);
    let everything = |x: (u64, usize)| true;
    assert forall|j: int| 0 <= j < s.len() implies count_first(s, j) < s.len() by {
        lemma_count_all(z, everything);
        assert(z[j] == (s[j], j as usize));
        lemma_count_strict_monotone(z, lex_below((s[j], j as usize)), everything, j);
    }
    assert forall|j1: int, j2: int| 0 <= j1 < j2 < s.len() implies r[j1] != r[j2] by {
        let q1 = (s[j1], j1 as usize);
        let q2 = (s[j2], j2 as usize);
        assert(z[j1] == q1 && z[j2] == q2);
        if pair_lt(q1, q2, true) {
            assert forall|x: (u64, usize)| #[trigger]
                lex_below(q1)(x) implies lex_below(q2)(x) by {}
            lemma_count_strict_monotone(z, lex_below(q1), lex_below(q2), j1);
        } else {
            assert(pair_lt(q2, q1, true));
            assert forall|x: (u64, usize)| #[trigger]
                lex_below(q2)(x) implies lex_below(q1)(x) by {}
            lemma_count_strict_monotone(z, lex_below(q2), lex_below(q1), j2);
        }
    }
}

/// Under the `First` tie break, every rank between `1` and `n` is attained
/// by some position: together with their distinctness, the `First` ranks
/// of a buffer of length `n` are exactly a permutation of `1..n`.
pub proof fn lemma_first_ranks_surjective(s: Seq<u64>, r: Seq<u64>, i: int)
    requires
        s.len() <= usize::MAX,
        r.len() == s.len(),
        forall|j: int|
            0 <= j < s.len() ==> (#[trigger] r[j]) as int == rank_doubled(
                s,
                j,
                RankTieBreaker::First,
            ),
        0 <= i < s.len(),
    ensures
        exists|j: int| 0 <= j < s.len() && (#[trigger] r[j]) as int == 2 * i + 2,
{
    broadcast use group_to_multiset_ensures;

    let z0 = indexed(s);
    let lex_le = |a: (u64, usize), b: (u64, usize)| !pair_lt(b, a, true);
    assert(total_ordering(lex_le)) by {
        assert forall|a: (u64, usize), b: (u64, usize)| #[trigger]
            lex_le(a, b) && #[trigger] lex_le(b, a) implies a == b by {
            assert(a.0 == b.0 && a.1 == b.1);
        }
    }
    let z = z0.sort_by(lex_le);
    z0.lemma_sort_by_ensures(lex_le);
    assert(z.len() == z0.len()) by {
        assert(z.to_multiset().len() == z.len());
        assert(z0.to_multiset().len() == z0.len());
    }
    assert(z0.no_duplicates()) by {
        assert forall|x: int, y: int|
            0 <= x < z0.len() && 0 <= y < z0.len() && x != y implies z0[x] != z0[y] by {
            assert(z0[x].1 == x as usize && z0[y].1 == y as usize);
        }
    }
    z0.lemma_multiset_has_no_duplicates();
    z.lemma_multiset_has_no_duplicates_conv();
    crate::perm::lemma_permutation_values(z0, z);
    assert(z0.contains(z[i]));
    let k = choose|k: int| 0 <= k < z0.len() && z0[k] == z[i];
    assert(z[i] == (s[k], k as usize));
    let q = (s[k], k as usize);
    lemma_count_permutation(z0, z, lex_below(q));
    lemma_count_split_at(z, i, lex_below(q));
    assert(count_where(z.take(i), lex_below(q)) == i) by {
        assert forall|x: int| 0 <= x < i implies lex_below(q)(z.take(i)[x]) by {
            assert(z.take(i)[x] == z[x]);
            assert(lex_le(z[x], z[i]));
            assert(z[x] != z[i]);
        }
        lemma_count_all(z.take(i), lex_below(q));
    }
    assert(count_where(z.skip(i), lex_below(q)) == 0) by {
        assert forall|y: int| 0 <= y < z.skip(i).len() implies !lex_below(q)(z.skip(i)[y]) by {
            assert(z.skip(i)[y] == z[i + y]);
            if y > 0 {
                assert(lex_le(z[i], z[i + y]));
            }
        }
        lemma_count_none(z.skip(i), lex_below(q));
    }
    assert(count_first(s, k) == i);
    assert(r[k] as int == 2 * i + 2);
}

} // verus!
