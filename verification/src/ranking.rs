//! The ranking layer.
//!
//! `ranks` assigns each original position of the buffer its one-based rank
//! in ascending value order, resolving tied values under one of four
//! policies. Ranks are half-integral under the `Average` policy, so the
//! crate returns every rank doubled: an entry `r` stands for the rank
//! `r / 2`.
//!
//! The specification of a rank is purely counting: the `Min` rank of a
//! position is one more than the number of strictly smaller values, the
//! `Max` rank is the number of values at most it, `Average` is the mean of
//! those two, and `First` counts predecessors in the (value, position)
//! lexicographic order, under which no two positions ever tie.

use vstd::prelude::*;

verus! {

use crate::counts::count_where;
use crate::counts::lemma_count_all;
use crate::counts::lemma_count_none;
use crate::counts::lemma_count_permutation;
use crate::counts::lemma_count_split_at;
use crate::order::at_or_below;
use crate::order::below;
use crate::order::count_le;
use crate::order::count_lt;
use crate::order::sorted;
use crate::perm::lemma_permutation_values;
use crate::sorting::pair_at;
use crate::sorting::pair_lt;
use crate::sorting::pairs_sorted;
use crate::sorting::quick_sort_all;
use crate::sorting::sort;
use crate::sorting::zip_view;

/// The four policies for assigning ranks to tied values.
#[derive(Clone, Copy, PartialEq, Eq, Structural, Debug)]
pub enum RankTieBreaker {
    /// Tied values all get the mean of the positions they span.
    Average,
    /// Tied values all get the first (smallest) position of their run.
    Min,
    /// Tied values all get the last (largest) position of their run.
    Max,
    /// Ties are broken by original position, so every rank is distinct.
    First,
}

/// Each value of `s` paired with its position: the pairs the `First`
/// policy orders.
pub open spec fn indexed(s: Seq<u64>) -> Seq<(u64, usize)> {
    Seq::new(s.len(), |k: int| (s[k], k as usize))
}

/// Holds of the pairs strictly lexicographically below `q`.
pub open spec fn lex_below(q: (u64, usize)) -> spec_fn((u64, usize)) -> bool {
    |x: (u64, usize)| pair_lt(x, q, true)
}

/// How many positions of `s` come strictly before position `j` in the
/// (value, position) lexicographic order.
pub open spec fn count_first(s: Seq<u64>, j: int) -> nat {
    count_where(indexed(s), lex_below((s[j], j as usize)))
}

/// Twice the rank of position `j` of `s` under the given policy.
pub open spec fn rank_doubled(s: Seq<u64>, j: int, tie_breaker: RankTieBreaker) -> int {
    match tie_breaker {
        RankTieBreaker::Average => count_lt(s, s[j]) + count_le(s, s[j]) + 1int,
        RankTieBreaker::Min => 2int * (count_lt(s, s[j]) + 1int),
        RankTieBreaker::Max => 2int * count_le(s, s[j]),
        RankTieBreaker::First => 2int * (count_first(s, j) + 1int),
    }
}

/// Twice the rank that every member of a run of equal values spanning the
/// zero-based sorted positions `[a, b)` receives.
pub open spec fn run_rank_doubled(a: int, b: int, tie_breaker: RankTieBreaker) -> int {
    match tie_breaker {
        RankTieBreaker::Average => a + b + 1,
        RankTieBreaker::Min => 2 * (a + 1),
        RankTieBreaker::Max => 2 * b,
        RankTieBreaker::First => 0,
    }
}

/// Traces the pair at position `i` of the reordered buffers back to the
/// original position that carried it.
proof fn pair_origin(orig: Seq<u64>, p: Seq<u64>, s: Seq<usize>, i: int) -> (k: int)
    requires
        p.len() == s.len(),
        orig.len() == p.len(),
        zip_view(p, s).to_multiset() == indexed(orig).to_multiset(),
        0 <= i < p.len(),
    ensures
        0 <= k < orig.len(),
        s[i] == k as usize,
        orig[k] == p[i],
{
    lemma_permutation_values(indexed(orig), zip_view(p, s));
    assert(zip_view(p, s)[i] == (p[i], s[i]));
    assert(indexed(orig).contains((p[i], s[i])));
    let k = choose|k: int| 0 <= k < indexed(orig).len() && indexed(orig)[k] == (p[i], s[i]);
    assert(indexed(orig)[k] == (orig[k], k as usize));
    k
}

/// After a lockstep reordering, the index buffer still holds `n` distinct
/// positions: no original position is duplicated or lost.
proof fn lemma_index_injective(orig: Seq<u64>, p: Seq<u64>, s: Seq<usize>)
    requires
        p.len() == s.len(),
        orig.len() == p.len(),
        orig.len() <= usize::MAX,
        zip_view(p, s).to_multiset() == indexed(orig).to_multiset(),
    ensures
        forall|t1: int, t2: int| 0 <= t1 < t2 < s.len() ==> s[t1] != s[t2],
        forall|t: int| 0 <= t < s.len() ==> (#[trigger] s[t]) < orig.len(),
{
    assert(indexed(orig).no_duplicates()) by {
        assert forall|i: int, j: int|
            0 <= i < orig.len() && 0 <= j < orig.len() && i != j implies indexed(orig)[i]
            != indexed(orig)[j] by {
            assert(indexed(orig)[i].1 == i as usize && indexed(orig)[j].1 == j as usize);
        }
    }
    indexed(orig).lemma_multiset_has_no_duplicates();
    zip_view(p, s).lemma_multiset_has_no_duplicates_conv();
    assert forall|t: int| 0 <= t < s.len() implies (#[trigger] s[t]) < orig.len() by {
        let k = pair_origin(orig, p, s, t);
    }
    assert forall|t1: int, t2: int| 0 <= t1 < t2 < s.len() implies s[t1] != s[t2] by {
        if s[t1] == s[t2] {
            let k1 = pair_origin(orig, p, s, t1);
            let k2 = pair_origin(orig, p, s, t2);
            assert(k1 == k2);
            assert(p[t1] == orig[k1] && p[t2] == orig[k2]);
            assert(zip_view(p, s)[t1] == zip_view(p, s)[t2]);
        }
    }
}

/// Finds the position of the reordered index buffer that carries the
/// original position `j`.
proof fn index_cover(orig: Seq<u64>, p: Seq<u64>, s: Seq<usize>, j: int) -> (i: int)
    requires
        p.len() == s.len(),
        orig.len() == p.len(),
        zip_view(p, s).to_multiset() == indexed(orig).to_multiset(),
        0 <= j < orig.len(),
    ensures
        0 <= i < s.len(),
        s[i] == j as usize,
{
    lemma_permutation_values(zip_view(p, s), indexed(orig));
    assert(indexed(orig)[j] == (orig[j], j as usize));
    assert(zip_view(p, s).contains((orig[j], j as usize)));
    let i = choose|i: int|
        0 <= i < zip_view(p, s).len() && zip_view(p, s)[i] == (orig[j], j as usize);
    assert(zip_view(p, s)[i] == (p[i], s[i]));
    i
}

/// A maximal run `[a, b)` of one value in the sorted buffer fixes the
/// counts of that value in the original buffer — and with them the rank
/// that each member of the run receives under every averaging policy.
proof fn lemma_run_ranks(
    orig: Seq<u64>,
    p: Seq<u64>,
    s: Seq<usize>,
    a: int,
    b: int,
    tie_breaker: RankTieBreaker,
)
    requires
        tie_breaker != RankTieBreaker::First,
        p.len() == s.len(),
        orig.len() == p.len(),
        orig.len() <= usize::MAX,
        p.to_multiset() == orig.to_multiset(),
        zip_view(p, s).to_multiset() == indexed(orig).to_multiset(),
        sorted(p),
        0 <= a < b <= p.len(),
        forall|k: int| a <= k < b ==> p[k] == p[a],
        a == 0 || p[a - 1] != p[a],
        b == p.len() || p[b] != p[a],
    ensures
        forall|t: int|
            a <= t < b ==> rank_doubled(orig, #[trigger] s[t] as int, tie_breaker)
                == run_rank_doubled(a, b, tie_breaker),
{
    let v = p[a];
    assert(count_lt(p, v) == a) by {
        lemma_count_split_at(p, a, below(v));
        lemma_count_all(p.take(a), below(v));
        lemma_count_none(p.skip(a), below(v));
    }
    assert(count_le(p, v) == b) by {
        lemma_count_split_at(p, b, at_or_below(v));
        lemma_count_all(p.take(b), at_or_below(v));
        lemma_count_none(p.skip(b), at_or_below(v));
    }
    lemma_count_permutation(p, orig, below(v));
    lemma_count_permutation(p, orig, at_or_below(v));
    assert forall|t: int| a <= t < b implies rank_doubled(
        orig,
        #[trigger] s[t] as int,
        tie_breaker,
    ) == run_rank_doubled(a, b, tie_breaker) by {
        let k = pair_origin(orig, p, s, t);
        assert(s[t] as int == k);
        assert(orig[s[t] as int] == v);
    }
}

/// Under the lexicographic (value, position) order of the `First` policy,
/// the pair at sorted position `i` has exactly `i` predecessors.
proof fn lemma_first_rank_at(orig: Seq<u64>, p: Seq<u64>, s: Seq<usize>, i: int)
    requires
        p.len() == s.len(),
        orig.len() == p.len(),
        orig.len() <= usize::MAX,
        zip_view(p, s).to_multiset() == indexed(orig).to_multiset(),
        pairs_sorted(p, s, 0, p.len() - 1, true),
        0 <= i < p.len(),
    ensures
        s[i] < orig.len(),
        orig[s[i] as int] == p[i],
        rank_doubled(orig, s[i] as int, RankTieBreaker::First) == 2 * i + 2,
{
    lemma_index_injective(orig, p, s);
    let k = pair_origin(orig, p, s, i);
    let q = (orig[k], k as usize);
    let z = zip_view(p, s);
    assert(q == (p[i], s[i]));
    assert(z[i] == q);
    lemma_count_permutation(indexed(orig), z, lex_below(q));
    lemma_count_split_at(z, i, lex_below(q));
    assert(count_where(z.take(i), lex_below(q)) == i) by {
        assert forall|x: int| 0 <= x < i implies lex_below(q)(z.take(i)[x]) by {
            assert(z.take(i)[x] == (p[x], s[x]));
            assert(!pair_lt(pair_at(p, s, i), pair_at(p, s, x), true));
            assert(s[x] != s[i]);
        }
        lemma_count_all(z.take(i), lex_below(q));
    }
    assert(count_where(z.skip(i), lex_below(q)) == 0) by {
        assert forall|y: int| 0 <= y < z.skip(i).len() implies !lex_below(q)(z.skip(i)[y]) by {
            assert(z.skip(i)[y] == (p[i + y], s[i + y]));
            if y > 0 {
                assert(!pair_lt(pair_at(p, s, i + y), pair_at(p, s, i), true));
            }
        }
        lemma_count_none(z.skip(i), lex_below(q));
    }
    assert(count_first(orig, k) == i);
}

/// Writes the shared doubled rank of the run `[a, b)` of sorted positions
/// into the slots of the original positions that the run covers.
pub fn handle_rank_ties(
    ranks: &mut Vec<u64>,
    index: &Vec<usize>,
    a: usize,
    b: usize,
    tie_breaker: RankTieBreaker,
)
    requires
        a < b <= index.len(),
        old(ranks).len() == index.len(),
        2 * index@.len() + 2 <= u64::MAX,
        forall|t: int| a <= t < b ==> (#[trigger] index@[t]) < index@.len(),
        forall|t1: int, t2: int| a <= t1 < t2 < b ==> index@[t1] != index@[t2],
        tie_breaker != RankTieBreaker::First,
    ensures
        final(ranks)@.len() == old(ranks)@.len(),
        forall|t: int|
            a <= t < b ==> final(ranks)@[#[trigger] index@[t] as int] as int == run_rank_doubled(
                a as int,
                b as int,
                tie_breaker,
            ),
        forall|j: int|
            0 <= j < old(ranks)@.len() && (forall|t: int| a <= t < b ==> index@[t] as int != j)
                ==> final(ranks)@[j] == old(ranks)@[j],
{
    let rank2: u64 = match tie_breaker {
        RankTieBreaker::Average => a as u64 + b as u64 + 1,
        RankTieBreaker::Min => 2 * (a as u64 + 1),
        RankTieBreaker::Max => 2 * (b as u64),
        RankTieBreaker::First => 0,
    };
    let mut t = a;
    while t < b
        invariant
            a <= t <= b <= index@.len(),
            ranks@.len() == old(ranks)@.len(),
            old(ranks)@.len() == index@.len(),
            rank2 as int == run_rank_doubled(a as int, b as int, tie_breaker),
            forall|u: int| a <= u < b ==> (#[trigger] index@[u]) < index@.len(),
            forall|u1: int, u2: int| a <= u1 < u2 < b ==> index@[u1] != index@[u2],
            forall|u: int|
                a <= u < t ==> ranks@[#[trigger] index@[u] as int] as int == run_rank_doubled(
                    a as int,
                    b as int,
                    tie_breaker,
                ),
            forall|j: int|
                0 <= j < ranks@.len() && (forall|u: int| a <= u < b ==> index@[u] as int != j)
                    ==> ranks@[j] == old(ranks)@[j],
        decreases b - t,
    {
        let pos = index[t];
        ranks.set(pos, rank2);
        t = t + 1;
    }
}

/// The doubled one-based rank of every original position of the buffer,
/// under the chosen tie-break policy; the buffer itself is reordered in
/// place as a side effect. An empty buffer yields an empty rank vector.
pub fn ranks(data: &mut Vec<u64>, tie_breaker: RankTieBreaker) -> (r: Vec<u64>)
    requires
        2 * old(data)@.len() + 2 <= u64::MAX,
    ensures
        final(data)@.len() == old(data)@.len(),
        final(data)@.to_multiset() == old(data)@.to_multiset(),
        r@.len() == old(data)@.len(),
        forall|j: int|
            0 <= j < old(data)@.len() ==> (#[trigger] r@[j]) as int == rank_doubled(
                old(data)@,
                j,
                tie_breaker,
            ),
{
    let ghost orig = data@;
    let n = data.len();
    let mut rank_slots: Vec<u64> = Vec::new();
    let mut c: usize = 0;
    while c < n
        invariant
            c <= n,
            rank_slots@.len() == c,
        decreases n - c,
    {
        rank_slots.push(0);
        c = c + 1;
    }
    let mut index: Vec<usize> = Vec::new();
    let mut c2: usize = 0;
    while c2 < n
        invariant
            c2 <= n,
            index@.len() == c2,
            forall|t: int| 0 <= t < c2 ==> index@[t] == t,
        decreases n - c2,
    {
        index.push(c2);
        c2 = c2 + 1;
    }
    if n == 0 {
        return rank_slots;
    }
    proof {
        assert(zip_view(data@, index@) =~= indexed(orig));
    }
    match tie_breaker {
        RankTieBreaker::First => {
            quick_sort_all(data, &mut index, 0, n - 1);
            proof {
                lemma_index_injective(orig, data@, index@);
            }
            let mut i: usize = 0;
            while i < n
                invariant
                    n == orig.len(),
                    n == data@.len(),
                    n == index@.len(),
                    2 * n + 2 <= u64::MAX,
                    rank_slots@.len() == n,
                    data@.to_multiset() == orig.to_multiset(),
                    zip_view(data@, index@).to_multiset() == indexed(orig).to_multiset(),
                    pairs_sorted(data@, index@, 0, n - 1, true),
                    forall|t1: int, t2: int| 0 <= t1 < t2 < n ==> index@[t1] != index@[t2],
                    forall|t: int| 0 <= t < n ==> (#[trigger] index@[t]) < n,
                    i <= n,
                    forall|t: int|
                        0 <= t < i ==> (rank_slots@[#[trigger] index@[t] as int]) as int
                            == rank_doubled(orig, index@[t] as int, RankTieBreaker::First),
                decreases n - i,
            {
                proof {
                    lemma_first_rank_at(orig, data@, index@, i as int);
                }
                let pos = index[i];
                rank_slots.set(pos, 2 * (i as u64) + 2);
                i = i + 1;
            }
            proof {
                assert forall|j: int| 0 <= j < n implies (#[trigger] rank_slots@[j]) as int
                    == rank_doubled(orig, j, tie_breaker) by {
                    let t = index_cover(orig, data@, index@, j);
                    assert(index@[t] as int == j);
                }
            }
            rank_slots
        },
        _ => {
            sort(data, &mut index);
            proof {
                lemma_index_injective(orig, data@, index@);
            }
            let mut prev: usize = 0;
            let mut i: usize = 1;
            while i < n
                invariant
                    n == orig.len(),
                    n == data@.len(),
                    n == index@.len(),
                    2 * n + 2 <= u64::MAX,
                    rank_slots@.len() == n,
                    tie_breaker != RankTieBreaker::First,
                    data@.to_multiset() == orig.to_multiset(),
                    zip_view(data@, index@).to_multiset() == indexed(orig).to_multiset(),
                    sorted(data@),
                    forall|t1: int, t2: int| 0 <= t1 < t2 < n ==> index@[t1] != index@[t2],
                    forall|t: int| 0 <= t < n ==> (#[trigger] index@[t]) < n,
                    prev < i <= n,
                    forall|k: int| prev <= k < i ==> data@[k] == data@[prev as int],
                    prev == 0 || data@[prev - 1] != data@[prev as int],
                    forall|t: int|
                        0 <= t < prev ==> (rank_slots@[#[trigger] index@[t] as int]) as int
                            == rank_doubled(orig, index@[t] as int, tie_breaker),
                decreases n - i,
            {
                if data[i] != data[prev] {
                    proof {
                        lemma_run_ranks(orig, data@, index@, prev as int, i as int, tie_breaker);
                    }
                    let ghost before = rank_slots@;
                    if i == prev + 1 {
                        let pos = index[prev];
                        rank_slots.set(pos, 2 * (i as u64));
                    } else {
                        handle_rank_ties(&mut rank_slots, &index, prev, i, tie_breaker);
                    }
                    proof {
                        assert forall|t: int| 0 <= t < i implies (rank_slots@[#[trigger] index@[t]
                            as int]) as int == rank_doubled(orig, index@[t] as int, tie_breaker) by {
                            if t < prev {
                                assert forall|u: int| prev <= u < i implies index@[u] as int
                                    != index@[t] as int by {
                                    assert(index@[t] != index@[u]);
                                }
                                assert(rank_slots@[index@[t] as int] == before[index@[t] as int]);
                            } else {
                                assert((rank_slots@[index@[t] as int]) as int == run_rank_doubled(
                                    prev as int,
                                    i as int,
                                    tie_breaker,
                                ));
                            }
                        }
                    }
                    prev = i;
                }
                i = i + 1;
            }
            proof {
                lemma_run_ranks(orig, data@, index@, prev as int, n as int, tie_breaker);
            }
            let ghost before = rank_slots@;
            handle_rank_ties(&mut rank_slots, &index, prev, n, tie_breaker);
            proof {
                assert forall|t: int| 0 <= t < n implies (rank_slots@[#[trigger] index@[t]
                    as int]) as int == rank_doubled(orig, index@[t] as int, tie_breaker) by {
                    if t < prev {
                        assert forall|u: int| prev <= u < n implies index@[u] as int != index@[t]
                            as int by {
                            assert(index@[t] != index@[u]);
                        }
                        assert(rank_slots@[index@[t] as int] == before[index@[t] as int]);
                    } else {
                        assert((rank_slots@[index@[t] as int]) as int == run_rank_doubled(
                            prev as int,
                            n as int,
                            tie_breaker,
                        ));
                    }
                }
                assert forall|j: int| 0 <= j < n implies (#[trigger] rank_slots@[j]) as int
                    == rank_doubled(orig, j, tie_breaker) by {
                    let t = index_cover(orig, data@, index@, j);
                    assert(index@[t] as int == j);
                }
            }
            rank_slots
        },
    }
}

} // verus!
