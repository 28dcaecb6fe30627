//! Counting elements of a sequence that satisfy a predicate.
//!
//! `count_where` is the measuring stick for every contract in this crate:
//! "v is the k-th smallest element of s" is expressed by counting how many
//! elements of `s` lie strictly below `v` and how many lie at or below `v`.
//! The lemmas here establish the facts the rest of the crate leans on: the
//! count splits over concatenation, is bounded by the length, respects
//! pointwise implication of predicates, and is invariant under permutation.

use vstd::prelude::*;

verus! {

use vstd::seq_lib::group_to_multiset_ensures;

/// How many elements of `s` satisfy `p`.
pub open spec fn count_where<T>(s: Seq<T>, p: spec_fn(T) -> bool) -> nat
    decreases s.len(),
{
    if s.len() == 0 {
        0
    } else {
        count_where(s.drop_last(), p) + (if p(s.last()) {
            1nat
        } else {
            0nat
        })
    }
}

/// Appending one element adds its own contribution to the count.
pub proof fn lemma_count_push<T>(s: Seq<T>, p: spec_fn(T) -> bool, x: T)
    ensures
        count_where(s.push(x), p) == count_where(s, p) + (if p(x) {
            1nat
        } else {
            0nat
        }),
{
    assert(s.push(x).drop_last() =~= s);
}

/// A one-element sequence counts exactly its element's contribution.
pub proof fn lemma_count_singleton<T>(x: T, p: spec_fn(T) -> bool)
    ensures
        count_where(seq![x], p) == (if p(x) {
            1nat
        } else {
            0nat
        }),
{
    let e = Seq::<T>::empty();
    assert(count_where(e, p) == 0);
    assert(seq![x].drop_last() =~= e);
}

/// The count distributes over concatenation.
pub proof fn lemma_count_split<T>(a: Seq<T>, b: Seq<T>, p: spec_fn(T) -> bool)
    ensures
        count_where(a + b, p) == count_where(a, p) + count_where(b, p),
    decreases b.len(),
{
    if b.len() == 0 {
        assert(a + b =~= a);
    } else {
        lemma_count_split(a, b.drop_last(), p);
        assert((a + b).drop_last() =~= a + b.drop_last());
        assert((a + b).last() == b.last());
    }
}

/// The count at index `k` splits into the part before and the part from `k` on.
pub proof fn lemma_count_split_at<T>(s: Seq<T>, k: int, p: spec_fn(T) -> bool)
    requires
        0 <= k <= s.len(),
    ensures
        count_where(s, p) == count_where(s.take(k), p) + count_where(s.skip(k), p),
{
    assert(s =~= s.take(k) + s.skip(k));
    lemma_count_split(s.take(k), s.skip(k), p);
}

/// No count exceeds the length of the sequence.
pub proof fn lemma_count_le_len<T>(s: Seq<T>, p: spec_fn(T) -> bool)
    ensures
        count_where(s, p) <= s.len(),
    decreases s.len(),
{
    if s.len() > 0 {
        lemma_count_le_len(s.drop_last(), p);
    }
}

/// If no element satisfies the predicate, the count is zero.
pub proof fn lemma_count_none<T>(s: Seq<T>, p: spec_fn(T) -> bool)
    requires
        forall|i: int| 0 <= i < s.len() ==> !p(s[i]),
    ensures
        count_where(s, p) == 0,
    decreases s.len(),
{
    if s.len() > 0 {
        lemma_count_none(s.drop_last(), p);
    }
}

/// If every element satisfies the predicate, the count is the length.
pub proof fn lemma_count_all<T>(s: Seq<T>, p: spec_fn(T) -> bool)
    requires
        forall|i: int| 0 <= i < s.len() ==> p(s[i]),
    ensures
        count_where(s, p) == s.len(),
    decreases s.len(),
{
    if s.len() > 0 {
        lemma_count_all(s.drop_last(), p);
    }
}

/// A pointwise-weaker predicate never counts more elements.
pub proof fn lemma_count_monotone<T>(s: Seq<T>, p: spec_fn(T) -> bool, q: spec_fn(T) -> bool)
    requires
        forall|x: T| #[trigger] p(x) ==> q(x),
    ensures
        count_where(s, p) <= count_where(s, q),
    decreases s.len(),
{
    if s.len() > 0 {
        lemma_count_monotone(s.drop_last(), p, q);
    }
}

/// A strictly weaker predicate, witnessed at index `i`, counts strictly more.
pub proof fn lemma_count_strict_monotone<T>(
    s: Seq<T>,
    p: spec_fn(T) -> bool,
    q: spec_fn(T) -> bool,
    i: int,
)
    requires
        forall|x: T| #[trigger] p(x) ==> q(x),
        0 <= i < s.len(),
        q(s[i]),
        !p(s[i]),
    ensures
        count_where(s, p) < count_where(s, q),
{
    lemma_count_split_at(s, i, p);
    lemma_count_split_at(s, i, q);
    lemma_count_monotone(s.take(i), p, q);
    lemma_count_monotone(s.skip(i), p, q);
    assert(s.skip(i) =~= seq![s[i]] + s.skip(i + 1));
    lemma_count_split(seq![s[i]], s.skip(i + 1), p);
    lemma_count_split(seq![s[i]], s.skip(i + 1), q);
    lemma_count_monotone(s.skip(i + 1), p, q);
    lemma_count_singleton(s[i], p);
    lemma_count_singleton(s[i], q);
}

/// Two predicates that partition all values have counts summing to the length.
pub proof fn lemma_count_complement<T>(s: Seq<T>, p: spec_fn(T) -> bool, q: spec_fn(T) -> bool)
    requires
        forall|x: T| #[trigger] q(x) <==> !#[trigger] p(x),
    ensures
        count_where(s, p) + count_where(s, q) == s.len(),
    decreases s.len(),
{
    if s.len() > 0 {
        lemma_count_complement(s.drop_last(), p, q);
    }
}

/// Sequences with the same multiset of elements have the same counts:
/// `count_where` cannot see the order of a sequence.
pub proof fn lemma_count_permutation<T>(s: Seq<T>, t: Seq<T>, p: spec_fn(T) -> bool)
    requires
        s.to_multiset() == t.to_multiset(),
    ensures
        count_where(s, p) == count_where(t, p),
    decreases s.len(),
{
    broadcast use group_to_multiset_ensures;

    assert(s.to_multiset().len() == s.len());
    assert(t.to_multiset().len() == t.len());
    if s.len() == 0 {
        assert(t.len() == 0);
    } else {
        let x = s.last();
        assert(s.contains(x));
        assert(t.to_multiset().count(x) > 0);
        assert(t.contains(x));
        let i = choose|i: int| 0 <= i < t.len() && t[i] == x;
        assert(s.drop_last() =~= s.remove(s.len() - 1));
        assert(s.remove(s.len() - 1).to_multiset() =~= s.to_multiset().remove(x));
        assert(t.remove(i).to_multiset() =~= t.to_multiset().remove(x));
        lemma_count_permutation(s.drop_last(), t.remove(i), p);
        assert(t =~= t.take(i) + (seq![x] + t.skip(i + 1)));
        assert(t.remove(i) =~= t.take(i) + t.skip(i + 1));
        lemma_count_split(t.take(i), seq![x] + t.skip(i + 1), p);
        lemma_count_split(seq![x], t.skip(i + 1), p);
        lemma_count_split(t.take(i), t.skip(i + 1), p);
        lemma_count_singleton(x, p);
    }
}

} // verus!
