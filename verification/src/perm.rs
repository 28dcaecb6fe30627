//! Permutation helpers shared by the selection and sort engines.
//!
//! Every reordering those engines perform is a composition of two-element
//! swaps, so one lemma — a swap leaves the multiset of elements unchanged —
//! carries the whole "the buffer afterwards is a permutation of the buffer
//! before" side of their contracts.

use vstd::prelude::*;

verus! {

use vstd::seq_lib::group_to_multiset_ensures;
use vstd::seq_lib::lemma_multiset_commutative;

/// Exchanging the elements at positions `i` and `j` preserves the multiset.
pub proof fn lemma_swap_multiset<T>(s: Seq<T>, i: int, j: int)
    requires
        0 <= i < s.len(),
        0 <= j < s.len(),
    ensures
        s.update(i, s[j]).update(j, s[i]).to_multiset() == s.to_multiset(),
{
    broadcast use vstd::multiset::group_multiset_axioms;

    if i == j {
        assert(s.update(i, s[j]).update(j, s[i]) =~= s);
    } else {
        let lo = if i < j {
            i
        } else {
            j
        };
        let hi = if i < j {
            j
        } else {
            i
        };
        let t = s.update(i, s[j]).update(j, s[i]);
        let a = s.take(lo);
        let b = s.subrange(lo + 1, hi);
        let c = s.skip(hi + 1);
        let x = seq![s[lo]];
        let y = seq![s[hi]];
        assert(s =~= a + x + b + y + c);
        assert(t =~= a + y + b + x + c);
        lemma_concat5_multiset(a, x, b, y, c);
        lemma_concat5_multiset(a, y, b, x, c);
        assert(x.to_multiset().add(b.to_multiset()).add(y.to_multiset()) =~= y.to_multiset().add(
            b.to_multiset(),
        ).add(x.to_multiset()));
        assert(a.to_multiset().add(x.to_multiset()).add(b.to_multiset()).add(y.to_multiset()).add(
            c.to_multiset(),
        ) =~= a.to_multiset().add(y.to_multiset()).add(b.to_multiset()).add(x.to_multiset()).add(
            c.to_multiset(),
        ));
    }
}

/// The multiset of a five-way concatenation is the sum of the pieces.
proof fn lemma_concat5_multiset<T>(a: Seq<T>, b: Seq<T>, c: Seq<T>, d: Seq<T>, e: Seq<T>)
    ensures
        (a + b + c + d + e).to_multiset() == a.to_multiset().add(b.to_multiset()).add(
            c.to_multiset(),
        ).add(d.to_multiset()).add(e.to_multiset()),
{
    lemma_multiset_commutative(a + b + c + d, e);
    lemma_multiset_commutative(a + b + c, d);
    lemma_multiset_commutative(a + b, c);
    lemma_multiset_commutative(a, b);
}

/// Every element of a permutation of `s` occurs somewhere in `s`.
pub proof fn lemma_permutation_values<T>(s: Seq<T>, t: Seq<T>)
    requires
        s.to_multiset() == t.to_multiset(),
    ensures
        forall|a: int| 0 <= a < t.len() ==> s.contains(#[trigger] t[a]),
{
    broadcast use group_to_multiset_ensures;

    assert forall|a: int| 0 <= a < t.len() implies s.contains(#[trigger] t[a]) by {
        assert(t.contains(t[a]));
        assert(t.to_multiset().count(t[a]) > 0);
    }
}

/// A reordering that only touches the window `[low, high]` permutes it.
pub proof fn lemma_untouched_outside_window<T>(o: Seq<T>, d: Seq<T>, low: int, high: int)
    requires
        o.len() == d.len(),
        0 <= low <= high < o.len(),
        d.to_multiset() == o.to_multiset(),
        forall|k: int| 0 <= k < o.len() && !(low <= k <= high) ==> d[k] == o[k],
    ensures
        d.subrange(low, high + 1).to_multiset() == o.subrange(low, high + 1).to_multiset(),
{
    broadcast use vstd::multiset::group_multiset_axioms;

    let ow = o.subrange(low, high + 1);
    let dw = d.subrange(low, high + 1);
    let pre = o.take(low);
    let post = o.skip(high + 1);
    assert(o =~= pre + ow + post);
    assert(d =~= pre + dw + post);
    lemma_multiset_commutative(pre + ow, post);
    lemma_multiset_commutative(pre, ow);
    lemma_multiset_commutative(pre + dw, post);
    lemma_multiset_commutative(pre, dw);
    assert forall|v: T| #[trigger] dw.to_multiset().count(v) == ow.to_multiset().count(v) by {
        assert(o.to_multiset().count(v) == pre.to_multiset().count(v) + ow.to_multiset().count(v)
            + post.to_multiset().count(v));
        assert(d.to_multiset().count(v) == pre.to_multiset().count(v) + dw.to_multiset().count(v)
            + post.to_multiset().count(v));
    }
    assert(dw.to_multiset() =~= ow.to_multiset());
}

/// Points each element of a permuted window back to a position of the old
/// window that held the same value.
pub proof fn window_source<T>(o: Seq<T>, d: Seq<T>, low: int, high: int, x: int) -> (y: int)
    requires
        o.len() == d.len(),
        0 <= low <= x <= high < o.len(),
        d.subrange(low, high + 1).to_multiset() == o.subrange(low, high + 1).to_multiset(),
    ensures
        low <= y <= high,
        o[y] == d[x],
{
    let ow = o.subrange(low, high + 1);
    let dw = d.subrange(low, high + 1);
    lemma_permutation_values(ow, dw);
    assert(dw.len() == high + 1 - low);
    assert(0 <= x - low < dw.len());
    assert(dw[x - low] == d[x]);
    assert(ow.contains(dw[x - low]));
    let k = choose|k: int| 0 <= k < ow.len() && ow[k] == dw[x - low];
    assert(ow[k] == o[low + k]);
    low + k
}

/// Points an element of a twice-permuted window back to its position at
/// the start: the first permutation acted on `[low, high]`, the second only
/// on the nested window `[rl, rr]`, which may be empty.
pub proof fn nested_window_source<T>(
    o: Seq<T>,
    m: Seq<T>,
    d: Seq<T>,
    low: int,
    high: int,
    rl: int,
    rr: int,
    x: int,
) -> (y: int)
    requires
        o.len() == m.len(),
        m.len() == d.len(),
        0 <= low <= x <= high < o.len(),
        low <= rl,
        rr <= high,
        m.subrange(low, high + 1).to_multiset() == o.subrange(low, high + 1).to_multiset(),
        rl <= rr ==> d.subrange(rl, rr + 1).to_multiset() == m.subrange(rl, rr + 1).to_multiset(),
        forall|k: int| 0 <= k < d.len() && !(rl <= k <= rr) ==> d[k] == m[k],
    ensures
        low <= y <= high,
        o[y] == d[x],
{
    let mid: int = if rl <= x <= rr {
        window_source(m, d, rl, rr, x)
    } else {
        x
    };
    window_source(o, m, low, high, mid)
}

/// Exchanges the elements at positions `i` and `j` of `v`.
pub fn swap_elems<T: Copy>(v: &mut Vec<T>, i: usize, j: usize)
    requires
        i < old(v).len(),
        j < old(v).len(),
    ensures
        final(v)@ == old(v)@.update(i as int, old(v)@[j as int]).update(j as int, old(v)@[i as int]),
        final(v)@.to_multiset() == old(v)@.to_multiset(),
        final(v)@.len() == old(v)@.len(),
        final(v)@[i as int] == old(v)@[j as int],
        final(v)@[j as int] == old(v)@[i as int],
        forall|k: int| 0 <= k < final(v)@.len() && k != i && k != j ==> final(v)@[k] == old(v)@[k],
{
    let a = v[i];
    let b = v[j];
    v.set(i, b);
    v.set(j, a);
    proof {
        lemma_swap_multiset(old(v)@, i as int, j as int);
    }
}

} // verus!
