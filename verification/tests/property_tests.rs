//! Scenario checks for the properties the crate's laws state in general:
//! extreme order statistics, median permutation invariance, quantile
//! endpoints, rank sums, `First`-rank distinctness, and sort round trips.

use statrs::quantiles::median_pair;
use statrs::quantiles::order_statistic;
use statrs::quantiles::quantile_neighbors;
use statrs::ranking::handle_rank_ties;
use statrs::ranking::ranks;
use statrs::ranking::RankTieBreaker;
use statrs::selection::max;
use statrs::selection::min;
use statrs::selection::select_inplace;
use statrs::sorting::quick_sort;
use statrs::sorting::quick_sort_all;
use statrs::sorting::sort;

const SIGN_BIT: u64 = 0x8000_0000_0000_0000;

fn key_of(x: f64) -> u64 {
    let x = if x == 0.0 { 0.0 } else { x };
    let b = x.to_bits();
    if b & SIGN_BIT != 0 {
        !b
    } else {
        b ^ SIGN_BIT
    }
}

fn val_of(k: u64) -> f64 {
    if k & SIGN_BIT != 0 {
        f64::from_bits(k ^ SIGN_BIT)
    } else {
        f64::from_bits(!k)
    }
}

fn keys(data: &[f64]) -> Vec<u64> {
    data.iter().map(|&x| key_of(x)).collect()
}

fn ranks_f64(data: &[f64], tie_breaker: RankTieBreaker) -> Vec<f64> {
    let mut k = keys(data);
    ranks(&mut k, tie_breaker).into_iter().map(|r| r as f64 / 2.0).collect()
}

fn identity_index(n: usize) -> Vec<usize> {
    (0..n).collect()
}

/// A small deterministic pseudo-random sequence for bulk inputs.
fn scrambled(n: usize) -> Vec<u64> {
    let mut v = Vec::with_capacity(n);
    let mut state: u64 = 0x2545_f491_4f6c_dd1d;
    for _ in 0..n {
        state = state.wrapping_mul(6364136223846793005).wrapping_add(1442695040888963407);
        v.push(state >> 16);
    }
    v
}

#[test]
fn test_order_statistic_extremes_match_min_max() {
    let data = vec![31u64, 7, 7, 99, 0, 52, 18, 18, 18, 64, 3];
    let n = data.len();
    let mut buf = data.clone();
    assert_eq!(order_statistic(&mut buf, 1), min(&data));
    let mut buf = data.clone();
    assert_eq!(order_statistic(&mut buf, n), max(&data));
}

#[test]
fn test_median_is_permutation_invariant() {
    let data = [-1.0, 5.0, 0.0, -3.0, 10.0, -0.5, 4.0, 0.2, 1.0, 6.0];
    let mut shuffled = data;
    shuffled.reverse();
    shuffled.swap(2, 7);
    shuffled.swap(0, 4);
    let mut a = keys(&data);
    let mut b = keys(&shuffled);
    assert_eq!(median_pair(&mut a), median_pair(&mut b));
}

#[test]
fn test_quantile_endpoints_are_min_and_max() {
    // tau == 0 and tau == 1 route to the linear scans, so the keyed layer
    // must give the same answers as the selection engine's extremes
    let data = vec![5u64, 1, 9, 9, 2, 2, 8, 0, 14];
    let mut buf = data.clone();
    assert_eq!(order_statistic(&mut buf, 1).unwrap(), min(&data).unwrap());
    let mut buf = data.clone();
    assert_eq!(order_statistic(&mut buf, data.len()).unwrap(), max(&data).unwrap());
}

#[test]
fn test_average_rank_sum_is_triangular() {
    for data in [
        vec![3.0, 1.0, 4.0, 1.0, 5.0, 9.0, 2.0, 6.0, 5.0, 3.0, 5.0],
        vec![2.0; 13],
        vec![1.0],
        vec![0.5, -0.5, 0.5, -0.5],
    ] {
        let n = data.len() as f64;
        let total: f64 = ranks_f64(&data, RankTieBreaker::Average).iter().sum();
        assert_eq!(total, n * (n + 1.0) / 2.0);
    }
}

#[test]
fn test_first_ranks_are_a_permutation() {
    let data = vec![7.0, 7.0, 7.0, 1.0, 7.0, 1.0, 1.0, 9.0, 7.0];
    let mut r = ranks_f64(&data, RankTieBreaker::First);
    r.sort_by(|a, b| a.partial_cmp(b).unwrap());
    let expected: Vec<f64> = (1..=data.len()).map(|i| i as f64).collect();
    assert_eq!(r, expected);
}

#[test]
fn test_sort_round_trip_arbitrary_inputs() {
    // duplicates, mixed-sign zeros, and enough elements to reach quicksort
    let data = [
        3.5, -0.0, 2.0, 0.0, -7.25, 2.0, 11.0, -7.25, 0.5, 3.5, -1.0, 0.0, 9.75, 2.0, -128.0,
    ];
    let mut k = keys(&data);
    let mut idx = identity_index(k.len());
    sort(&mut k, &mut idx);
    let sorted: Vec<f64> = k.iter().map(|&x| val_of(x)).collect();
    for w in sorted.windows(2) {
        assert!(w[0] <= w[1]);
    }
    // the same multiset of values came back out
    let mut expected: Vec<f64> = data.to_vec();
    expected.sort_by(|a, b| a.partial_cmp(b).unwrap());
    for (a, b) in sorted.iter().zip(expected.iter()) {
        assert_eq!(a, b);
    }
    // the index buffer still tells every value's original position
    for (i, &j) in idx.iter().enumerate() {
        assert_eq!(key_of(data[j]), k[i]);
    }
}

#[test]
fn test_quick_sort_bulk() {
    let mut data = scrambled(1000);
    let mut idx = identity_index(data.len());
    let orig = data.clone();
    let right = data.len() - 1;
    quick_sort(&mut data, &mut idx, 0, right);
    for w in data.windows(2) {
        assert!(w[0] <= w[1]);
    }
    let mut expected = orig.clone();
    expected.sort();
    assert_eq!(data, expected);
    for (i, &j) in idx.iter().enumerate() {
        assert_eq!(orig[j], data[i]);
    }
}

#[test]
fn test_quick_sort_all_breaks_ties_by_index() {
    let mut data = vec![4u64, 2, 4, 2, 4, 1, 2];
    let mut idx = identity_index(data.len());
    let right = data.len() - 1;
    quick_sort_all(&mut data, &mut idx, 0, right);
    assert_eq!(data, vec![1, 2, 2, 2, 4, 4, 4]);
    assert_eq!(idx, vec![5, 1, 3, 6, 0, 2, 4]);
}

#[test]
fn test_select_inplace_leaves_a_permutation() {
    let orig = scrambled(200);
    for rank in [0usize, 1, 57, 99, 198, 199] {
        let mut buf = orig.clone();
        let got = select_inplace(&mut buf, rank);
        let mut sorted = orig.clone();
        sorted.sort();
        assert_eq!(got, sorted[rank]);
        let mut buf_sorted = buf.clone();
        buf_sorted.sort();
        assert_eq!(buf_sorted, sorted);
    }
}

#[test]
fn test_order_statistic_rejects_out_of_range() {
    let mut empty: Vec<u64> = Vec::new();
    assert_eq!(order_statistic(&mut empty, 1), None);
    assert_eq!(min(&empty), None);
    assert_eq!(max(&empty), None);
    let mut buf = vec![3u64, 1, 2];
    assert_eq!(order_statistic(&mut buf, 0), None);
    assert_eq!(order_statistic(&mut buf, 4), None);
    assert_eq!(order_statistic(&mut buf, 2), Some(2));
}

#[test]
fn test_handle_rank_ties_writes_one_run() {
    // sorted values would be [5, 8, 8, 8, 11]; the run of 8s spans sorted
    // positions 1..4 and scatters back through the index buffer
    let index = vec![4usize, 0, 2, 3, 1];
    let mut doubled = vec![0u64; 5];
    handle_rank_ties(&mut doubled, &index, 1, 4, RankTieBreaker::Average);
    // average rank of positions 2, 3, 4 is 3, so the doubled rank is 6
    assert_eq!(doubled, vec![6, 0, 6, 6, 0]);
    let mut doubled = vec![0u64; 5];
    handle_rank_ties(&mut doubled, &index, 1, 4, RankTieBreaker::Min);
    assert_eq!(doubled, vec![4, 0, 4, 4, 0]);
    let mut doubled = vec![0u64; 5];
    handle_rank_ties(&mut doubled, &index, 1, 4, RankTieBreaker::Max);
    assert_eq!(doubled, vec![8, 0, 8, 8, 0]);
}

#[test]
fn test_sort_tiny_buffers() {
    let mut empty: Vec<u64> = Vec::new();
    let mut empty_idx: Vec<usize> = Vec::new();
    sort(&mut empty, &mut empty_idx);
    assert!(empty.is_empty());

    let mut single = vec![9u64];
    let mut single_idx = identity_index(1);
    sort(&mut single, &mut single_idx);
    assert_eq!(single, vec![9]);
    assert_eq!(single_idx, vec![0]);

    let mut pair = vec![8u64, 3];
    let mut pair_idx = identity_index(2);
    sort(&mut pair, &mut pair_idx);
    assert_eq!(pair, vec![3, 8]);
    assert_eq!(pair_idx, vec![1, 0]);
}

#[test]
fn test_quantile_neighbors_brackets_sorted_positions() {
    let data = vec![50u64, 10, 40, 20, 30];
    // sorted: [10, 20, 30, 40, 50]
    let mut buf = data.clone();
    assert_eq!(quantile_neighbors(&mut buf, 1), (10, 20));
    let mut buf = data.clone();
    assert_eq!(quantile_neighbors(&mut buf, 3), (30, 40));
    let mut buf = data.clone();
    assert_eq!(quantile_neighbors(&mut buf, 4), (40, 50));
}

#[test]
fn test_rank_scenarios() {
    let data = [1.0, 3.0, 2.0, 2.0];
    assert_eq!(ranks_f64(&data, RankTieBreaker::Average), [1.0, 4.0, 2.5, 2.5]);
    assert_eq!(ranks_f64(&data, RankTieBreaker::Min), [1.0, 4.0, 2.0, 2.0]);
    assert_eq!(ranks_f64(&data, RankTieBreaker::Max), [1.0, 4.0, 3.0, 3.0]);
    assert_eq!(ranks_f64(&data, RankTieBreaker::First), [1.0, 4.0, 2.0, 3.0]);
}
