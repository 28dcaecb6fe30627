//! Order-statistic, quantile and ranking behaviour over floating-point
//! samples, driven through the crate's keyed engines via an
//! order-preserving bit-level encoding of `f64`.

use statrs::quantiles::median_pair;
use statrs::quantiles::order_statistic;
use statrs::quantiles::quantile_neighbors;
use statrs::ranking::ranks;
use statrs::ranking::RankTieBreaker;
use statrs::selection::max;
use statrs::selection::min;

const SIGN_BIT: u64 = 0x8000_0000_0000_0000;

/// Maps a float to a key so that the key order matches the float order;
/// negative zero is folded into positive zero first.
fn key_of(x: f64) -> u64 {
    let x = if x == 0.0 { 0.0 } else { x };
    let b = x.to_bits();
    if b & SIGN_BIT != 0 {
        !b
    } else {
        b ^ SIGN_BIT
    }
}

fn val_of(k: u64) -> f64 {
    if k & SIGN_BIT != 0 {
        f64::from_bits(k ^ SIGN_BIT)
    } else {
        f64::from_bits(!k)
    }
}

fn keys(data: &[f64]) -> Vec<u64> {
    data.iter().map(|&x| key_of(x)).collect()
}

fn min_f64(data: &[f64]) -> f64 {
    match min(&keys(data)) {
        Some(k) => val_of(k),
        None => f64::NAN,
    }
}

fn max_f64(data: &[f64]) -> f64 {
    match max(&keys(data)) {
        Some(k) => val_of(k),
        None => f64::NAN,
    }
}

fn order_statistic_f64(data: &[f64], order: usize) -> f64 {
    let mut k = keys(data);
    match order_statistic(&mut k, order) {
        Some(v) => val_of(v),
        None => f64::NAN,
    }
}

fn median_f64(data: &[f64]) -> f64 {
    let mut k = keys(data);
    match median_pair(&mut k) {
        Some((a, b)) => (val_of(a) + val_of(b)) / 2.0,
        None => f64::NAN,
    }
}

fn quantile_f64(data: &[f64], tau: f64) -> f64 {
    if tau < 0.0 || tau > 1.0 || data.is_empty() {
        return f64::NAN;
    }
    let mut k = keys(data);
    let h = (data.len() as f64 + 1.0 / 3.0) * tau + 1.0 / 3.0;
    let hf = h as i64;
    if hf <= 0 || tau == 0.0 {
        return val_of(min(&k).unwrap());
    }
    if hf >= data.len() as i64 || tau == 1.0 {
        return val_of(max(&k).unwrap());
    }
    let (a, b) = quantile_neighbors(&mut k, hf as usize);
    let (a, b) = (val_of(a), val_of(b));
    a + (h - hf as f64) * (b - a)
}

fn ranks_f64(data: &[f64], tie_breaker: RankTieBreaker) -> Vec<f64> {
    let mut k = keys(data);
    ranks(&mut k, tie_breaker).into_iter().map(|r| r as f64 / 2.0).collect()
}

fn almost_eq(a: f64, b: f64, acc: f64) {
    assert!((a - b).abs() <= acc, "{} is not almost equal to {}", a, b);
}

#[test]
fn test_min_max_short() {
    let data = [-1.0, 5.0, 0.0, -3.0, 10.0, -0.5, 4.0];
    assert_eq!(min_f64(&data), -3.0);
    assert_eq!(max_f64(&data), 10.0);
}

#[test]
fn test_order_statistic_short() {
    let data = [-1.0, 5.0, 0.0, -3.0, 10.0, -0.5, 4.0, 1.0, 6.0];
    assert!(order_statistic_f64(&data, 0).is_nan());
    assert_eq!(order_statistic_f64(&data, 1), -3.0);
    assert_eq!(order_statistic_f64(&data, 2), -1.0);
    assert_eq!(order_statistic_f64(&data, 3), -0.5);
    assert_eq!(order_statistic_f64(&data, 7), 5.0);
    assert_eq!(order_statistic_f64(&data, 8), 6.0);
    assert_eq!(order_statistic_f64(&data, 9), 10.0);
    assert!(order_statistic_f64(&data, 10).is_nan());
}

#[test]
fn test_quantile_short() {
    let data = [-1.0, 5.0, 0.0, -3.0, 10.0, -0.5, 4.0, 0.2, 1.0, 6.0];
    assert_eq!(quantile_f64(&data, 0.0), -3.0);
    assert_eq!(quantile_f64(&data, 1.0), 10.0);
    almost_eq(quantile_f64(&data, 0.5), 3.0 / 5.0, 1e-15);
    almost_eq(quantile_f64(&data, 0.2), -4.0 / 5.0, 1e-15);
    assert_eq!(quantile_f64(&data, 0.7), 137.0 / 30.0);
    assert_eq!(quantile_f64(&data, 0.01), -3.0);
    assert_eq!(quantile_f64(&data, 0.99), 10.0);
    almost_eq(quantile_f64(&data, 0.52), 287.0 / 375.0, 1e-15);
    almost_eq(quantile_f64(&data, 0.325), -37.0 / 240.0, 1e-15);
}

#[test]
fn test_ranks() {
    let sorted_distinct = [1.0, 2.0, 4.0, 7.0, 8.0, 9.0, 10.0, 12.0];
    let sorted_ties = [1.0, 2.0, 2.0, 7.0, 9.0, 9.0, 10.0, 12.0];
    assert_eq!(
        ranks_f64(&sorted_distinct, RankTieBreaker::Average),
        [1.0, 2.0, 3.0, 4.0, 5.0, 6.0, 7.0, 8.0]
    );
    assert_eq!(
        ranks_f64(&sorted_ties, RankTieBreaker::Average),
        [1.0, 2.5, 2.5, 4.0, 5.5, 5.5, 7.0, 8.0]
    );
    assert_eq!(
        ranks_f64(&sorted_distinct, RankTieBreaker::Min),
        [1.0, 2.0, 3.0, 4.0, 5.0, 6.0, 7.0, 8.0]
    );
    assert_eq!(
        ranks_f64(&sorted_ties, RankTieBreaker::Min),
        [1.0, 2.0, 2.0, 4.0, 5.0, 5.0, 7.0, 8.0]
    );
    assert_eq!(
        ranks_f64(&sorted_distinct, RankTieBreaker::Max),
        [1.0, 2.0, 3.0, 4.0, 5.0, 6.0, 7.0, 8.0]
    );
    assert_eq!(
        ranks_f64(&sorted_ties, RankTieBreaker::Max),
        [1.0, 3.0, 3.0, 4.0, 6.0, 6.0, 7.0, 8.0]
    );
    assert_eq!(
        ranks_f64(&sorted_distinct, RankTieBreaker::First),
        [1.0, 2.0, 3.0, 4.0, 5.0, 6.0, 7.0, 8.0]
    );
    assert_eq!(
        ranks_f64(&sorted_ties, RankTieBreaker::First),
        [1.0, 2.0, 3.0, 4.0, 5.0, 6.0, 7.0, 8.0]
    );

    let distinct = [1.0, 8.0, 12.0, 7.0, 2.0, 9.0, 10.0, 4.0];
    let ties = [1.0, 9.0, 12.0, 7.0, 2.0, 9.0, 10.0, 2.0];
    assert_eq!(
        ranks_f64(&distinct, RankTieBreaker::Average),
        [1.0, 5.0, 8.0, 4.0, 2.0, 6.0, 7.0, 3.0]
    );
    assert_eq!(
        ranks_f64(&ties, RankTieBreaker::Average),
        [1.0, 5.5, 8.0, 4.0, 2.5, 5.5, 7.0, 2.5]
    );
    assert_eq!(
        ranks_f64(&distinct, RankTieBreaker::Min),
        [1.0, 5.0, 8.0, 4.0, 2.0, 6.0, 7.0, 3.0]
    );
    assert_eq!(ranks_f64(&ties, RankTieBreaker::Min), [1.0, 5.0, 8.0, 4.0, 2.0, 5.0, 7.0, 2.0]);
    assert_eq!(
        ranks_f64(&distinct, RankTieBreaker::Max),
        [1.0, 5.0, 8.0, 4.0, 2.0, 6.0, 7.0, 3.0]
    );
    assert_eq!(ranks_f64(&ties, RankTieBreaker::Max), [1.0, 6.0, 8.0, 4.0, 3.0, 6.0, 7.0, 3.0]);
    assert_eq!(
        ranks_f64(&distinct, RankTieBreaker::First),
        [1.0, 5.0, 8.0, 4.0, 2.0, 6.0, 7.0, 3.0]
    );
    assert_eq!(ranks_f64(&ties, RankTieBreaker::First), [1.0, 5.0, 8.0, 4.0, 2.0, 6.0, 7.0, 3.0]);
}

#[test]
fn test_median_short() {
    let even = [-1.0, 5.0, 0.0, -3.0, 10.0, -0.5, 4.0, 0.2, 1.0, 6.0];
    assert_eq!(median_f64(&even), 0.6);

    let odd = [-1.0, 5.0, 0.0, -3.0, 10.0, -0.5, 4.0, 0.2, 1.0];
    assert_eq!(median_f64(&odd), 0.2);
}

#[test]
fn test_median_long_constant_seq() {
    let even = vec![2.0; 100000];
    assert_eq!(2.0, median_f64(&even));

    let odd = vec![2.0; 100001];
    assert_eq!(2.0, median_f64(&odd));
}

#[test]
fn test_empty_data_returns_nan() {
    let data = [0.0; 0];
    assert!(min_f64(&data).is_nan());
    assert!(max_f64(&data).is_nan());
    assert!(median_f64(&data).is_nan());
    assert!(order_statistic_f64(&data, 1).is_nan());
    assert!(ranks_f64(&data, RankTieBreaker::Average).is_empty());
}

#[test]
fn test_median_robust_on_infinities() {
    let mut data3 = [2.0, f64::NEG_INFINITY, f64::INFINITY];
    assert_eq!(median_f64(&data3), 2.0);

    data3 = [f64::NEG_INFINITY, 2.0, f64::INFINITY];
    assert_eq!(median_f64(&data3), 2.0);

    data3 = [f64::NEG_INFINITY, f64::INFINITY, 2.0];
    assert_eq!(median_f64(&data3), 2.0);

    let data4 = [f64::NEG_INFINITY, 2.0, 3.0, f64::INFINITY];
    assert_eq!(median_f64(&data4), 2.5);
}
