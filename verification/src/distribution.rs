//! Capability interfaces for statistical distributions.
//!
//! A distribution object exposes only the queries for which it has a
//! closed form, one small trait per capability. The traits are generic in
//! the value type, so implementors choose their own numeric
//! representation; sampling itself needs a random source and therefore
//! lives with the callers that own one, outside this crate's verified
//! surface.

use vstd::prelude::*;

verus! {

/// A univariate distribution: one with a closed-form cumulative
/// distribution function over a totally ordered domain.
pub trait Univariate<T, K> {
    /// The cumulative distribution function evaluated at `x`. May panic
    /// depending on the implementor.
    fn cdf(&self, x: K) -> K;

    /// The least value of the distribution's domain. May panic depending
    /// on the implementor.
    fn min(&self) -> T;

    /// The greatest value of the distribution's domain. May panic
    /// depending on the implementor.
    fn max(&self) -> T;
}

/// A distribution with a closed-form mean.
pub trait Mean<T, K> {
    /// The mean of the distribution. May panic depending on the
    /// implementor.
    fn mean(&self) -> T;
}

/// A distribution with a closed-form variance. Requires `Mean`, since a
/// closed-form variance presupposes a closed-form mean.
pub trait Variance<T, K>: Mean<T, K> {
    /// The variance of the distribution. May panic depending on the
    /// implementor.
    fn variance(&self) -> T;

    /// The standard deviation of the distribution. May panic depending on
    /// the implementor.
    fn std_dev(&self) -> T;
}

/// A distribution with a closed-form entropy.
pub trait Entropy<T> {
    /// The entropy of the distribution. May panic depending on the
    /// implementor.
    fn entropy(&self) -> T;
}

/// A distribution with a closed-form skewness.
pub trait Skewness<T, K> {
    /// The skewness of the distribution. May panic depending on the
    /// implementor.
    fn skewness(&self) -> T;
}

/// A distribution with a closed-form median.
pub trait Median<T> {
    /// The median of the distribution. May panic depending on the
    /// implementor.
    fn median(&self) -> T;
}

/// A distribution with a closed-form mode.
pub trait Mode<T, K> {
    /// The mode of the distribution. May panic depending on the
    /// implementor.
    fn mode(&self) -> T;
}

/// A continuous distribution: one with a probability density function.
pub trait Continuous<T, K> {
    /// The probability density function evaluated at `x`. May panic
    /// depending on the implementor.
    fn pdf(&self, x: T) -> K;

    /// The natural logarithm of the probability density function
    /// evaluated at `x`. May panic depending on the implementor.
    fn ln_pdf(&self, x: T) -> K;
}

/// A discrete distribution: one with a probability mass function.
pub trait Discrete<T, K> {
    /// The probability mass function evaluated at `x`. May panic
    /// depending on the implementor.
    fn pmf(&self, x: T) -> K;

    /// The natural logarithm of the probability mass function evaluated
    /// at `x`. May panic depending on the implementor.
    fn ln_pmf(&self, x: T) -> K;
}

} // verus!
