//! Order statistics and ranking over totally ordered keys.
//!
//! The heart of this crate is an in-place selection engine (median-of-three
//! quickselect with Hoare partitioning), a pair of dual-array quicksort
//! engines that keep a value array and an index array synchronized, and a
//! ranking layer that resolves ties under four policies. All of them operate
//! on unsigned 64-bit keys; a caller that works with floating-point samples
//! maps them through any order-preserving encoding before calling in.
//!
//! Every public operation carries a contract that pins its result down in
//! terms of element counts over the input sequence, so that callers can
//! reason about order statistics without ever seeing the reordered buffers.

pub mod counts;
pub mod distribution;
pub mod laws;
pub mod order;
pub mod perm;
pub mod quantiles;
pub mod ranking;
pub mod selection;
pub mod sorting;

