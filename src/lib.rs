//! Thompson-sampling scheduler for repeatable test scripts ("arms").
//!
//! Each arm keeps counts of interesting and uninteresting outcomes; its
//! posterior is Beta(interesting + 1, uninteresting + 1). Selection draws one
//! posterior sample per eligible arm and runs the arm with the best score,
//! where the score weighs the sample by a user bias and, optionally, by the
//! arm's mean runtime.
//!
//! Numbers are held in fixed point: a posterior sample is a fraction of
//! `QUANTILE_ONE`, a bias is in thousandths and a runtime is in microseconds.
//! The Beta quantile is computed exactly with big-integer arithmetic.
pub mod bignum;
pub mod config;
pub mod lint;
pub mod mapping;
pub mod quantile;
pub mod thompson;
