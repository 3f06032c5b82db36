//! Probability distributions and statistical inference over exact
//! fixed-point arithmetic, with machine-checked contracts.
//!
//! Real numbers are held as [`fixed::Fixed`]: 64-bit integers that count
//! units of `10^-15`. Products, powers and sums on the way to a result are
//! held as wide numbers of 128 bits ([`wide`]), so that only the result
//! itself is brought into the fixed-point range. Every operation has a
//! specification over the mathematical integers. Apart from the one call into the random number
//! generator, whose contract is taken on trust, every function of the
//! library is proved to meet its specification and to be free of overflow
//! and panics.

pub mod binomial_testing;
pub mod cartesian_product;
pub mod continuous_distribution;
pub mod continuous_testing;
pub mod correlation;
pub mod decision_entropy;
pub mod discrete_convolution;
pub mod discrete_distribution;
pub mod discrete_information;
pub mod discrete_moment;
pub mod empirical_distribution;
pub mod empirical_moment;
pub mod fixed;
pub mod fixed_exp;
pub mod fixed_log;
pub mod fixed_sqrt;
pub mod function;
pub mod induction;
pub mod information_unit;
pub mod joint_distribution;
pub mod laws;
pub mod metric;
pub mod plotting;
pub mod sample;
pub mod softmax;
pub mod wide;
