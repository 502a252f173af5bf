//! Verified bookkeeping and control logic for incremental (out-of-core)
//! model fitting: batch validation, lazy shape initialisation, class and
//! cluster registries, per-class running counts, and the shuffle buffer that
//! feeds streamed samples to an estimator in mini-batches.
//!
//! The floating-point parameter updates themselves live outside this crate;
//! everything here works on shapes, labels, counts and sample positions.

pub mod error;
pub mod validation;
pub mod seq_facts;
mod vec_util;
mod ordered_keys;
pub mod random;
pub mod linear_regression;
pub mod logistic_regression;
pub mod minibatch_kmeans;
pub mod naive_bayes;
pub mod streaming;

pub use error::IncrementalError;
pub use logistic_regression::MulticlassStrategy;
