//! Ensembles of randomized isolation trees over integer-keyed feature
//! vectors, with the structural part of anomaly scoring and of three
//! pairwise tree distances.
//!
//! Feature values are signed integer keys. Only their order matters to the
//! trees, so any order-preserving encoding of real measurements can be used
//! by a caller.

pub mod forest;
pub mod tree;
pub mod utils;
