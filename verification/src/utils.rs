//! Shared building blocks: random draws, samples, small statistics.

pub mod aggregation;
pub mod random;
pub mod split;
pub mod statistics;
pub mod structures;
