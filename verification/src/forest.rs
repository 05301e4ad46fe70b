//! Ensembles of isolation trees.

pub mod ciso_forest;
pub mod distance;
pub mod erci_forest;
pub mod forest;
