//! Reward consensus for a subspace network: the epoch computation that turns
//! stake, weights and bonds into ranks, incentive, dividends and emission,
//! computed on fixed-point numbers with 32 fractional bits.

pub mod fixed;
pub mod sums;
pub mod vector;
pub mod sparse;
pub mod sparse_product;
pub mod sparse_ema;
pub mod storage;
pub mod epoch;
pub mod dense;
pub mod epoch_dense;
pub mod densify;
pub mod densify_bonds;
pub mod laws;
pub mod input_laws;
