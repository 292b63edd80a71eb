//! Shamir secret sharing in `GF(2^32)`: the data is split into 4-byte chunks,
//! and all x and y values are 32-bit field elements.

pub mod binary;
pub mod dealer;
pub mod gf;
pub mod polynomial;
pub mod shard;
pub mod lagrange;

pub use dealer::{recover_secret, Dealer, Error};
pub use shard::Shard;
