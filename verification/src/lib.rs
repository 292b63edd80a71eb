//! Paper backups of a secret: the secret is encrypted into a main document, and
//! the key that opens it is split with Shamir's scheme over `GF(2^32)` into key
//! shards, of which a quorum recovers it.

pub mod crypto;
pub mod rng;
pub mod shamir;
pub mod v0;

/// Re-export of the newest paperback wire format types.
pub use v0 as latest;
