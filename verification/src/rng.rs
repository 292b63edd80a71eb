//! Randomness from the operating system.

use rand::rngs::OsRng;
use rand::{Rng, RngCore};
use vstd::prelude::*;

verus! {

/// A random 32-bit value from the operating system (`OsRng::next_u32`). Any
/// value may come back. The call does not return where the system cannot
/// supply randomness.
#[verifier::external_body]
pub(crate) fn random_u32() -> u32 {
    OsRng.next_u32()
}

/// A random 32-bit value other than zero from the operating system
/// (`Rng::gen_range` over `1..=u32::MAX` on `OsRng`): the result lies in the
/// range that is asked for.
#[verifier::external_body]
pub(crate) fn random_nonzero_u32() -> (r: u32)
    ensures
        r != 0,
{
    OsRng.gen_range(1..=u32::MAX)
}

/// `n` random bytes from the operating system (`OsRng::fill_bytes` on a
/// buffer of `n` bytes): the buffer keeps its length.
#[verifier::external_body]
pub(crate) fn random_bytes(n: usize) -> (bytes: Vec<u8>)
    ensures
        bytes@.len() == n,
{
    let mut bytes = vec![0u8; n];
    OsRng.fill_bytes(&mut bytes);
    bytes
}

} // verus!
