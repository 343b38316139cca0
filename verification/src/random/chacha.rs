use rand_chacha::rand_core::{RngCore, SeedableRng};
use rand_chacha::ChaCha8Rng;
use vstd::prelude::*;

verus! {

/// The first 64-bit word of the ChaCha8 keystream generator keyed by `key`.
pub uninterp spec fn chacha8_first_word(key: Seq<u8>) -> u64;

/// Seeds `rand_chacha::ChaCha8Rng` with `key` (`SeedableRng::from_seed`) and
/// returns its first `RngCore::next_u64`.
///
/// Trusted: the contract only names the result as a function of the key; the
/// ChaCha8 block function itself is not stated.
#[verifier::external_body]
pub(crate) fn chacha8_word(key: [u8; 32]) -> (w: u64)
    ensures
        w == chacha8_first_word(key@),
{
    ChaCha8Rng::from_seed(key).next_u64()
}

} // verus!
