//! Deterministic hashing, seed derivation and the ChaCha8 word source.

pub(crate) mod chacha;
mod hashing;

pub use chacha::chacha8_first_word;
pub use hashing::{
    derive_seed, derive_spatial_seed, hash_to_index, hash_u64_pair, hashed_index, mixed_pair,
    seed_key, spatial_mix, spread_byte,
};
