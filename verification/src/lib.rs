//! Deterministic randomness, shuffling and signal-composition primitives.
//!
//! The verified core of the library: seeded random draws, the shuffle
//! algorithms and their animators, hashing helpers, and the plain data types
//! that the floating-point signal layer is built from.

pub mod processing;
pub mod random;
pub mod rng;
pub mod shuffle;
pub mod traits;
pub mod types;
pub mod visualization;
