use vstd::prelude::*;

verus! {

/// First multiplier of the pair mixer.
pub const MIX_A: u64 = 0x517cc1b727220a95;

/// Second multiplier of the pair mixer.
pub const MIX_B: u64 = 0x9e3779b97f4a7c15;

/// `x * k` modulo 2^64.
pub open spec fn mul64(x: u64, k: u64) -> u64 {
    vstd::wrapping::u64_specs::wrapping_mul(x, k)
}

/// `x + y` modulo 2^64.
pub open spec fn add64(x: u64, y: u64) -> u64 {
    vstd::wrapping::u64_specs::wrapping_add(x, y)
}

/// The SplitMix-style mix of a pair of words.
pub open spec fn mixed_pair(a: u64, b: u64) -> u64 {
    let x1 = mul64(add64(a, b), MIX_A);
    let x2 = x1 ^ (x1 >> 32u64);
    let x3 = mul64(x2, MIX_B);
    x3 ^ (x3 >> 32u64)
}

/// Mixes two words into one pseudo-random word (SplitMix-style).
pub fn hash_u64_pair(a: u64, b: u64) -> (r: u64)
    ensures
        r == mixed_pair(a, b),
{
    let mut x = a.wrapping_add(b).wrapping_mul(MIX_A);
    x ^= x >> 32;
    x = x.wrapping_mul(MIX_B);
    x ^= x >> 32;
    x
}

/// The index that `hash_to_index` selects.
pub open spec fn hashed_index(seed_a: u64, seed_b: u64, len: usize) -> usize {
    if len == 0 {
        0
    } else {
        (mixed_pair(seed_a, seed_b) % (len as u64)) as usize
    }
}

/// Maps a pair of seeds to an index in `[0, len)`; `len == 0` gives 0.
pub fn hash_to_index(seed_a: u64, seed_b: u64, len: usize) -> (r: usize)
    ensures
        r == hashed_index(seed_a, seed_b, len),
        len > 0 ==> r < len,
        len == 0 ==> r == 0,
{
    if len == 0 {
        return 0;
    }
    let hash = hash_u64_pair(seed_a, seed_b);
    (hash % len as u64) as usize
}

/// Rotation of a word left by 31 bits.
pub open spec fn rotl31(h: u64) -> u64 {
    (h << 31u64) | (h >> 33u64)
}

/// The word that `derive_spatial_seed` spreads over its 32 bytes.
pub open spec fn spatial_mix(base_seed: u64, x: i32, y: i32) -> u64 {
    let h1 = rotl31(base_seed ^ mul64(x as u64, MIX_A));
    let h2 = rotl31(h1 ^ mul64(y as u64, MIX_B));
    let h3 = h2 ^ (h2 >> 32u64);
    let h4 = mul64(h3, MIX_A);
    h4 ^ (h4 >> 32u64)
}

/// Byte `i` of a seed spread from the word `h`: the byte of `h` at bit
/// offset `8 * i` taken modulo 64, so the 8 bytes of `h` repeat four times.
pub open spec fn spread_byte(h: u64, i: int) -> u8 {
    ((h >> (((i * 8) % 64) as u64)) & 0xffu64) as u8
}

/// Spreads the word `h` over 32 bytes, little-endian and repeated.
fn spread_word(h: u64) -> (bytes: [u8; 32])
    ensures
        forall|i: int| 0 <= i < 32 ==> #[trigger] bytes@[i] == spread_byte(h, i),
{
    let mut bytes = [0u8; 32];
    let mut i: usize = 0;
    while i < 32
        invariant
            i <= 32,
            forall|k: int| 0 <= k < i ==> #[trigger] bytes@[k] == spread_byte(h, k),
        decreases 32 - i,
    {
        let shift: u32 = (i * 8) as u32;
        bytes[i] = (h.wrapping_shr(shift) & 0xFF) as u8;
        i += 1;
    }
    bytes
}

/// The 32-byte key that `derive_seed` produces for `(seed, counter)`.
pub open spec fn seed_key(seed: u64, counter: u64) -> Seq<u8> {
    Seq::new(32, |i: int| spread_byte(mixed_pair(seed, counter), i))
}

/// Derives the 32-byte ChaCha key for draw number `counter` of a seed: the
/// pair mix of both words, spread over the key.
pub fn derive_seed(seed: u64, counter: u64) -> (key: [u8; 32])
    ensures
        key@ == seed_key(seed, counter),
{
    let key = spread_word(hash_u64_pair(seed, counter));
    assert(key@ =~= seed_key(seed, counter));
    key
}

/// Derives a 32-byte ChaCha key for the lattice point `(x, y)` of a base seed.
pub fn derive_spatial_seed(base_seed: u64, x: i32, y: i32) -> (bytes: [u8; 32])
    ensures
        forall|i: int|
            0 <= i < 32 ==> #[trigger] bytes@[i] == spread_byte(
                spatial_mix(base_seed, x, y),
                i,
            ),
{
    let mut h = base_seed;
    h ^= (x as u64).wrapping_mul(MIX_A);
    h = (h << 31) | (h >> 33);
    h ^= (y as u64).wrapping_mul(MIX_B);
    h = (h << 31) | (h >> 33);
    h ^= h >> 32;
    h = h.wrapping_mul(MIX_A);
    h ^= h >> 32;
    spread_word(h)
}

} // verus!
