//! Seeded random number generator.
//!
//! An `Rng` is a seed and a draw counter. Draw number `k` of seed `s` is the
//! first word of the ChaCha8 stream keyed by `derive_seed(s, k)`, so a
//! sequence of draws is a pure function of the seed and the number of draws
//! taken since the last reset. The integer draws below are the exact forms of
//! the scalings `floor(min + u * (max - min))` and `u < p` of a unit value
//! `u = word / u64::MAX`.

use crate::random::chacha::chacha8_word;
use crate::random::{chacha8_first_word, derive_seed, seed_key};
use crate::shuffle::{
    fisher_yates, fisher_yates_result, is_cyclic_rotation, partial_result, partial_shuffle,
    same_elements, sattolo, sattolo_result,
};
use vstd::prelude::*;

verus! {

/// The abstract state of an [`Rng`]: its seed and the number of draws taken.
pub struct RngState {
    pub seed: u64,
    pub step: u64,
}

impl RngState {
    /// The state of a freshly seeded generator.
    pub open spec fn fresh(seed: u64) -> RngState {
        RngState { seed, step: 0 }
    }

    /// The word that the next draw returns.
    pub open spec fn word(self) -> u64 {
        chacha8_first_word(seed_key(self.seed, self.step))
    }

    /// The state after one draw.
    pub open spec fn next(self) -> RngState {
        RngState { seed: self.seed, step: vstd::wrapping::u64_specs::wrapping_add(self.step, 1) }
    }

    /// The state after `k` draws.
    pub open spec fn skip(self, k: nat) -> RngState
        decreases k,
    {
        if k == 0 {
            self
        } else {
            self.skip((k - 1) as nat).next()
        }
    }
}

/// `floor(word / u64::MAX * span)`: a word scaled onto `[0, span]`.
pub open spec fn scale(word: u64, span: nat) -> nat {
    ((word as nat) * span) / (u64::MAX as nat)
}

/// A draw below `n` (for `n >= 1`): the scaled word, kept below `n`.
pub open spec fn below(word: u64, n: nat) -> nat {
    if scale(word, n) < n {
        scale(word, n)
    } else {
        (n - 1) as nat
    }
}

/// `floor(uniform(lo, hi))` for the word: the bounds are taken in order.
pub open spec fn between(word: u64, lo: nat, hi: nat) -> nat {
    if lo <= hi {
        lo + scale(word, (hi - lo) as nat)
    } else {
        hi + scale(word, (lo - hi) as nat)
    }
}

/// `word / u64::MAX < num / den`.
pub open spec fn ratio_hit(word: u64, num: nat, den: nat) -> bool {
    (word as nat) * den < num * (u64::MAX as nat)
}

/// A scaled word lies in `[0, span]`.
pub proof fn lemma_scale_bound(word: u64, span: nat)
    ensures
        scale(word, span) <= span,
        (word as nat) * span <= (u64::MAX as nat) * span,
{
    let w = word as nat;
    let m = u64::MAX as nat;
    assert(w * span <= m * span) by (nonlinear_arith)
        requires
            w <= m,
    ;
    assert((w * span) / m <= span) by (nonlinear_arith)
        requires
            w * span <= m * span,
            m > 0,
    ;
}

/// A draw between two bounds lies between them.
pub proof fn lemma_between_bounds(word: u64, lo: nat, hi: nat)
    ensures
        lo <= hi ==> lo <= between(word, lo, hi) <= hi,
        hi < lo ==> hi <= between(word, lo, hi) <= lo,
{
    if lo <= hi {
        lemma_scale_bound(word, (hi - lo) as nat);
    } else {
        lemma_scale_bound(word, (lo - hi) as nat);
    }
}

/// Draws never change the seed: only `reseed` does.
pub proof fn lemma_draws_keep_seed(r: RngState, k: nat)
    ensures
        r.next().seed == r.seed,
        r.skip(k).seed == r.seed,
    decreases k,
{
    if k > 0 {
        lemma_draws_keep_seed(r, (k - 1) as nat);
    }
}

/// Determinism: two generators with the same seed that have taken the same
/// number of draws give the same next word and the same shuffles of the same
/// input, and are left in the same state.
pub proof fn lemma_same_seed_same_results<T>(s: Seq<T>, a: RngState, b: RngState, k: nat)
    requires
        a.seed == b.seed,
        a.step == b.step,
    ensures
        a.word() == b.word(),
        a.next() == b.next(),
        fisher_yates_result(s, a) == fisher_yates_result(s, b),
        partial_result(s, a, k) == partial_result(s, b, k),
        sattolo_result(s, a) == sattolo_result(s, b),
{
    assert(a == b);
}

/// Seeded random number generator with a deterministic draw sequence.
pub struct Rng {
    seed: u64,
    step: u64,
}

impl View for Rng {
    type V = RngState;

    closed spec fn view(&self) -> RngState {
        RngState { seed: self.seed, step: self.step }
    }
}

impl Rng {
    /// Creates a generator for `seed`, positioned at its first draw.
    pub fn new(seed: u64) -> (r: Rng)
        ensures
            r@ == RngState::fresh(seed),
    {
        Rng { seed, step: 0 }
    }

    /// Same as [`Rng::new`].
    pub fn with_seed(seed: u64) -> (r: Rng)
        ensures
            r@ == RngState::fresh(seed),
    {
        Self::new(seed)
    }

    /// Restarts the draw sequence of the current seed.
    pub fn reset(&mut self)
        ensures
            final(self)@ == RngState::fresh(old(self)@.seed),
    {
        self.step = 0;
    }

    /// The current seed.
    pub fn seed(&self) -> (s: u64)
        ensures
            s == self@.seed,
    {
        self.seed
    }

    /// Number of draws taken since the generator was seeded or reset.
    pub fn step(&self) -> (k: u64)
        ensures
            k == self@.step,
    {
        self.step
    }

    /// Changes the seed and restarts the sequence.
    pub fn reseed(&mut self, seed: u64)
        ensures
            final(self)@ == RngState::fresh(seed),
    {
        self.seed = seed;
        self.step = 0;
    }

    /// Takes one draw and returns its ChaCha8 key.
    pub fn next_key(&mut self) -> (key: [u8; 32])
        ensures
            final(self)@.seed == old(self)@.seed,
            key@ == seed_key(old(self)@.seed, old(self)@.step),
            final(self)@ == old(self)@.next(),
    {
        let key = derive_seed(self.seed, self.step);
        self.step = self.step.wrapping_add(1);
        key
    }

    /// Takes one draw and returns its word.
    pub fn next_word(&mut self) -> (w: u64)
        ensures
            final(self)@.seed == old(self)@.seed,
            w == old(self)@.word(),
            final(self)@ == old(self)@.next(),
    {
        let key = self.next_key();
        chacha8_word(key)
    }

    /// Takes one draw scaled below `n`: `min(floor(uniform(0, n)), n - 1)`.
    pub fn next_below(&mut self, n: usize) -> (r: usize)
        requires
            n >= 1,
        ensures
            final(self)@.seed == old(self)@.seed,
            r == below(old(self)@.word(), n as nat),
            r < n,
            final(self)@ == old(self)@.next(),
    {
        let w = self.next_word();
        proof {
            lemma_scale_bound(w, n as nat);
        }
        let scaled = (w as u128) * (n as u128) / (u64::MAX as u128);
        if scaled < n as u128 {
            scaled as usize
        } else {
            n - 1
        }
    }

    /// Takes one draw scaled onto the bounds: `floor(uniform(lo, hi))`.
    pub fn next_between(&mut self, lo: usize, hi: usize) -> (r: usize)
        ensures
            final(self)@.seed == old(self)@.seed,
            r == between(old(self)@.word(), lo as nat, hi as nat),
            lo <= hi ==> lo <= r <= hi,
            hi < lo ==> hi <= r <= lo,
            final(self)@ == old(self)@.next(),
    {
        let w = self.next_word();
        let (low, high) = if lo <= hi {
            (lo, hi)
        } else {
            (hi, lo)
        };
        let span = high - low;
        proof {
            lemma_scale_bound(w, span as nat);
        }
        let scaled = ((w as u128) * (span as u128) / (u64::MAX as u128)) as usize;
        low + scaled
    }

    /// Takes one draw and compares it with the ratio: `uniform(0, 1) < num / den`.
    pub fn next_ratio(&mut self, num: usize, den: usize) -> (hit: bool)
        ensures
            final(self)@.seed == old(self)@.seed,
            hit == ratio_hit(old(self)@.word(), num as nat, den as nat),
            final(self)@ == old(self)@.next(),
    {
        let w = self.next_word();
        proof {
            lemma_scale_bound(w, den as nat);
            assert((num as nat) * (u64::MAX as nat) <= (usize::MAX as nat) * (u64::MAX as nat))
                by (nonlinear_arith);
        }
        (w as u128) * (den as u128) < (num as u128) * (u64::MAX as u128)
    }

    /// Picks an element of `items` with one draw; `None` (and no draw) when
    /// `items` is empty.
    pub fn choose_item<'a, T>(&mut self, items: &'a [T]) -> (r: Option<&'a T>)
        ensures
            final(self)@.seed == old(self)@.seed,
            items@.len() == 0 ==> r is None && final(self)@ == old(self)@,
            items@.len() > 0 ==> (r matches Some(x) && *x == items@[below(
                old(self)@.word(),
                items@.len(),
            ) as int] && final(self)@ == old(self)@.next()),
    {
        if items.len() == 0 {
            return None;
        }
        let index = self.next_below(items.len());
        Some(&items[index])
    }

    /// Shuffles `items` in place (Fisher-Yates).
    pub fn shuffle<T>(&mut self, items: &mut [T])
        ensures
            final(self)@.seed == old(self)@.seed,
            final(items)@ == fisher_yates_result(old(items)@, old(self)@).0,
            final(self)@ == fisher_yates_result(old(items)@, old(self)@).1,
            same_elements(final(items)@, old(items)@),
    {
        fisher_yates(items, self);
    }

    /// Shuffles only the first `k` positions of `items`.
    pub fn shuffle_partial<T>(&mut self, items: &mut [T], k: usize)
        ensures
            final(self)@.seed == old(self)@.seed,
            final(items)@ == partial_result(old(items)@, old(self)@, k as nat).0,
            final(self)@ == partial_result(old(items)@, old(self)@, k as nat).1,
            same_elements(final(items)@, old(items)@),
    {
        partial_shuffle(items, k, self);
    }

    /// Cyclic shuffle (Sattolo): the positions form a single cycle, so no
    /// element keeps its position.
    pub fn shuffle_cyclic<T>(&mut self, items: &mut [T])
        ensures
            final(self)@.seed == old(self)@.seed,
            final(items)@ == sattolo_result(old(items)@, old(self)@).0,
            final(self)@ == sattolo_result(old(items)@, old(self)@).1,
            same_elements(final(items)@, old(items)@),
            is_cyclic_rotation(final(items)@, old(items)@),
            old(items)@.len() >= 2 && old(items)@.no_duplicates() ==> forall|k: int|
                0 <= k < old(items)@.len() ==> #[trigger] final(items)@[k] != old(items)@[k],
    {
        sattolo(items, self);
    }
}

impl Default for Rng {
    /// A generator seeded with 0.
    fn default() -> (r: Rng)
        ensures
            r@ == RngState::fresh(0),
    {
        Rng::with_seed(0)
    }
}

} // verus!
