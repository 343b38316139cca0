use super::permutation::{lemma_swap_same_elements, same_elements, swapped};
use crate::rng::{below, Rng, RngState};
use vstd::prelude::*;

verus! {

/// Positions `i, i + 1, ..., k - 1` of a partial shuffle: position `p` is
/// exchanged with a position drawn from `[p, len)`.
pub open spec fn partial_from<T>(s: Seq<T>, r: RngState, i: int, k: int) -> (Seq<T>, RngState)
    decreases k - i,
{
    if i >= k {
        (s, r)
    } else {
        let j = i + below(r.word(), (s.len() - i) as nat);
        partial_from(swapped(s, i, j), r.next(), i + 1, k)
    }
}

/// The sequence and generator state after shuffling the first `k` positions
/// of `s` (`k` is clamped to the length).
pub open spec fn partial_result<T>(s: Seq<T>, r: RngState, k: nat) -> (Seq<T>, RngState) {
    if s.len() <= 1 || k == 0 {
        (s, r)
    } else if k <= s.len() {
        partial_from(s, r, 0, k as int)
    } else {
        partial_from(s, r, 0, s.len() as int)
    }
}

/// Partial Fisher-Yates shuffle: only the first `k` positions are drawn, each
/// from the positions not yet drawn. `k >= len` shuffles the whole slice.
pub fn partial_shuffle<T>(slice: &mut [T], k: usize, rng: &mut Rng)
    ensures
        final(rng)@.seed == old(rng)@.seed,
        final(slice)@ == partial_result(old(slice)@, old(rng)@, k as nat).0,
        final(rng)@ == partial_result(old(slice)@, old(rng)@, k as nat).1,
        final(slice)@.len() == old(slice)@.len(),
        same_elements(final(slice)@, old(slice)@),
{
    let ghost seed0 = rng@.seed;
    let ghost s0 = slice@;
    let ghost r0 = rng@;
    let len = slice.len();
    if len <= 1 || k == 0 {
        return;
    }
    let count = if k < len {
        k
    } else {
        len
    };
    let mut i: usize = 0;
    while i < count
        invariant
            rng@.seed == seed0,
            i <= count <= len,
            len == slice@.len(),
            len == s0.len(),
            partial_from(slice@, rng@, i as int, count as int) == partial_result(s0, r0, k as nat),
            same_elements(slice@, s0),
        decreases count - i,
    {
        let j = rng.next_below(len - i) + i;
        proof {
            lemma_swap_same_elements(slice@, i as int, j as int);
        }
        slice.swap(i, j);
        i += 1;
    }
}

} // verus!
