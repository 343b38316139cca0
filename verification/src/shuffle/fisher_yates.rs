use super::permutation::{lemma_swap_same_elements, same_elements, swapped};
use crate::rng::{below, Rng, RngState};
use vstd::prelude::*;

verus! {

/// Positions `i, i - 1, ..., 1` of a Fisher-Yates pass: position `k` is
/// exchanged with a draw below `k + 1`.
pub open spec fn fisher_yates_from<T>(s: Seq<T>, r: RngState, i: int) -> (Seq<T>, RngState)
    decreases i,
{
    if i <= 0 {
        (s, r)
    } else {
        let j = below(r.word(), (i + 1) as nat) as int;
        fisher_yates_from(swapped(s, i, j), r.next(), i - 1)
    }
}

/// The sequence and generator state after a Fisher-Yates shuffle of `s`.
pub open spec fn fisher_yates_result<T>(s: Seq<T>, r: RngState) -> (Seq<T>, RngState) {
    fisher_yates_from(s, r, s.len() - 1)
}

/// Fisher-Yates (Knuth) shuffle: walks from the last position down to the
/// second, exchanging each position `i` with a position drawn from `[0, i]`.
pub fn fisher_yates<T>(slice: &mut [T], rng: &mut Rng)
    ensures
        final(rng)@.seed == old(rng)@.seed,
        final(slice)@ == fisher_yates_result(old(slice)@, old(rng)@).0,
        final(rng)@ == fisher_yates_result(old(slice)@, old(rng)@).1,
        final(slice)@.len() == old(slice)@.len(),
        same_elements(final(slice)@, old(slice)@),
{
    let ghost seed0 = rng@.seed;
    let ghost s0 = slice@;
    let ghost r0 = rng@;
    let n = slice.len();
    let mut i = n;
    while i > 1
        invariant
            rng@.seed == seed0,
            i <= n,
            n == slice@.len(),
            fisher_yates_from(slice@, rng@, i - 1) == fisher_yates_result(s0, r0),
            same_elements(slice@, s0),
        decreases i,
    {
        i -= 1;
        let j = rng.next_below(i + 1);
        proof {
            lemma_swap_same_elements(slice@, i as int, j as int);
        }
        slice.swap(i, j);
    }
}

} // verus!
