use super::cycles::{
    cycles_wf, cyclic_along, initial_cycles, is_cyclic_rotation, lemma_initial_cycles,
    lemma_merge_cycles, lemma_single_cycle, merge_cycles, merge_owner, merge_pos,
};
use super::permutation::{lemma_swap_same_elements, same_elements, swapped};
use crate::rng::{below, Rng, RngState};
use vstd::prelude::*;

verus! {

/// Positions `i, i - 1, ..., 1` of a Sattolo pass: position `k` is exchanged
/// with a draw below `k`, never with itself.
pub open spec fn sattolo_from<T>(s: Seq<T>, r: RngState, i: int) -> (Seq<T>, RngState)
    decreases i,
{
    if i <= 0 {
        (s, r)
    } else {
        let j = below(r.word(), i as nat) as int;
        sattolo_from(swapped(s, i, j), r.next(), i - 1)
    }
}

/// The sequence and generator state after Sattolo's algorithm on `s`.
pub open spec fn sattolo_result<T>(s: Seq<T>, r: RngState) -> (Seq<T>, RngState) {
    if s.len() <= 1 {
        (s, r)
    } else {
        sattolo_from(s, r, s.len() - 1)
    }
}

/// Sattolo's algorithm: a cyclic permutation, a single cycle through every
/// position, so for two or more distinct elements no element keeps its
/// position.
pub fn sattolo<T>(slice: &mut [T], rng: &mut Rng)
    ensures
        final(rng)@.seed == old(rng)@.seed,
        final(slice)@ == sattolo_result(old(slice)@, old(rng)@).0,
        final(rng)@ == sattolo_result(old(slice)@, old(rng)@).1,
        final(slice)@.len() == old(slice)@.len(),
        same_elements(final(slice)@, old(slice)@),
        is_cyclic_rotation(final(slice)@, old(slice)@),
        old(slice)@.len() >= 2 && old(slice)@.no_duplicates() ==> forall|k: int|
            0 <= k < old(slice)@.len() ==> #[trigger] final(slice)@[k] != old(slice)@[k],
{
    let ghost seed0 = rng@.seed;
    let ghost s0 = slice@;
    let ghost r0 = rng@;
    let len = slice.len();
    if len <= 1 {
        proof {
            let order = Seq::new(len as nat, |k: int| k);
            if len == 1 {
                assert((0int + 1) % 1int == 0);
            }
            assert(cyclic_along(slice@, s0, order));
        }
        return;
    }
    let ghost mut orig: Seq<int> = Seq::new(len as nat, |k: int| k);
    let ghost mut cycles: Seq<Seq<int>> = initial_cycles(len as nat);
    let ghost mut owner: Seq<int> = Seq::new(len as nat, |k: int| k);
    let ghost mut pos: Seq<int> = Seq::new(len as nat, |k: int| 0int);
    proof {
        lemma_initial_cycles(len as nat);
    }
    let mut i = len;
    while i > 1
        invariant
            rng@.seed == seed0,
            1 <= i <= len,
            len == slice@.len(),
            len >= 2,
            sattolo_from(slice@, rng@, i - 1) == sattolo_result(s0, r0),
            same_elements(slice@, s0),
            orig.len() == len,
            forall|k: int| 0 <= k < len ==> 0 <= #[trigger] orig[k] < len,
            forall|k: int| 0 <= k < len ==> #[trigger] slice@[k] == s0[orig[k]],
            forall|p: int| 0 <= p < i ==> #[trigger] orig[p] == p || orig[p] >= i,
            forall|k: int| i <= k < len ==> #[trigger] orig[k] != k,
            i == 1 ==> orig[0] != 0,
            cycles_wf(orig, cycles, owner, pos, len as int, i as int),
        decreases i,
    {
        i -= 1;
        let j = rng.next_below(i);
        proof {
            lemma_swap_same_elements(slice@, i as int, j as int);
            assert(orig[i as int] == i || orig[i as int] >= i + 1);
            assert(orig[j as int] == j || orig[j as int] >= i + 1);
            lemma_merge_cycles(orig, cycles, owner, pos, len as int, i as int, j as int);
            pos = merge_pos(pos, owner, cycles[i as int].len() as int, i as int, j as int);
            owner = merge_owner(owner, i as int, j as int);
            cycles = merge_cycles(cycles, i as int, j as int);
            orig = swapped(orig, i as int, j as int);
        }
        slice.swap(i, j);
    }
    proof {
        lemma_single_cycle(orig, cycles, owner, pos, len as int);
        let order = cycles[0];
        assert forall|t: int| 0 <= t < len implies slice@[#[trigger] order[t]] == s0[order[(t + 1)
            % (len as int)]] by {
            assert(0 <= order[t] < len);
        }
        assert(cyclic_along(slice@, s0, order));
    }
}

} // verus!
