use super::permutation::{apply_permutation, gathered, is_index_permutation, same_elements};
use crate::rng::{between, lemma_between_bounds, ratio_hit, Rng, RngState};
use vstd::prelude::*;

verus! {

/// Where a pass over `n >= 2` cards cuts the deck for the word `w`: a draw
/// between `max(n / 4, 1)` and `min(3n / 4, n - 1)`, clamped to `[1, n - 1]`.
pub open spec fn riffle_cut(n: nat, w: u64) -> nat {
    let lo: nat = if n / 4 >= 1 {
        n / 4
    } else {
        1
    };
    let hi: nat = if 3 * n / 4 <= n - 1 {
        3 * n / 4
    } else {
        (n - 1) as nat
    };
    let c = between(w, lo, hi);
    if c < 1 {
        1
    } else if c > n - 1 {
        (n - 1) as nat
    } else {
        c
    }
}

/// The cut of a pass lies in the middle half of the deck: between
/// `max(n / 4, 1)` and `min(3n / 4, n - 1)`, so both packets are non-empty.
pub proof fn lemma_riffle_cut_in_middle(n: nat, w: u64)
    requires
        n >= 2,
    ensures
        (if n / 4 >= 1 {
            n / 4
        } else {
            1
        }) <= riffle_cut(n, w) <= (if 3 * n / 4 <= n - 1 {
            3 * n / 4
        } else {
            (n - 1) as nat
        }),
        1 <= riffle_cut(n, w) <= n - 1,
{
    let lo: nat = if n / 4 >= 1 {
        n / 4
    } else {
        1
    };
    let hi: nat = if 3 * n / 4 <= n - 1 {
        3 * n / 4
    } else {
        (n - 1) as nat
    };
    assert(lo <= hi);
    lemma_between_bounds(w, lo, hi);
}

/// The rest of a Gilbert-Shannon-Reeds drop sequence when `lrem` cards of
/// the left packet `[0, cut)` and `rrem` cards of the right packet
/// `[cut, n)` remain: each card comes from the left packet with probability
/// `lrem / (lrem + rrem)`. Yields the source positions in drop order.
pub open spec fn riffle_from(cut: nat, n: nat, lrem: nat, rrem: nat, r: RngState) -> (
    Seq<usize>,
    RngState,
)
    decreases lrem + rrem,
{
    if lrem + rrem == 0 {
        (Seq::empty(), r)
    } else {
        let from_left = ratio_hit(r.word(), lrem, lrem + rrem) || rrem == 0;
        if from_left && lrem > 0 {
            let rest = riffle_from(cut, n, (lrem - 1) as nat, rrem, r.next());
            (seq![(cut - lrem) as usize] + rest.0, rest.1)
        } else {
            let rest = riffle_from(cut, n, lrem, (rrem - 1) as nat, r.next());
            (seq![(n - rrem) as usize] + rest.0, rest.1)
        }
    }
}

/// The drop order of one riffle pass over `n >= 2` cards, and the generator
/// state after it: one draw for the cut, then one per card.
pub open spec fn riffle_order(n: nat, r: RngState) -> (Seq<usize>, RngState) {
    let cut = riffle_cut(n, r.word());
    riffle_from(cut, n, cut, (n - cut) as nat, r.next())
}

/// `order` interleaves the packets `[0, cut)` and `[cut, n)`: every position
/// appears once and each packet keeps its own order.
pub open spec fn is_riffle_of(order: Seq<usize>, cut: nat, n: nat) -> bool {
    &&& is_index_permutation(order, n)
    &&& forall|a: int, b: int|
        0 <= a < b < n && order[a] < cut && order[b] < cut ==> #[trigger] order[a]
            < #[trigger] order[b]
    &&& forall|a: int, b: int|
        0 <= a < b < n && order[a] >= cut && order[b] >= cut ==> #[trigger] order[a]
            < #[trigger] order[b]
}

/// The sequence and generator state after one riffle pass.
pub open spec fn riffle_once_result<T>(s: Seq<T>, r: RngState) -> (Seq<T>, RngState) {
    if s.len() <= 1 {
        (s, r)
    } else {
        let o = riffle_order(s.len(), r);
        (gathered(s, o.0), o.1)
    }
}

/// The sequence and generator state after `p` riffle passes.
pub open spec fn riffle_passes<T>(s: Seq<T>, r: RngState, p: nat) -> (Seq<T>, RngState)
    decreases p,
{
    if p == 0 {
        (s, r)
    } else {
        let x = riffle_once_result(s, r);
        riffle_passes(x.0, x.1, (p - 1) as nat)
    }
}

/// The sequence and generator state after `riffle_shuffle(s, passes, _)`.
pub open spec fn riffle_shuffle_result<T>(s: Seq<T>, r: RngState, passes: nat) -> (
    Seq<T>,
    RngState,
) {
    if s.len() <= 1 || passes == 0 {
        (s, r)
    } else {
        riffle_passes(s, r, passes)
    }
}

/// Computes the drop order of one riffle pass over `n >= 2` cards.
pub fn riffle_drop_order(n: usize, rng: &mut Rng) -> (order: Vec<usize>)
    requires
        n >= 2,
    ensures
        final(rng)@.seed == old(rng)@.seed,
        order@ == riffle_order(n as nat, old(rng)@).0,
        final(rng)@ == riffle_order(n as nat, old(rng)@).1,
        is_riffle_of(order@, riffle_cut(n as nat, old(rng)@.word()), n as nat),
{
    let ghost seed0 = rng@.seed;
    let ghost r0 = rng@;
    let cut_min = if n / 4 >= 1 {
        n / 4
    } else {
        1
    };
    let cut_max = if n / 4 * 3 + (n % 4) * 3 / 4 <= n - 1 {
        n / 4 * 3 + (n % 4) * 3 / 4
    } else {
        n - 1
    };
    assert(n / 4 * 3 + (n % 4) * 3 / 4 == 3 * n / 4);
    let drawn = rng.next_between(cut_min, cut_max);
    let cut = if drawn < 1 {
        1
    } else if drawn > n - 1 {
        n - 1
    } else {
        drawn
    };
    assert(cut == riffle_cut(n as nat, r0.word()));
    let ghost r1 = rng@;
    let mut order: Vec<usize> = Vec::with_capacity(n);
    let mut l_idx: usize = 0;
    let mut r_idx: usize = cut;
    while l_idx < cut || r_idx < n
        invariant
            rng@.seed == seed0,
            1 <= cut < n,
            l_idx <= cut <= r_idx <= n,
            order@ + riffle_from(cut as nat, n as nat, (cut - l_idx) as nat, (n - r_idx) as nat, rng@).0
                == riffle_from(cut as nat, n as nat, cut as nat, (n - cut) as nat, r1).0,
            riffle_from(cut as nat, n as nat, (cut - l_idx) as nat, (n - r_idx) as nat, rng@).1
                == riffle_from(cut as nat, n as nat, cut as nat, (n - cut) as nat, r1).1,
            order@.len() == l_idx + (r_idx - cut),
            forall|k: int|
                0 <= k < order@.len() ==> (#[trigger] order@[k] < l_idx || (cut <= order@[k]
                    < r_idx)),
            forall|a: int, b: int|
                0 <= a < b < order@.len() && order@[a] < cut && order@[b] < cut
                    ==> #[trigger] order@[a] < #[trigger] order@[b],
            forall|a: int, b: int|
                0 <= a < b < order@.len() && order@[a] >= cut && order@[b] >= cut
                    ==> #[trigger] order@[a] < #[trigger] order@[b],
        decreases (cut - l_idx) + (n - r_idx),
    {
        let l_remaining = cut - l_idx;
        let r_remaining = n - r_idx;
        let total = l_remaining + r_remaining;
        let hit = rng.next_ratio(l_remaining, total);
        let ghost prev = order@;
        if (hit || r_remaining == 0) && l_remaining > 0 {
            order.push(l_idx);
            l_idx += 1;
        } else {
            order.push(r_idx);
            r_idx += 1;
        }
        proof {
            assert(order@ == prev.push(order@.last()));
            assert(order@ + riffle_from(
                cut as nat,
                n as nat,
                (cut - l_idx) as nat,
                (n - r_idx) as nat,
                rng@,
            ).0 =~= prev + (seq![order@.last()] + riffle_from(
                cut as nat,
                n as nat,
                (cut - l_idx) as nat,
                (n - r_idx) as nat,
                rng@,
            ).0));
        }
    }
    proof {
        assert(order@ =~= order@ + Seq::<usize>::empty());
        assert forall|a: int, b: int| 0 <= a < n && 0 <= b < n && a != b implies #[trigger] order@[a]
            != #[trigger] order@[b] by {
            if a < b {
                if order@[a] < cut && order@[b] < cut {
                } else if order@[a] >= cut && order@[b] >= cut {
                }
            } else {
                if order@[a] < cut && order@[b] < cut {
                } else if order@[a] >= cut && order@[b] >= cut {
                }
            }
        }
    }
    order
}

/// One riffle pass: cut near the middle, then drop cards from the two
/// packets with probability proportional to their remaining sizes.
pub fn riffle_once<T: Clone>(slice: &mut [T], rng: &mut Rng)
    ensures
        final(rng)@.seed == old(rng)@.seed,
        final(slice)@ == riffle_once_result(old(slice)@, old(rng)@).0,
        final(rng)@ == riffle_once_result(old(slice)@, old(rng)@).1,
        same_elements(final(slice)@, old(slice)@),
        old(slice)@.len() >= 2 ==> is_riffle_of(
            riffle_order(old(slice)@.len(), old(rng)@).0,
            riffle_cut(old(slice)@.len(), old(rng)@.word()),
            old(slice)@.len(),
        ),
{
    let len = slice.len();
    if len <= 1 {
        return;
    }
    let order = riffle_drop_order(len, rng);
    apply_permutation(slice, order.as_slice());
}

/// Riffle shuffle in the Gilbert-Shannon-Reeds model, `passes` times.
pub fn riffle_shuffle<T: Clone>(slice: &mut [T], passes: usize, rng: &mut Rng)
    ensures
        final(rng)@.seed == old(rng)@.seed,
        final(slice)@ == riffle_shuffle_result(old(slice)@, old(rng)@, passes as nat).0,
        final(rng)@ == riffle_shuffle_result(old(slice)@, old(rng)@, passes as nat).1,
        same_elements(final(slice)@, old(slice)@),
        passes >= 1 && old(slice)@.len() >= 2 ==> is_riffle_of(
            riffle_order(old(slice)@.len(), old(rng)@).0,
            riffle_cut(old(slice)@.len(), old(rng)@.word()),
            old(slice)@.len(),
        ),
        passes == 1 && old(slice)@.len() >= 2 ==> final(slice)@ == gathered(
            old(slice)@,
            riffle_order(old(slice)@.len(), old(rng)@).0,
        ),
{
    let ghost seed0 = rng@.seed;
    let ghost s0 = slice@;
    let ghost r0 = rng@;
    let len = slice.len();
    if len <= 1 || passes == 0 {
        return;
    }
    riffle_once(slice, rng);
    proof {
        let x = riffle_once_result(s0, r0);
        assert(riffle_passes(s0, r0, passes as nat) == riffle_passes(x.0, x.1, (passes - 1) as nat));
    }
    let mut p: usize = 1;
    while p < passes
        invariant
            rng@.seed == seed0,
            p <= passes,
            riffle_passes(slice@, rng@, (passes - p) as nat) == riffle_passes(s0, r0, passes as nat),
            same_elements(slice@, s0),
        decreases passes - p,
    {
        riffle_once(slice, rng);
        p += 1;
    }
}

} // verus!
