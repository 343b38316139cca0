use super::permutation::{apply_permutation, gathered, is_index_permutation, same_elements, swapped};
use crate::rng::{below, Rng, RngState};
use vstd::prelude::*;

verus! {

/// Steps `i, i + 1, ..., n - 1` of an inside-out Fisher-Yates shuffle of
/// positions: step `i` appends `i` and exchanges it with a draw below `i + 1`.
pub open spec fn inside_out_from(n: nat, i: nat, p: Seq<usize>, r: RngState) -> (
    Seq<usize>,
    RngState,
)
    decreases n - i,
{
    if i >= n {
        (p, r)
    } else {
        let j = below(r.word(), i + 1) as int;
        inside_out_from(n, i + 1, swapped(p.push(i as usize), i as int, j), r.next())
    }
}

/// The order of an inside-out Fisher-Yates shuffle of `n` positions and the
/// generator state after it (one draw per position).
pub open spec fn inside_out_order(n: nat, r: RngState) -> (Seq<usize>, RngState) {
    inside_out_from(n, 0, Seq::empty(), r)
}

/// Computes the inside-out Fisher-Yates order of `n` positions.
pub fn inside_out_indices(n: usize, rng: &mut Rng) -> (order: Vec<usize>)
    ensures
        final(rng)@.seed == old(rng)@.seed,
        order@ == inside_out_order(n as nat, old(rng)@).0,
        final(rng)@ == inside_out_order(n as nat, old(rng)@).1,
        is_index_permutation(order@, n as nat),
{
    let ghost seed0 = rng@.seed;
    let ghost r0 = rng@;
    let mut order: Vec<usize> = Vec::with_capacity(n);
    let mut i: usize = 0;
    while i < n
        invariant
            rng@.seed == seed0,
            i <= n,
            order@.len() == i,
            inside_out_from(n as nat, i as nat, order@, rng@) == inside_out_order(n as nat, r0),
            is_index_permutation(order@, i as nat),
        decreases n - i,
    {
        let j = rng.next_below(i + 1);
        let ghost pushed = order@.push(i);
        order.push(i);
        order.as_mut_slice().swap(i, j);
        proof {
            assert(order@ == swapped(pushed, i as int, j as int));
            assert forall|k: int| 0 <= k < i + 1 implies #[trigger] order@[k] < i + 1 by {
                if k != i && k != j {
                    assert(order@[k] == pushed[k]);
                }
            }
            assert forall|a: int, b: int|
                0 <= a < i + 1 && 0 <= b < i + 1 && a != b implies #[trigger] order@[a]
                != #[trigger] order@[b] by {
                let sa = if a == i {
                    j as int
                } else if a == j {
                    i as int
                } else {
                    a
                };
                let sb = if b == i {
                    j as int
                } else if b == j {
                    i as int
                } else {
                    b
                };
                assert(order@[a] == pushed[sa]);
                assert(order@[b] == pushed[sb]);
                if sa < i && sb < i {
                    assert(pushed[sa] != pushed[sb]);
                }
            }
        }
        i += 1;
    }
    order
}

/// Returns the elements of `slice` in shuffled order (inside-out
/// Fisher-Yates), leaving `slice` unchanged: position `k` of the result is a
/// clone of the element at position `order[k]` of `slice`.
pub fn shuffle_copy<T: Clone>(slice: &[T], rng: &mut Rng) -> (result: Vec<T>)
    ensures
        final(rng)@.seed == old(rng)@.seed,
        slice@.len() == 0 ==> result@.len() == 0 && final(rng)@ == old(rng)@,
        slice@.len() > 0 ==> final(rng)@ == inside_out_order(slice@.len(), old(rng)@).1,
        result@.len() == slice@.len(),
        slice@.len() > 0 ==> is_index_permutation(
            inside_out_order(slice@.len(), old(rng)@).0,
            slice@.len(),
        ),
        slice@.len() > 0 ==> forall|k: int|
            0 <= k < slice@.len() ==> cloned::<T>(
                slice@[inside_out_order(slice@.len(), old(rng)@).0[k] as int],
                #[trigger] result@[k],
            ),
{
    let n = slice.len();
    if n == 0 {
        return Vec::new();
    }
    let ghost r0 = rng@;
    let order = inside_out_indices(n, rng);
    let mut copies: Vec<T> = Vec::with_capacity(n);
    let mut i: usize = 0;
    while i < n
        invariant
            i <= n,
            n == slice@.len(),
            copies@.len() == i,
            forall|k: int| 0 <= k < i ==> cloned::<T>(slice@[k], #[trigger] copies@[k]),
        decreases n - i,
    {
        let c = slice[i].clone();
        copies.push(c);
        i += 1;
    }
    let ghost before = copies@;
    apply_permutation(copies.as_mut_slice(), order.as_slice());
    proof {
        assert forall|k: int| 0 <= k < n implies cloned::<T>(
            slice@[order@[k] as int],
            #[trigger] copies@[k],
        ) by {
            assert(copies@[k] == before[order@[k] as int]);
        }
    }
    copies
}

/// Shuffles the items of a stream as they arrive (inside-out Fisher-Yates on
/// a growing reservoir): position `k` of the result holds the item at
/// position `order[k]` of `items`.
pub fn reservoir_shuffle<T>(items: Vec<T>, rng: &mut Rng) -> (result: Vec<T>)
    ensures
        final(rng)@.seed == old(rng)@.seed,
        result@ == gathered(items@, inside_out_order(items@.len(), old(rng)@).0),
        final(rng)@ == inside_out_order(items@.len(), old(rng)@).1,
        same_elements(result@, items@),
{
    let n = items.len();
    let order = inside_out_indices(n, rng);
    let mut result = items;
    apply_permutation(result.as_mut_slice(), order.as_slice());
    result
}

} // verus!
