use super::permutation::{apply_permutation, is_index_permutation, same_elements};
use vstd::prelude::*;

verus! {

/// Position of the element that a perfect interleave of `n` elements moves
/// to position `k`. The first half holds `ceil(n / 2)` elements; an
/// out-shuffle starts with the first half, an in-shuffle with the second.
pub open spec fn interleave_source(n: int, k: int, out_shuffle: bool) -> int {
    let mid = (n + 1) / 2;
    if out_shuffle {
        if k % 2 == 0 {
            k / 2
        } else {
            mid + k / 2
        }
    } else {
        if k % 2 == 0 && k / 2 < n - mid {
            mid + k / 2
        } else {
            k / 2
        }
    }
}

/// The index sequence of a perfect interleave of `n` elements.
pub open spec fn interleave_order(n: nat, out_shuffle: bool) -> Seq<usize> {
    Seq::new(n, |k: int| interleave_source(n as int, k, out_shuffle) as usize)
}

/// A perfect interleave moves every element exactly once.
pub proof fn lemma_interleave_is_permutation(n: nat, out_shuffle: bool)
    requires
        n <= usize::MAX,
    ensures
        is_index_permutation(interleave_order(n, out_shuffle), n),
{
    let p = interleave_order(n, out_shuffle);
    let mid = (n + 1) / 2;
    assert forall|k: int| 0 <= k < n implies 0 <= #[trigger] interleave_source(n as int, k, out_shuffle) < n by {
    }
    assert forall|a: int, b: int| 0 <= a < n && 0 <= b < n && a != b implies #[trigger] p[a]
        != #[trigger] p[b] by {
        let sa = interleave_source(n as int, a, out_shuffle);
        let sb = interleave_source(n as int, b, out_shuffle);
        assert(p[a] == sa);
        assert(p[b] == sb);
    }
}

/// An out-shuffle keeps the first card on top (and, for an even number of
/// cards, the last at the bottom); an in-shuffle moves the first card to the
/// second position and the first card of the second half to the top.
pub proof fn lemma_interleave_ends(n: int)
    requires
        n >= 2,
    ensures
        interleave_source(n, 0, true) == 0,
        n % 2 == 0 ==> interleave_source(n, n - 1, true) == n - 1,
        interleave_source(n, 1, false) == 0,
        interleave_source(n, 0, false) == (n + 1) / 2,
{
}

/// Perfect interleave (Faro shuffle), a fixed permutation: the halves are
/// woven together card by card. An out-shuffle keeps the first card first;
/// an in-shuffle moves it to the second position.
pub fn interleave<T: Clone>(slice: &mut [T], out_shuffle: bool)
    ensures
        final(slice)@.len() == old(slice)@.len(),
        forall|k: int|
            0 <= k < old(slice)@.len() ==> #[trigger] final(slice)@[k] == old(slice)@[interleave_source(
                old(slice)@.len() as int,
                k,
                out_shuffle,
            )],
        same_elements(final(slice)@, old(slice)@),
{
    let len = slice.len();
    if len <= 1 {
        proof {
            assert forall|k: int| 0 <= k < len implies #[trigger] interleave_source(len as int, k, out_shuffle)
                == k by {}
        }
        return;
    }
    let mid = len - len / 2;
    let mut order: Vec<usize> = Vec::with_capacity(len);
    let mut k: usize = 0;
    while k < len
        invariant
            k <= len,
            mid == (len + 1) / 2,
            order@ == interleave_order(len as nat, out_shuffle).subrange(0, k as int),
        decreases len - k,
    {
        let source = if out_shuffle {
            if k % 2 == 0 {
                k / 2
            } else {
                mid + k / 2
            }
        } else {
            if k % 2 == 0 && k / 2 < len - mid {
                mid + k / 2
            } else {
                k / 2
            }
        };
        order.push(source);
        k += 1;
        assert(order@ =~= interleave_order(len as nat, out_shuffle).subrange(0, k as int));
    }
    proof {
        assert(order@ =~= interleave_order(len as nat, out_shuffle));
        lemma_interleave_is_permutation(len as nat, out_shuffle);
    }
    apply_permutation(slice, order.as_slice());
}

} // verus!
