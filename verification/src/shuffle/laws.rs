//! Laws that say what each random shuffle does with its draws, stated over
//! the results: which position receives which element, and how a shuffle of
//! `n` elements decomposes into a draw and a shuffle of fewer.

use super::fisher_yates::{fisher_yates_from, fisher_yates_result};
use super::overhand::{
    chunk_size, lemma_overhand_is_permutation, lemma_overhand_unfold, overhand_from,
    overhand_once_result, overhand_passes, overhand_shuffle_result,
};
use super::partial::{partial_from, partial_result};
use super::riffle::{lemma_riffle_cut_in_middle, riffle_cut, riffle_from, riffle_order};
use super::sattolo::{sattolo_from, sattolo_result};
use super::permutation::swapped;
use crate::rng::{below, ratio_hit, RngState};
use vstd::prelude::*;

verus! {

/// A draw below `n >= 1` is an index below `n`.
proof fn lemma_below_lt(w: u64, n: nat)
    requires
        n >= 1,
    ensures
        below(w, n) < n,
{
}

/// Positions above `i` are untouched by the Fisher-Yates steps `i, ..., 1`.
proof fn lemma_fisher_yates_prefix<T>(t: Seq<T>, r: RngState, i: int)
    requires
        0 <= i < t.len(),
    ensures
        fisher_yates_from(t, r, i).0 == fisher_yates_from(t.take(i + 1), r, i).0 + t.skip(i + 1),
        fisher_yates_from(t, r, i).1 == fisher_yates_from(t.take(i + 1), r, i).1,
    decreases i,
{
    if i <= 0 {
        assert(t.take(i + 1) + t.skip(i + 1) =~= t);
    } else {
        let j = below(r.word(), (i + 1) as nat) as int;
        lemma_below_lt(r.word(), (i + 1) as nat);
        let t2 = swapped(t, i, j);
        let t3 = swapped(t.take(i + 1), i, j);
        lemma_fisher_yates_prefix(t2, r.next(), i - 1);
        lemma_fisher_yates_prefix(t3, r.next(), i - 1);
        assert(t3.take(i) =~= t2.take(i));
        assert(t2.skip(i) =~= t3.skip(i) + t.skip(i + 1));
        assert(fisher_yates_from(t3.take(i), r.next(), i - 1).0 + t3.skip(i) + t.skip(i + 1)
            =~= fisher_yates_from(t3.take(i), r.next(), i - 1).0 + t2.skip(i));
    }
}

/// Fisher-Yates, one draw at a time: for `n >= 2` elements, the first word
/// picks a position `j` among all `n` (`below(w, n)`); the element at `j`
/// ends in the last position, and the first `n - 1` positions are a
/// Fisher-Yates shuffle, with the following draws, of the other elements
/// (the sequence with positions `j` and `n - 1` exchanged, without its last).
pub proof fn lemma_fisher_yates_recursion<T>(s: Seq<T>, r: RngState)
    requires
        s.len() >= 2,
    ensures
        ({
            let n = s.len() as int;
            let j = below(r.word(), n as nat) as int;
            let u = swapped(s, n - 1, j);
            &&& 0 <= j < n
            &&& fisher_yates_result(s, r).0 == fisher_yates_result(u.take(n - 1), r.next()).0.push(
                s[j],
            )
            &&& fisher_yates_result(s, r).1 == fisher_yates_result(u.take(n - 1), r.next()).1
        }),
{
    let n = s.len() as int;
    let j = below(r.word(), n as nat) as int;
    lemma_below_lt(r.word(), n as nat);
    let u = swapped(s, n - 1, j);
    lemma_fisher_yates_prefix(u, r.next(), n - 2);
    assert(u.take(n - 1).len() - 1 == n - 2);
    assert(u.skip(n - 1) =~= seq![s[j]]);
}

/// Fisher-Yates leaves fewer than two elements as they are, with no draw.
pub proof fn lemma_fisher_yates_small<T>(s: Seq<T>, r: RngState)
    requires
        s.len() <= 1,
    ensures
        fisher_yates_result(s, r) == (s, r),
{
}

/// Positions above `i` are untouched by the Sattolo steps `i, ..., 1`.
proof fn lemma_sattolo_prefix<T>(t: Seq<T>, r: RngState, i: int)
    requires
        0 <= i < t.len(),
    ensures
        sattolo_from(t, r, i).0 == sattolo_from(t.take(i + 1), r, i).0 + t.skip(i + 1),
        sattolo_from(t, r, i).1 == sattolo_from(t.take(i + 1), r, i).1,
    decreases i,
{
    if i <= 0 {
        assert(t.take(i + 1) + t.skip(i + 1) =~= t);
    } else {
        let j = below(r.word(), i as nat) as int;
        lemma_below_lt(r.word(), i as nat);
        let t2 = swapped(t, i, j);
        let t3 = swapped(t.take(i + 1), i, j);
        lemma_sattolo_prefix(t2, r.next(), i - 1);
        lemma_sattolo_prefix(t3, r.next(), i - 1);
        assert(t3.take(i) =~= t2.take(i));
        assert(t2.skip(i) =~= t3.skip(i) + t.skip(i + 1));
        assert(sattolo_from(t3.take(i), r.next(), i - 1).0 + t3.skip(i) + t.skip(i + 1)
            =~= sattolo_from(t3.take(i), r.next(), i - 1).0 + t2.skip(i));
    }
}

/// Sattolo, one draw at a time: for `n >= 2` elements, the first word picks
/// a position `j` strictly below the last (`below(w, n - 1)`); the element at
/// `j` ends in the last position, and the first `n - 1` positions are a
/// Sattolo shuffle, with the following draws, of the other elements (the
/// sequence with positions `j` and `n - 1` exchanged, without its last).
pub proof fn lemma_sattolo_recursion<T>(s: Seq<T>, r: RngState)
    requires
        s.len() >= 2,
    ensures
        ({
            let n = s.len() as int;
            let j = below(r.word(), (n - 1) as nat) as int;
            let u = swapped(s, n - 1, j);
            &&& 0 <= j < n - 1
            &&& sattolo_result(s, r).0 == sattolo_result(u.take(n - 1), r.next()).0.push(s[j])
            &&& sattolo_result(s, r).1 == sattolo_result(u.take(n - 1), r.next()).1
        }),
{
    let n = s.len() as int;
    let j = below(r.word(), (n - 1) as nat) as int;
    lemma_below_lt(r.word(), (n - 1) as nat);
    let u = swapped(s, n - 1, j);
    lemma_sattolo_prefix(u, r.next(), n - 2);
    assert(u.skip(n - 1) =~= seq![s[j]]);
}

/// A partial-shuffle step at `i >= 1` never touches the first element: the
/// steps `i, ..., c - 1` on `t` are the steps `i - 1, ..., c - 2` on the rest.
proof fn lemma_partial_shift<T>(t: Seq<T>, r: RngState, i: int, c: int)
    requires
        1 <= i,
        c <= t.len(),
        t.len() >= 1,
    ensures
        partial_from(t, r, i, c).0 == seq![t[0]] + partial_from(t.skip(1), r, i - 1, c - 1).0,
        partial_from(t, r, i, c).1 == partial_from(t.skip(1), r, i - 1, c - 1).1,
    decreases c - i,
{
    if i >= c {
        assert(seq![t[0]] + t.skip(1) =~= t);
    } else {
        let j = i + below(r.word(), (t.len() - i) as nat);
        lemma_below_lt(r.word(), (t.len() - i) as nat);
        let t2 = swapped(t, i, j);
        assert(t.skip(1).len() - (i - 1) == t.len() - i);
        assert(swapped(t.skip(1), i - 1, j - 1) =~= t2.skip(1));
        lemma_partial_shift(t2, r.next(), i + 1, c);
    }
}

/// Partial shuffle, one draw at a time: when at least one position is to be
/// drawn from `n >= 2` elements, the first word picks a position `j` among
/// all `n` (`below(w, n)`, not only among the first `k`); the element at `j`
/// ends first, and the other positions are a partial shuffle of `k - 1`
/// positions, with the following draws, of the rest (the sequence with
/// positions `0` and `j` exchanged, without its first). From three elements
/// on, the generator ends in the same state as well.
pub proof fn lemma_partial_recursion<T>(s: Seq<T>, r: RngState, k: nat)
    requires
        s.len() >= 2,
        k >= 1,
    ensures
        ({
            let n = s.len() as int;
            let j = below(r.word(), n as nat) as int;
            let u = swapped(s, 0, j);
            &&& 0 <= j < n
            &&& partial_result(s, r, k).0 == seq![s[j]] + partial_result(
                u.skip(1),
                r.next(),
                (k - 1) as nat,
            ).0
            &&& n >= 3 ==> partial_result(s, r, k).1 == partial_result(
                u.skip(1),
                r.next(),
                (k - 1) as nat,
            ).1
        }),
{
    let n = s.len() as int;
    let j = below(r.word(), n as nat) as int;
    lemma_below_lt(r.word(), n as nat);
    let u = swapped(s, 0, j);
    let c: int = if k <= n {
        k as int
    } else {
        n
    };
    assert(partial_result(s, r, k) == partial_from(s, r, 0, c));
    assert(partial_from(s, r, 0, c) == partial_from(u, r.next(), 1, c));
    lemma_partial_shift(u, r.next(), 1, c);
    let rest = u.skip(1);
    if n >= 3 && k >= 2 {
        let c2: int = if k - 1 <= n - 1 {
            k - 1
        } else {
            n - 1
        };
        assert(c2 == c - 1);
        assert(partial_result(rest, r.next(), (k - 1) as nat) == partial_from(
            rest,
            r.next(),
            0,
            c - 1,
        ));
    } else if k == 1 {
        assert(partial_from(rest, r.next(), 0, 0) == (rest, r.next()));
    } else {
        // n == 2 and k >= 2: the last step draws below 1 and exchanges
        // position 1 with itself.
        assert(c == 2);
        lemma_below_lt(r.next().word(), 1);
        assert(partial_from(rest, r.next(), 0, 1).0 == partial_from(
            swapped(rest, 0, 0),
            r.next().next(),
            1,
            1,
        ).0);
        assert(swapped(rest, 0, 0) =~= rest);
    }
}

/// The first element after a partial shuffle of at least one position is the
/// element at a position drawn among all `n` by the first word.
pub proof fn lemma_partial_first<T>(s: Seq<T>, r: RngState, k: nat)
    requires
        s.len() >= 2,
        k >= 1,
    ensures
        partial_result(s, r, k).0[0] == s[below(r.word(), s.len()) as int],
        below(r.word(), s.len()) < s.len(),
{
    lemma_partial_recursion(s, r, k);
}

/// An overhand pass keeps the number of elements.
proof fn lemma_overhand_once_len<T>(s: Seq<T>, r: RngState)
    requires
        s.len() <= usize::MAX,
    ensures
        overhand_once_result(s, r).0.len() == s.len(),
{
    if s.len() >= 2 {
        lemma_overhand_is_permutation(s.len(), r);
    }
}

/// Overhand passes compose: `p + 1` passes over two or more elements are one
/// pass (`overhand_once`) followed by `p` passes from where it left the
/// elements and the generator; no pass at all changes nothing.
pub proof fn lemma_overhand_passes_compose<T>(s: Seq<T>, r: RngState, p: nat)
    requires
        2 <= s.len() <= usize::MAX,
    ensures
        overhand_shuffle_result(s, r, 0) == (s, r),
        overhand_shuffle_result(s, r, 1) == overhand_once_result(s, r),
        ({
            let o = overhand_once_result(s, r);
            overhand_shuffle_result(s, r, p + 1) == overhand_shuffle_result(o.0, o.1, p)
        }),
{
    lemma_overhand_once_len(s, r);
    let o = overhand_once_result(s, r);
    assert(overhand_passes(s, r, p + 1) == overhand_passes(o.0, o.1, p));
    assert(overhand_passes(o.0, o.1, 0) == (o.0, o.1));
    assert(overhand_passes(s, r, 1) == overhand_passes(o.0, o.1, 0));
}

/// An overhand pass first cuts a chunk of `c` cards (`1 <= c <= n`) from the
/// back of the hand, and that chunk comes first in the result, in its own
/// order: the result begins with the last `c` elements, ending with the last.
pub proof fn lemma_overhand_first_chunk<T>(s: Seq<T>, r: RngState)
    requires
        2 <= s.len() <= usize::MAX,
    ensures
        ({
            let n = s.len() as int;
            let c = chunk_size(r.word(), n as nat) as int;
            &&& 1 <= c <= n
            &&& forall|t: int|
                0 <= t < c ==> #[trigger] overhand_once_result(s, r).0[t] == s[n - c + t]
        }),
{
    let n = s.len() as int;
    lemma_overhand_unfold(n as nat, r);
    lemma_overhand_is_permutation(n as nat, r);
    let c = chunk_size(r.word(), n as nat) as int;
    let o = overhand_from(n as nat, r).0;
    assert forall|t: int| 0 <= t < c implies #[trigger] overhand_once_result(s, r).0[t] == s[n
        - c + t] by {
        assert(o[t] == (n - c + t) as usize);
    }
}

/// How many of the dropped positions `o` lie in the left packet `[0, cut)`.
pub open spec fn left_drops(o: Seq<usize>, cut: nat) -> nat
    decreases o.len(),
{
    if o.len() == 0 {
        0
    } else {
        (if o[0] < cut {
            1nat
        } else {
            0nat
        }) + left_drops(o.drop_first(), cut)
    }
}

/// `k` draws after the next one are `k + 1` draws.
proof fn lemma_skip_next(r: RngState, k: nat)
    ensures
        r.next().skip(k) == r.skip(k + 1),
    decreases k,
{
    if k > 0 {
        lemma_skip_next(r, (k - 1) as nat);
        assert(r.next().skip(k) == r.next().skip((k - 1) as nat).next());
        assert(r.skip(k + 1) == r.skip(k).next());
        assert(((k - 1) as nat) + 1 == k);
    } else {
        assert(r.skip(1) == r.skip(0).next());
        assert(r.skip(0) == r);
        assert(r.next().skip(0) == r.next());
    }
}

proof fn lemma_riffle_from_len(cut: nat, n: nat, lrem: nat, rrem: nat, r: RngState)
    ensures
        riffle_from(cut, n, lrem, rrem, r).0.len() == lrem + rrem,
    decreases lrem + rrem,
{
    if lrem + rrem > 0 {
        let from_left = ratio_hit(r.word(), lrem, lrem + rrem) || rrem == 0;
        if from_left && lrem > 0 {
            lemma_riffle_from_len(cut, n, (lrem - 1) as nat, rrem, r.next());
        } else {
            lemma_riffle_from_len(cut, n, lrem, (rrem - 1) as nat, r.next());
        }
    }
}

/// The first drop of `riffle_from` and the drops after it.
proof fn lemma_riffle_from_first(cut: nat, n: nat, lrem: nat, rrem: nat, r: RngState)
    requires
        lrem <= cut <= n,
        n <= usize::MAX,
        rrem <= n - cut,
        lrem + rrem > 0,
    ensures
        ({
            let o = riffle_from(cut, n, lrem, rrem, r).0;
            let left = lrem > 0 && (rrem == 0 || ratio_hit(r.word(), lrem, lrem + rrem));
            let l2: nat = if left {
                (lrem - 1) as nat
            } else {
                lrem
            };
            let r2: nat = if left {
                rrem
            } else {
                (rrem - 1) as nat
            };
            &&& (o[0] < cut) == left
            &&& l2 + r2 + 1 == lrem + rrem
            &&& o.drop_first() == riffle_from(cut, n, l2, r2, r.next()).0
        }),
{
    let o = riffle_from(cut, n, lrem, rrem, r).0;
    let from_left = ratio_hit(r.word(), lrem, lrem + rrem) || rrem == 0;
    if from_left && lrem > 0 {
        let rest = riffle_from(cut, n, (lrem - 1) as nat, rrem, r.next()).0;
        assert(o == seq![(cut - lrem) as usize] + rest);
        assert(o.drop_first() =~= rest);
    } else {
        let rest = riffle_from(cut, n, lrem, (rrem - 1) as nat, r.next()).0;
        assert(o == seq![(n - rrem) as usize] + rest);
        assert(o.drop_first() =~= rest);
    }
}

#[verifier::rlimit(40)]
proof fn lemma_riffle_from_rule(cut: nat, n: nat, lrem: nat, rrem: nat, r: RngState, k: int)
    requires
        lrem <= cut <= n,
        n <= usize::MAX,
        rrem <= n - cut,
        0 <= k < lrem + rrem,
    ensures
        ({
            let o = riffle_from(cut, n, lrem, rrem, r).0;
            let lc = left_drops(o.take(k), cut) as int;
            &&& lc <= lrem
            &&& k - lc <= rrem
            &&& (o[k] < cut) == (lrem - lc > 0 && (rrem - (k - lc) == 0 || ratio_hit(
                r.skip(k as nat).word(),
                (lrem - lc) as nat,
                ((lrem - lc) + (rrem - (k - lc))) as nat,
            )))
        }),
    decreases lrem + rrem,
{
    let o = riffle_from(cut, n, lrem, rrem, r).0;
    lemma_riffle_from_len(cut, n, lrem, rrem, r);
    lemma_riffle_from_first(cut, n, lrem, rrem, r);
    let left = lrem > 0 && (rrem == 0 || ratio_hit(r.word(), lrem, lrem + rrem));
    let l2: nat = if left {
        (lrem - 1) as nat
    } else {
        lrem
    };
    let r2: nat = if left {
        rrem
    } else {
        (rrem - 1) as nat
    };
    if k == 0 {
        assert(o.take(0) =~= Seq::<usize>::empty());
        assert(left_drops(o.take(0), cut) == 0);
    } else {
        let rest = riffle_from(cut, n, l2, r2, r.next()).0;
        lemma_riffle_from_len(cut, n, l2, r2, r.next());
        lemma_riffle_from_rule(cut, n, l2, r2, r.next(), k - 1);
        let t = o.take(k);
        assert(t.drop_first() =~= rest.take(k - 1));
        assert(t[0] == o[0]);
        assert(left_drops(t, cut) == (if t[0] < cut {
            1nat
        } else {
            0nat
        }) + left_drops(t.drop_first(), cut));
        assert(o[k] == rest[k - 1]);
        lemma_skip_next(r, (k - 1) as nat);
    }
}

/// The Gilbert-Shannon-Reeds drop rule of a riffle pass over `n >= 2`
/// cards cut at `cut`: the card dropped at step `k` comes from the left
/// packet `[0, cut)` exactly when the left packet still has cards and either
/// the right packet is empty or the step's word `w` (the draw after the cut
/// and the `k` drops before) satisfies `w / u64::MAX < L / (L + R)`, where
/// `L` and `R` are the cards still in the left and right packets.
pub proof fn lemma_riffle_drop_rule(n: nat, r: RngState, k: int)
    requires
        2 <= n <= usize::MAX,
        0 <= k < n,
    ensures
        riffle_order(n, r).0.len() == n,
        ({
            let cut = riffle_cut(n, r.word());
            let o = riffle_order(n, r).0;
            let lc = left_drops(o.take(k), cut) as int;
            let lrest = cut - lc;
            let rrest = (n - cut) - (k - lc);
            let w = r.next().skip(k as nat).word();
            &&& 1 <= cut < n
            &&& 0 <= lrest
            &&& 0 <= rrest
            &&& (o[k] < cut) == (lrest > 0 && (rrest == 0 || (w as int) * (lrest + rrest) < lrest
                * (u64::MAX as int)))
        }),
{
    let cut = riffle_cut(n, r.word());
    lemma_riffle_from_len(cut, n, cut, (n - cut) as nat, r.next());
    lemma_riffle_cut_in_middle(n, r.word());
    lemma_riffle_from_rule(cut, n, cut, (n - cut) as nat, r.next(), k);
}

} // verus!
