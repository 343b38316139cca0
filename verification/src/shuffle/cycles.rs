//! Cycle structure of the permutation that Sattolo's algorithm builds.
//!
//! While the algorithm runs, every position below the boundary `b` lies in a
//! cycle of its own, and every position at or above `b` lies in one of those
//! cycles. Each exchange of the top active position with a lower one merges
//! their two cycles, so when one active position is left a single cycle runs
//! through every position.

use super::permutation::{lemma_distinct_indices_bounded, swapped};
use vstd::prelude::*;

verus! {

/// `order` lists each position of `[0, n)` exactly once.
pub open spec fn lists_positions(order: Seq<int>, n: nat) -> bool {
    &&& order.len() == n
    &&& forall|t: int| 0 <= t < n ==> 0 <= #[trigger] order[t] < n
    &&& forall|a: int, c: int| 0 <= a < c < n ==> #[trigger] order[a] != #[trigger] order[c]
}

/// `after` is `before` moved one step along a single cycle through all of its
/// positions: walking the positions in the order `order`, each receives the
/// element of the next, and the last receives that of the first.
pub open spec fn cyclic_along<T>(after: Seq<T>, before: Seq<T>, order: Seq<int>) -> bool {
    &&& after.len() == before.len()
    &&& lists_positions(order, before.len())
    &&& forall|t: int|
        0 <= t < before.len() ==> after[#[trigger] order[t]] == before[order[(t + 1)
            % (before.len() as int)]]
}

/// `after` is a cyclic rotation of `before`: its positions form one cycle.
pub open spec fn is_cyclic_rotation<T>(after: Seq<T>, before: Seq<T>) -> bool {
    exists|order: Seq<int>| #[trigger] cyclic_along(after, before, order)
}

/// The cycles of `orig` (position `x` holds the element from position
/// `orig[x]`) with boundary `b`: `cycles[p]` starts at the active position
/// `p < b` and follows `orig`; `owner` and `pos` say where each position of
/// `[0, n)` lies in them.
#[verifier::opaque]
pub open spec fn cycles_wf(
    orig: Seq<int>,
    cycles: Seq<Seq<int>>,
    owner: Seq<int>,
    pos: Seq<int>,
    n: int,
    b: int,
) -> bool {
    &&& orig.len() == n
    &&& owner.len() == n
    &&& pos.len() == n
    &&& cycles.len() == b
    &&& forall|p: int| 0 <= p < b ==> (#[trigger] cycles[p]).len() >= 1 && cycles[p][0] == p
    &&& forall|p: int, t: int|
        0 <= p < b && 0 <= t < cycles[p].len() ==> {
            let x = #[trigger] cycles[p][t];
            &&& 0 <= x < n
            &&& owner[x] == p
            &&& pos[x] == t
            &&& orig[x] == cycles[p][(t + 1) % (cycles[p].len() as int)]
        }
    &&& forall|x: int|
        0 <= x < n ==> {
            &&& 0 <= #[trigger] owner[x] < b
            &&& 0 <= pos[x] < cycles[owner[x]].len()
            &&& cycles[owner[x]][pos[x]] == x
        }
}

/// The identity with every position a cycle of its own.
pub open spec fn initial_cycles(n: nat) -> Seq<Seq<int>> {
    Seq::new(n, |p: int| seq![p])
}

/// The cycle through `j` after exchanging the values at `i` and `j`, when
/// `ci` and `cj` were the cycles through `i` and `j`.
pub open spec fn merged_cycle(ci: Seq<int>, cj: Seq<int>, i: int, j: int) -> Seq<int> {
    seq![j] + ci.subrange(1, ci.len() as int) + seq![i] + cj.subrange(1, cj.len() as int)
}

/// The cycles after merging the cycle of the top active position `i` into
/// that of `j`.
pub open spec fn merge_cycles(cycles: Seq<Seq<int>>, i: int, j: int) -> Seq<Seq<int>> {
    cycles.subrange(0, i).update(j, merged_cycle(cycles[i], cycles[j], i, j))
}

/// Owners after the merge: the members of `i`'s cycle now belong to `j`.
pub open spec fn merge_owner(owner: Seq<int>, i: int, j: int) -> Seq<int> {
    Seq::new(owner.len(), |x: int| if owner[x] == i { j } else { owner[x] })
}

/// Places after the merge, with `li` the length of `i`'s cycle.
pub open spec fn merge_pos(pos: Seq<int>, owner: Seq<int>, li: int, i: int, j: int) -> Seq<int> {
    Seq::new(
        pos.len(),
        |x: int|
            if owner[x] == i {
                if pos[x] == 0 {
                    li
                } else {
                    pos[x]
                }
            } else if owner[x] == j && pos[x] != 0 {
                li + pos[x]
            } else {
                pos[x]
            },
    )
}

/// One step forward around a cycle of length `l`.
proof fn lemma_mod_step(t: int, l: int)
    requires
        0 <= t < l,
    ensures
        (t + 1) % l == (if t + 1 < l {
            t + 1
        } else {
            0
        }),
{
    if t + 1 < l {
        vstd::arithmetic::div_mod::lemma_small_mod((t + 1) as nat, l as nat);
    } else {
        vstd::arithmetic::div_mod::lemma_mod_self_0(l);
    }
}

/// At the start every position is a cycle of its own.
pub proof fn lemma_initial_cycles(n: nat)
    ensures
        cycles_wf(
            Seq::new(n, |k: int| k),
            initial_cycles(n),
            Seq::new(n, |k: int| k),
            Seq::new(n, |k: int| 0int),
            n as int,
            n as int,
        ),
{
    reveal(cycles_wf);
    let cycles = initial_cycles(n);
    assert forall|p: int, t: int| 0 <= p < n && 0 <= t < cycles[p].len() implies {
        let x = #[trigger] cycles[p][t];
        x == p && t == 0
    } by {}
}

/// The positions of the merged cycle, one by one.
proof fn lemma_merged_cycle_index(ci: Seq<int>, cj: Seq<int>, i: int, j: int, t: int)
    requires
        ci.len() >= 1,
        cj.len() >= 1,
        0 <= t < ci.len() + cj.len(),
    ensures
        merged_cycle(ci, cj, i, j).len() == ci.len() + cj.len(),
        merged_cycle(ci, cj, i, j)[t] == (if t == 0 {
            j
        } else if t < ci.len() {
            ci[t]
        } else if t == ci.len() {
            i
        } else {
            cj[t - ci.len()]
        }),
{
}

/// The merged cycle follows the exchanged values.
#[verifier::spinoff_prover]
proof fn lemma_merged_cycle_links(
    orig: Seq<int>,
    cycles: Seq<Seq<int>>,
    owner: Seq<int>,
    pos: Seq<int>,
    n: int,
    i: int,
    j: int,
)
    requires
        cycles_wf(orig, cycles, owner, pos, n, i + 1),
        0 <= j < i < n,
    ensures
        forall|t: int|
            #![trigger merged_cycle(cycles[i], cycles[j], i, j)[t]]
            0 <= t < merged_cycle(cycles[i], cycles[j], i, j).len() ==> {
                let m = merged_cycle(cycles[i], cycles[j], i, j);
                &&& 0 <= m[t] < n
                &&& merge_owner(owner, i, j)[m[t]] == j
                &&& merge_pos(pos, owner, cycles[i].len() as int, i, j)[m[t]] == t
                &&& swapped(orig, i, j)[m[t]] == m[(t + 1) % (m.len() as int)]
            },
{
    reveal(cycles_wf);
    let ci = cycles[i];
    let cj = cycles[j];
    let li = ci.len() as int;
    let lj = cj.len() as int;
    let m = merged_cycle(ci, cj, i, j);
    let orig2 = swapped(orig, i, j);
    let owner2 = merge_owner(owner, i, j);
    let pos2 = merge_pos(pos, owner, li, i, j);
    assert(ci[0] == i && cj[0] == j);
    assert(owner[i] == i && pos[i] == 0) by {
        assert(cycles[i][0] == i);
    }
    assert(owner[j] == j && pos[j] == 0) by {
        assert(cycles[j][0] == j);
    }
    assert forall|t: int| 0 <= t < m.len() implies {
        let x = #[trigger] m[t];
        &&& 0 <= x < n
        &&& owner2[x] == j
        &&& pos2[x] == t
        &&& orig2[x] == m[(t + 1) % (m.len() as int)]
    } by {
        lemma_merged_cycle_index(ci, cj, i, j, t);
        lemma_mod_step(t, li + lj);
        let x = m[t];
        if t == 0 {
            lemma_mod_step(0, li);
            lemma_merged_cycle_index(ci, cj, i, j, 1);
            assert(x == j);
            assert(orig2[j] == orig[i]);
            assert(orig[i] == ci[1int % li]);
        } else if t < li {
            assert(x == ci[t]);
            assert(owner[x] == i && pos[x] == t);
            assert(orig[x] == ci[(t + 1) % li]);
            lemma_mod_step(t, li);
            lemma_merged_cycle_index(ci, cj, i, j, t + 1);
        } else if t == li {
            lemma_mod_step(0, lj);
            assert(x == i);
            assert(orig2[i] == orig[j]);
            assert(orig[j] == cj[1int % lj]);
            if lj == 1 {
                lemma_merged_cycle_index(ci, cj, i, j, 0);
            } else {
                lemma_merged_cycle_index(ci, cj, i, j, t + 1);
            }
        } else {
            let u = t - li;
            assert(x == cj[u]);
            assert(owner[x] == j && pos[x] == u);
            assert(orig[x] == cj[(u + 1) % lj]);
            lemma_mod_step(u, lj);
            if u + 1 < lj {
                lemma_merged_cycle_index(ci, cj, i, j, t + 1);
            } else {
                lemma_merged_cycle_index(ci, cj, i, j, 0);
            }
        }
    }
}

/// The cycles other than those of `i` and `j` are unchanged by the merge.
#[verifier::spinoff_prover]
proof fn lemma_merge_other_cycles(
    orig: Seq<int>,
    cycles: Seq<Seq<int>>,
    owner: Seq<int>,
    pos: Seq<int>,
    n: int,
    i: int,
    j: int,
)
    requires
        cycles_wf(orig, cycles, owner, pos, n, i + 1),
        0 <= j < i < n,
    ensures
        forall|p: int, t: int|
            0 <= p < i && p != j && 0 <= t < cycles[p].len() ==> {
                let x = #[trigger] cycles[p][t];
                &&& 0 <= x < n
                &&& merge_owner(owner, i, j)[x] == p
                &&& merge_pos(pos, owner, cycles[i].len() as int, i, j)[x] == t
                &&& swapped(orig, i, j)[x] == cycles[p][(t + 1) % (cycles[p].len() as int)]
            },
{
    reveal(cycles_wf);
    assert(owner[i] == i) by {
        assert(cycles[i][0] == i);
    }
    assert(owner[j] == j) by {
        assert(cycles[j][0] == j);
    }
    assert forall|p: int, t: int| 0 <= p < i && p != j && 0 <= t < cycles[p].len() implies {
        let x = #[trigger] cycles[p][t];
        &&& 0 <= x < n
        &&& merge_owner(owner, i, j)[x] == p
        &&& merge_pos(pos, owner, cycles[i].len() as int, i, j)[x] == t
        &&& swapped(orig, i, j)[x] == cycles[p][(t + 1) % (cycles[p].len() as int)]
    } by {
        let x = cycles[p][t];
        assert(owner[x] == p);
        assert(x != i && x != j);
    }
}

/// After the merge every position still lies in a remaining cycle.
#[verifier::spinoff_prover]
#[verifier::rlimit(40)]
proof fn lemma_merge_cover(
    orig: Seq<int>,
    cycles: Seq<Seq<int>>,
    owner: Seq<int>,
    pos: Seq<int>,
    n: int,
    i: int,
    j: int,
)
    requires
        cycles_wf(orig, cycles, owner, pos, n, i + 1),
        0 <= j < i < n,
    ensures
        forall|x: int|
            #![trigger merge_owner(owner, i, j)[x]]
            0 <= x < n ==> {
                let owner2 = merge_owner(owner, i, j);
                let pos2 = merge_pos(pos, owner, cycles[i].len() as int, i, j);
                let cycles2 = merge_cycles(cycles, i, j);
                &&& 0 <= owner2[x] < i
                &&& 0 <= pos2[x] < cycles2[owner2[x]].len()
                &&& cycles2[owner2[x]][pos2[x]] == x
            },
{
    reveal(cycles_wf);
    let ci = cycles[i];
    let cj = cycles[j];
    let li = ci.len() as int;
    let owner2 = merge_owner(owner, i, j);
    let pos2 = merge_pos(pos, owner, li, i, j);
    let cycles2 = merge_cycles(cycles, i, j);
    let m = merged_cycle(ci, cj, i, j);
    assert(cycles2[j] == m);
    assert(ci[0] == i && cj[0] == j);
    assert forall|x: int| 0 <= x < n implies {
        &&& 0 <= #[trigger] owner2[x] < i
        &&& 0 <= pos2[x] < cycles2[owner2[x]].len()
        &&& cycles2[owner2[x]][pos2[x]] == x
    } by {
        let p = owner[x];
        let t = pos[x];
        assert(cycles[p][t] == x);
        if p == i {
            lemma_merged_cycle_index(ci, cj, i, j, pos2[x]);
        } else if p == j {
            lemma_merged_cycle_index(ci, cj, i, j, pos2[x]);
        } else {
            assert(cycles2[p] == cycles[p]);
        }
    }
}

/// The plain facts of a well-formed cycle structure.
proof fn lemma_wf_basics(
    orig: Seq<int>,
    cycles: Seq<Seq<int>>,
    owner: Seq<int>,
    pos: Seq<int>,
    n: int,
    b: int,
)
    requires
        cycles_wf(orig, cycles, owner, pos, n, b),
    ensures
        orig.len() == n,
        owner.len() == n,
        pos.len() == n,
        cycles.len() == b,
        forall|p: int| 0 <= p < b ==> (#[trigger] cycles[p]).len() >= 1 && cycles[p][0] == p,
{
    reveal(cycles_wf);
}

/// The cycles after the merge, one by one.
proof fn lemma_merge_cycles_index(cycles: Seq<Seq<int>>, i: int, j: int, p: int)
    requires
        0 <= j < i < cycles.len(),
        0 <= p < i,
    ensures
        merge_cycles(cycles, i, j).len() == i,
        merge_cycles(cycles, i, j)[p] == (if p == j {
            merged_cycle(cycles[i], cycles[j], i, j)
        } else {
            cycles[p]
        }),
{
}

/// Links of all the cycles after the merge.
#[verifier::spinoff_prover]
proof fn lemma_merge_links(
    orig: Seq<int>,
    cycles: Seq<Seq<int>>,
    owner: Seq<int>,
    pos: Seq<int>,
    n: int,
    i: int,
    j: int,
)
    requires
        cycles_wf(orig, cycles, owner, pos, n, i + 1),
        0 <= j < i < n,
    ensures
        merge_cycles(cycles, i, j).len() == i,
        forall|p: int| 0 <= p < i ==> (#[trigger] merge_cycles(cycles, i, j)[p]).len() >= 1
            && merge_cycles(cycles, i, j)[p][0] == p,
        forall|p: int, t: int|
            0 <= p < i && 0 <= t < merge_cycles(cycles, i, j)[p].len() ==> {
                let c2 = merge_cycles(cycles, i, j)[p];
                let x = #[trigger] merge_cycles(cycles, i, j)[p][t];
                &&& 0 <= x < n
                &&& merge_owner(owner, i, j)[x] == p
                &&& merge_pos(pos, owner, cycles[i].len() as int, i, j)[x] == t
                &&& swapped(orig, i, j)[x] == c2[(t + 1) % (c2.len() as int)]
            },
{
    lemma_wf_basics(orig, cycles, owner, pos, n, i + 1);
    lemma_merged_cycle_links(orig, cycles, owner, pos, n, i, j);
    lemma_merge_other_cycles(orig, cycles, owner, pos, n, i, j);
    lemma_merged_cycle_index(cycles[i], cycles[j], i, j, 0);
    lemma_merge_cycles_index(cycles, i, j, j);
    assert forall|p: int| 0 <= p < i implies (#[trigger] merge_cycles(cycles, i, j)[p]).len()
        >= 1 && merge_cycles(cycles, i, j)[p][0] == p by {
        lemma_merge_cycles_index(cycles, i, j, p);
    }
    assert forall|p: int, t: int|
        0 <= p < i && 0 <= t < merge_cycles(cycles, i, j)[p].len() implies {
        let c2 = merge_cycles(cycles, i, j)[p];
        let x = #[trigger] merge_cycles(cycles, i, j)[p][t];
        &&& 0 <= x < n
        &&& merge_owner(owner, i, j)[x] == p
        &&& merge_pos(pos, owner, cycles[i].len() as int, i, j)[x] == t
        &&& swapped(orig, i, j)[x] == c2[(t + 1) % (c2.len() as int)]
    } by {
        lemma_merge_cycles_index(cycles, i, j, p);
        if p == j {
            let m = merged_cycle(cycles[i], cycles[j], i, j);
            assert(m[t] == merge_cycles(cycles, i, j)[p][t]);
        } else {
            assert(cycles[p][t] == merge_cycles(cycles, i, j)[p][t]);
        }
    }
}

/// Exchanging the values at the top active position `i` and an active `j < i`
/// merges their cycles and lowers the boundary to `i`.
pub proof fn lemma_merge_cycles(
    orig: Seq<int>,
    cycles: Seq<Seq<int>>,
    owner: Seq<int>,
    pos: Seq<int>,
    n: int,
    i: int,
    j: int,
)
    requires
        cycles_wf(orig, cycles, owner, pos, n, i + 1),
        0 <= j < i < n,
    ensures
        cycles_wf(
            swapped(orig, i, j),
            merge_cycles(cycles, i, j),
            merge_owner(owner, i, j),
            merge_pos(pos, owner, cycles[i].len() as int, i, j),
            n,
            i,
        ),
{
    reveal(cycles_wf);
    lemma_merge_links(orig, cycles, owner, pos, n, i, j);
    lemma_merge_cover(orig, cycles, owner, pos, n, i, j);
}

/// With one active position left, its cycle runs through every position.
pub proof fn lemma_single_cycle(
    orig: Seq<int>,
    cycles: Seq<Seq<int>>,
    owner: Seq<int>,
    pos: Seq<int>,
    n: int,
)
    requires
        cycles_wf(orig, cycles, owner, pos, n, 1),
        n >= 1,
    ensures
        lists_positions(cycles[0], n as nat),
        forall|t: int|
            0 <= t < n ==> orig[#[trigger] cycles[0][t]] == cycles[0][(t + 1) % n],
{
    reveal(cycles_wf);
    let c = cycles[0];
    assert(c.no_duplicates()) by {
        assert forall|a: int, b: int| 0 <= a < c.len() && 0 <= b < c.len() && a != b implies c[a]
            != c[b] by {
            assert(pos[c[a]] == a);
            assert(pos[c[b]] == b);
        }
    }
    lemma_distinct_indices_bounded(c, n);
    let ps = Seq::new(n as nat, |x: int| pos[x]);
    assert(ps.no_duplicates()) by {
        assert forall|a: int, b: int| 0 <= a < n && 0 <= b < n && a != b implies ps[a] != ps[b] by {
            assert(owner[a] == 0 && owner[b] == 0);
            assert(c[pos[a]] == a);
            assert(c[pos[b]] == b);
        }
    }
    assert forall|t: int| 0 <= t < ps.len() implies 0 <= #[trigger] ps[t] < c.len() by {
        assert(owner[t] == 0);
    }
    lemma_distinct_indices_bounded(ps, c.len() as int);
    assert(c.len() == n);
    assert forall|a: int, b: int| 0 <= a < b < n implies #[trigger] c[a] != #[trigger] c[b] by {
        assert(pos[c[a]] == a);
        assert(pos[c[b]] == b);
    }
}

} // verus!
