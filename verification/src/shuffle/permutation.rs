use vstd::prelude::*;
use vstd::multiset::Multiset;

verus! {

broadcast use vstd::seq_lib::group_to_multiset_ensures;

/// `<[T]>::swap(a, b)`: the standard library swaps the elements at `a` and
/// `b` (leaving the slice unchanged when `a == b`) and panics when either
/// index is out of bounds.
pub assume_specification<Item>[ <[Item]>::swap ](slice: &mut [Item], a: usize, b: usize)
    requires
        a < old(slice)@.len(),
        b < old(slice)@.len(),
    ensures
        final(slice)@ == old(slice)@.update(a as int, old(slice)@[b as int]).update(
            b as int,
            old(slice)@[a as int],
        ),
;

/// `s` with the elements at `i` and `j` exchanged.
pub open spec fn swapped<T>(s: Seq<T>, i: int, j: int) -> Seq<T> {
    s.update(i, s[j]).update(j, s[i])
}

/// `a` and `b` hold the same elements, counted with multiplicity.
pub open spec fn same_elements<T>(a: Seq<T>, b: Seq<T>) -> bool {
    a.to_multiset() == b.to_multiset()
}

/// Exchanging two elements keeps the elements of a sequence.
pub proof fn lemma_swap_same_elements<T>(s: Seq<T>, i: int, j: int)
    requires
        0 <= i < s.len(),
        0 <= j < s.len(),
    ensures
        swapped(s, i, j).len() == s.len(),
        same_elements(swapped(s, i, j), s),
{
    let s1 = s.update(i, s[j]);
    vstd::seq_lib::to_multiset_update(s, i, s[j]);
    vstd::seq_lib::to_multiset_update(s1, j, s[i]);
    if i == j {
        assert(swapped(s, i, j) =~= s);
    } else {
        assert(s1[j] == s[j]);
        let m = s.to_multiset();
        assert(m.insert(s[j]).remove(s[i]).insert(s[i]).remove(s[j]) =~= m) by {
            broadcast use vstd::multiset::group_multiset_axioms;
            assert(m.count(s[i]) >= 1);
            assert(m.count(s[j]) >= 1);
        }
    }
}

/// `p` lists every index of `[0, n)` exactly once.
pub open spec fn is_index_permutation(p: Seq<usize>, n: nat) -> bool {
    &&& p.len() == n
    &&& forall|k: int| 0 <= k < n ==> #[trigger] p[k] < n
    &&& forall|a: int, b: int| 0 <= a < n && 0 <= b < n && a != b ==> #[trigger] p[a] != #[trigger] p[b]
}

/// `s` rearranged so that position `k` holds `s[p[k]]`.
pub open spec fn gathered<T>(s: Seq<T>, p: Seq<usize>) -> Seq<T> {
    Seq::new(p.len(), |k: int| s[p[k] as int])
}

/// A sequence of distinct indices below `n` has at most `n` entries.
pub(crate) proof fn lemma_distinct_indices_bounded(c: Seq<int>, n: int)
    requires
        n >= 0,
        c.no_duplicates(),
        forall|t: int| 0 <= t < c.len() ==> 0 <= #[trigger] c[t] < n,
    ensures
        c.len() <= n,
{
    c.unique_seq_to_set();
    vstd::set_lib::lemma_int_range(0, n);
    assert(c.to_set().subset_of(vstd::set_lib::set_int_range(0, n))) by {
        assert forall|x: int| c.to_set().contains(x) implies vstd::set_lib::set_int_range(
            0,
            n,
        ).contains(x) by {
            let t = choose|t: int| 0 <= t < c.len() && c[t] == x;
        }
    }
    vstd::set_lib::lemma_len_subset(c.to_set(), vstd::set_lib::set_int_range(0, n));
}

/// Rearranges `slice` in place so that position `k` receives the element that
/// was at `perm[k]`, following each cycle of the permutation with swaps.
pub fn apply_permutation<T>(slice: &mut [T], perm: &[usize])
    requires
        is_index_permutation(perm@, old(slice)@.len()),
    ensures
        final(slice)@ == gathered(old(slice)@, perm@),
        same_elements(final(slice)@, old(slice)@),
{
    let ghost s0 = slice@;
    let n = slice.len();
    let mut done: Vec<bool> = vec![false; n];
    let mut i: usize = 0;
    while i < n
        invariant
            n == slice@.len(),
            n == s0.len(),
            n == done@.len(),
            is_index_permutation(perm@, n as nat),
            i <= n,
            forall|k: int| 0 <= k < i ==> #[trigger] done@[k],
            forall|k: int| 0 <= k < n ==> (#[trigger] done@[k] <==> done@[perm@[k] as int]),
            forall|k: int| 0 <= k < n && done@[k] ==> #[trigger] slice@[k] == s0[perm@[k] as int],
            forall|k: int| 0 <= k < n && !done@[k] ==> #[trigger] slice@[k] == s0[k],
            same_elements(slice@, s0),
        decreases n - i,
    {
        if !done[i] {
            let ghost d0 = done@;
            let ghost mut cyc: Seq<int> = seq![i as int];
            let mut current = i;
            while !done[perm[current]] && perm[current] != i
                invariant
                    n == slice@.len(),
                    n == s0.len(),
                    n == done@.len(),
                    n == d0.len(),
                    is_index_permutation(perm@, n as nat),
                    i < n,
                    current < n,
                    !d0[i as int],
                    forall|k: int| 0 <= k < n ==> (#[trigger] d0[k] <==> d0[perm@[k] as int]),
                    cyc.len() >= 1,
                    cyc.len() <= n,
                    cyc[0] == i,
                    cyc.last() == current,
                    cyc.no_duplicates(),
                    forall|t: int| 0 <= t < cyc.len() ==> 0 <= #[trigger] cyc[t] < n,
                    forall|t: int| 0 <= t < cyc.len() ==> !d0[#[trigger] cyc[t]],
                    forall|t: int|
                        0 <= t < cyc.len() - 1 ==> perm@[#[trigger] cyc[t]] as int == cyc[t + 1],
                    forall|t: int| 0 <= t < cyc.len() - 1 ==> #[trigger] done@[cyc[t]],
                    !done@[current as int],
                    forall|k: int| 0 <= k < n && d0[k] ==> #[trigger] done@[k],
                    forall|k: int|
                        0 <= k < n && #[trigger] done@[k] && !d0[k] ==> exists|t: int|
                            0 <= t < cyc.len() - 1 && cyc[t] == k,
                    forall|k: int| 0 <= k < n && done@[k] ==> #[trigger] slice@[k] == s0[perm@[k] as int],
                    forall|k: int|
                        0 <= k < n && !done@[k] && k != current ==> #[trigger] slice@[k] == s0[k],
                    slice@[current as int] == s0[i as int],
                    same_elements(slice@, s0),
                decreases n - cyc.len(),
            {
                let next = perm[current];
                let ghost m = cyc.len() - 1;
                proof {
                    if next == current {
                        if m > 0 {
                            assert(perm@[cyc[m - 1]] == perm@[current as int]);
                        }
                    }
                    assert(next != current);
                    assert forall|t: int| 0 <= t < cyc.len() implies #[trigger] cyc[t] != next by {
                        if t < m {
                            assert(done@[cyc[t]]);
                        }
                    }
                    lemma_swap_same_elements(slice@, current as int, next as int);
                }
                slice.swap(current, next);
                done[current] = true;
                proof {
                    let old_cyc = cyc;
                    cyc = cyc.push(next as int);
                    assert(cyc[m] == current);
                    assert(cyc.no_duplicates()) by {
                        assert forall|a: int, b: int|
                            0 <= a < cyc.len() && 0 <= b < cyc.len() && a != b implies cyc[a]
                            != cyc[b] by {
                            if a < old_cyc.len() && b < old_cyc.len() {
                                assert(old_cyc[a] != old_cyc[b]);
                            }
                        }
                    }
                    lemma_distinct_indices_bounded(cyc, n as int);
                    assert forall|k: int|
                        0 <= k < n && #[trigger] done@[k] && !d0[k] implies exists|t: int|
                        0 <= t < cyc.len() - 1 && cyc[t] == k by {
                        if k == cyc[m] {
                            assert(0 <= m < cyc.len() - 1 && cyc[m] == k);
                        } else {
                            let t = choose|t: int| 0 <= t < old_cyc.len() - 1 && old_cyc[t] == k;
                            assert(cyc[t] == k);
                        }
                    }
                }
                current = next;
            }
            proof {
                let m = cyc.len() - 1;
                let x = perm@[current as int] as int;
                if x != i {
                    assert(done@[x]);
                    if d0[x] {
                        assert(d0[current as int]);
                        assert(!d0[cyc[m]]);
                    } else {
                        let t = choose|t: int| 0 <= t < cyc.len() - 1 && cyc[t] == x;
                        assert(t != 0);
                        assert(perm@[cyc[t - 1]] == perm@[current as int]);
                        assert(cyc[t - 1] != cyc[m]);
                    }
                }
                assert(perm@[current as int] == i);
            }
            done[current] = true;
            proof {
                let m = cyc.len() - 1;
                assert forall|k: int| 0 <= k < n implies (#[trigger] done@[k] <==> done@[perm@[k] as int]) by {
                    let pk = perm@[k] as int;
                    if done@[k] {
                        if !d0[k] {
                            if k == current {
                                assert(pk == i);
                                assert(done@[cyc[0]]);
                            } else {
                                let t = choose|t: int| 0 <= t < cyc.len() - 1 && cyc[t] == k;
                                assert(pk == cyc[t + 1]);
                                if t + 1 < m {
                                    assert(done@[cyc[t + 1]]);
                                }
                            }
                        }
                    }
                    if done@[pk] {
                        if !d0[pk] {
                            if pk == current {
                                if m > 0 {
                                    assert(perm@[cyc[m - 1]] as int == cyc[m]);
                                    if k != cyc[m - 1] {
                                        assert(perm@[cyc[m - 1]] != perm@[k]);
                                    }
                                    assert(done@[cyc[m - 1]]);
                                } else {
                                    if k != current as int {
                                        assert(perm@[k] != perm@[current as int]);
                                    }
                                }
                            } else {
                                let t = choose|t: int| 0 <= t < cyc.len() - 1 && cyc[t] == pk;
                                if t == 0 {
                                    assert(perm@[current as int] == perm@[k]);
                                } else {
                                    assert(perm@[cyc[t - 1]] == perm@[k]);
                                    assert(done@[cyc[t - 1]]);
                                }
                            }
                        }
                    }
                }
            }
        }
        i += 1;
    }
    assert(slice@ =~= gathered(s0, perm@));
}

} // verus!
