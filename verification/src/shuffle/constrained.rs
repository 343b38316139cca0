use super::fisher_yates::{fisher_yates, fisher_yates_result};
use super::permutation::{lemma_swap_same_elements, same_elements, swapped};
use crate::rng::{below, Rng, RngState};
use vstd::prelude::*;

verus! {

/// Length of the run of equal categories that ends at position `i`.
pub open spec fn run_length(c: Seq<usize>, i: int) -> nat
    decreases i,
{
    if i <= 0 {
        1
    } else if c[i] == c[i - 1] {
        run_length(c, i - 1) + 1
    } else {
        1
    }
}

/// First position at or after `i` where a run exceeds `max`.
pub open spec fn first_violation_from(c: Seq<usize>, max: nat, i: int) -> Option<int>
    decreases c.len() - i,
{
    if i >= c.len() {
        None
    } else if run_length(c, i) > max {
        Some(i)
    } else {
        first_violation_from(c, max, i + 1)
    }
}

/// First position where a run of equal categories exceeds `max`.
pub open spec fn first_violation(c: Seq<usize>, max: nat) -> Option<int> {
    first_violation_from(c, max, 0)
}

/// Number of positions `k - 1, k - 2, ...` holding `cat`, up to the first
/// that does not.
pub open spec fn run_left(c: Seq<usize>, k: int, cat: usize) -> nat
    decreases k,
{
    if k <= 0 {
        0
    } else if c[k - 1] == cat {
        1 + run_left(c, k - 1, cat)
    } else {
        0
    }
}

/// Number of positions `k, k + 1, ...` (passing over `skip`) holding `cat`,
/// up to the first that does not.
pub open spec fn run_right(c: Seq<usize>, k: int, cat: usize, skip: int) -> nat
    decreases c.len() - k,
{
    if k >= c.len() {
        0
    } else if k == skip {
        run_right(c, k + 1, cat, skip)
    } else if c[k] == cat {
        1 + run_right(c, k + 1, cat, skip)
    } else {
        0
    }
}

/// Moving the category at `from` to `pos` leaves the run through `pos` no
/// longer than `max`.
pub open spec fn valid_at(c: Seq<usize>, pos: int, from: int, max: nat) -> bool {
    run_left(c, pos, c[from]) + 1 + run_right(c, pos + 1, c[from], from) <= max
}

/// Positions from `i` on that may take the element at the violation `v`:
/// another category, and no run longer than `max` around them after the swap.
pub open spec fn candidates_from(c: Seq<usize>, v: int, max: nat, i: int) -> Seq<usize>
    decreases c.len() - i,
{
    if i >= c.len() {
        Seq::empty()
    } else {
        let rest = candidates_from(c, v, max, i + 1);
        if i != v && c[i] != c[v] && valid_at(c, i, v, max) {
            seq![i as usize] + rest
        } else {
            rest
        }
    }
}

/// One repair attempt at the violation `v`: swap it with a candidate drawn
/// uniformly, or change nothing when there is none.
pub open spec fn repair<T>(s: Seq<T>, c: Seq<usize>, v: int, max: nat, r: RngState) -> (
    Seq<T>,
    Seq<usize>,
    RngState,
) {
    let cands = candidates_from(c, v, max, 0);
    if cands.len() == 0 {
        (s, c, r)
    } else {
        let t = cands[below(r.word(), cands.len()) as int] as int;
        (swapped(s, v, t), swapped(c, v, t), r.next())
    }
}

/// Up to `attempts` repairs, each at the first violation, stopping as soon
/// as there is none.
#[verifier::opaque]
pub open spec fn repairs<T>(s: Seq<T>, c: Seq<usize>, max: nat, r: RngState, attempts: nat) -> (
    Seq<T>,
    Seq<usize>,
    RngState,
)
    decreases attempts,
{
    if attempts == 0 {
        (s, c, r)
    } else {
        match first_violation(c, max) {
            None => (s, c, r),
            Some(v) => {
                let x = repair(s, c, v, max, r);
                repairs(x.0, x.1, max, x.2, (attempts - 1) as nat)
            },
        }
    }
}

/// The run limit that `constrained_shuffle` enforces: at least 1.
pub open spec fn effective_max(max_consecutive: usize) -> nat {
    if max_consecutive >= 1 {
        max_consecutive as nat
    } else {
        1
    }
}

/// What `constrained_shuffle` leaves for the input `s` and generator state
/// `r`, given the categories `cats` of the Fisher-Yates-shuffled elements:
/// the repairs after the initial shuffle.
pub open spec fn constrained_outcome<T>(
    s: Seq<T>,
    r: RngState,
    max_consecutive: usize,
    cats: Seq<usize>,
) -> (Seq<T>, Seq<usize>, RngState) {
    let fy = fisher_yates_result(s, r);
    repairs(fy.0, cats, effective_max(max_consecutive), fy.1, (10 * s.len()) as nat)
}

/// Position by position, `label` holds of each element of `s` and the
/// category at the same position of `c`.
pub open spec fn categorized<T>(s: Seq<T>, c: Seq<usize>, label: spec_fn(T, usize) -> bool) -> bool {
    &&& s.len() == c.len()
    &&& forall|k: int| 0 <= k < s.len() ==> #[trigger] label(s[k], c[k])
}

/// Exchanging the same two positions of the elements and of their
/// categories keeps each element with its category.
proof fn lemma_swapped_categorized<T>(
    s: Seq<T>,
    c: Seq<usize>,
    i: int,
    j: int,
    label: spec_fn(T, usize) -> bool,
)
    requires
        categorized(s, c, label),
        0 <= i < s.len(),
        0 <= j < s.len(),
    ensures
        categorized(swapped(s, i, j), swapped(c, i, j), label),
{
    let s2 = swapped(s, i, j);
    let c2 = swapped(c, i, j);
    assert forall|k: int| 0 <= k < s2.len() implies #[trigger] label(s2[k], c2[k]) by {
        if k == j {
            assert(label(s[i], c[i]));
        } else if k == i {
            assert(label(s[j], c[j]));
        } else {
            assert(label(s[k], c[k]));
        }
    }
}

/// No run of equal categories is longer than `max` exactly when there is no
/// violation.
pub proof fn lemma_no_violation_bounds_runs(c: Seq<usize>, max: nat)
    ensures
        (first_violation(c, max) is None) == (forall|i: int|
            0 <= i < c.len() ==> #[trigger] run_length(c, i) <= max),
{
    if first_violation(c, max) is None {
        assert forall|i: int| 0 <= i < c.len() implies #[trigger] run_length(c, i) <= max by {
            lemma_violation_free_from(c, max, 0, i);
        }
    } else {
        lemma_first_violation_found(c, max, 0);
    }
}

proof fn lemma_violation_free_from(c: Seq<usize>, max: nat, j: int, i: int)
    requires
        0 <= j <= i < c.len(),
        first_violation_from(c, max, j) is None,
    ensures
        run_length(c, i) <= max,
    decreases i - j,
{
    if j < i {
        lemma_violation_free_from(c, max, j + 1, i);
    }
}

proof fn lemma_first_violation_found(c: Seq<usize>, max: nat, j: int)
    requires
        0 <= j,
        first_violation_from(c, max, j) is Some,
    ensures
        exists|i: int| j <= i < c.len() && #[trigger] run_length(c, i) > max,
    decreases c.len() - j,
{
    if run_length(c, j) <= max {
        lemma_first_violation_found(c, max, j + 1);
    }
}

proof fn lemma_candidates_unfold(c: Seq<usize>, v: int, max: nat, i: int)
    requires
        0 <= i < c.len(),
    ensures
        candidates_from(c, v, max, i) == (if i != v && c[i] != c[v] && valid_at(c, i, v, max) {
            seq![i as usize] + candidates_from(c, v, max, i + 1)
        } else {
            candidates_from(c, v, max, i + 1)
        }),
{
}

proof fn lemma_repairs_step<T>(
    s: Seq<T>,
    c: Seq<usize>,
    max: nat,
    r: RngState,
    k: nat,
    v: int,
)
    requires
        k > 0,
        first_violation(c, max) == Some(v),
    ensures
        repairs(s, c, max, r, k) == repairs(
            repair(s, c, v, max, r).0,
            repair(s, c, v, max, r).1,
            max,
            repair(s, c, v, max, r).2,
            (k - 1) as nat,
        ),
{
    reveal(repairs);
}

proof fn lemma_repairs_done<T>(s: Seq<T>, c: Seq<usize>, max: nat, r: RngState, k: nat)
    requires
        first_violation(c, max) is None,
    ensures
        repairs(s, c, max, r, k) == (s, c, r),
{
    reveal(repairs);
}

proof fn lemma_repairs_done_zero<T>(s: Seq<T>, c: Seq<usize>, max: nat, r: RngState)
    ensures
        repairs(s, c, max, r, 0) == (s, c, r),
{
    reveal(repairs);
}

proof fn lemma_run_length_bound(c: Seq<usize>, i: int)
    requires
        0 <= i,
    ensures
        run_length(c, i) <= i + 1,
    decreases i,
{
    if i > 0 {
        lemma_run_length_bound(c, i - 1);
    }
}

proof fn lemma_first_violation_from(c: Seq<usize>, max: nat, i: int, j: int)
    requires
        0 <= i <= j <= c.len(),
        forall|k: int| i <= k < j ==> run_length(c, k) <= max,
    ensures
        first_violation_from(c, max, i) == first_violation_from(c, max, j),
    decreases j - i,
{
    if i < j {
        lemma_first_violation_from(c, max, i + 1, j);
    }
}

/// Finds the first position where a run of equal categories exceeds `max`.
fn find_violation(cats: &[usize], max: usize) -> (r: Option<usize>)
    requires
        max >= 1,
    ensures
        r matches Some(v) ==> first_violation(cats@, max as nat) == Some(v as int) && v
            < cats@.len(),
        r is None ==> first_violation(cats@, max as nat) is None,
{
    let len = cats.len();
    if len < 2 {
        proof {
            if len == 1 {
                assert(first_violation_from(cats@, max as nat, 1) is None);
            }
        }
        return None;
    }
    let mut run: usize = 1;
    let mut prev_cat = cats[0];
    let mut i: usize = 1;
    while i < len
        invariant
            1 <= i <= len,
            len == cats@.len(),
            prev_cat == cats@[i - 1],
            run as nat == run_length(cats@, i - 1),
            run <= max,
            run <= i,
            first_violation(cats@, max as nat) == first_violation_from(cats@, max as nat, i as int),
        decreases len - i,
    {
        let cat = cats[i];
        proof {
            lemma_run_length_bound(cats@, i - 1);
        }
        if cat == prev_cat {
            run += 1;
            if run > max {
                return Some(i);
            }
        } else {
            run = 1;
            prev_cat = cat;
        }
        i += 1;
    }
    None
}

/// Whether moving the category at `swap_from` to `check_pos` keeps the run
/// through `check_pos` within `max`.
fn would_be_valid_at(cats: &[usize], check_pos: usize, swap_from: usize, max: usize) -> (b: bool)
    requires
        check_pos < cats@.len(),
        swap_from < cats@.len(),
    ensures
        b == valid_at(cats@, check_pos as int, swap_from as int, max as nat),
{
    let new_cat = cats[swap_from];
    let len = cats.len();
    let mut run_before: usize = 0;
    let mut i = check_pos;
    let mut counting = true;
    while counting && i > 0
        invariant
            i <= check_pos,
            len == cats@.len(),
            check_pos < len,
            run_before <= check_pos - i,
            counting ==> run_before + run_left(cats@, i as int, new_cat) == run_left(
                cats@,
                check_pos as int,
                new_cat,
            ),
            !counting ==> run_before == run_left(cats@, check_pos as int, new_cat),
        decreases i + (if counting { 1int } else { 0int }),
    {
        if cats[i - 1] == new_cat {
            run_before += 1;
            i -= 1;
        } else {
            counting = false;
        }
    }
    let mut run_after: usize = 0;
    let mut k = check_pos + 1;
    let mut scanning = true;
    while scanning && k < len
        invariant
            check_pos + 1 <= k <= len,
            len == cats@.len(),
            run_after <= k - (check_pos + 1),
            scanning ==> run_after + run_right(cats@, k as int, new_cat, swap_from as int)
                == run_right(cats@, check_pos + 1, new_cat, swap_from as int),
            !scanning ==> run_after == run_right(
                cats@,
                check_pos + 1,
                new_cat,
                swap_from as int,
            ),
        decreases (len - k) + (if scanning { 1int } else { 0int }),
    {
        if k == swap_from {
            k += 1;
        } else if cats[k] == new_cat {
            run_after += 1;
            k += 1;
        } else {
            scanning = false;
        }
    }
    run_before + 1 + run_after <= max
}

/// Repairs the violation at `violation_idx` by swapping it with a candidate
/// drawn uniformly; returns `false` (without drawing) when there is none.
fn try_fix_violation<T>(
    slice: &mut [T],
    cats: &mut Vec<usize>,
    violation_idx: usize,
    max_consecutive: usize,
    rng: &mut Rng,
) -> (fixed: bool)
    requires
        violation_idx < old(slice)@.len(),
        old(cats)@.len() == old(slice)@.len(),
    ensures
        (final(slice)@, final(cats)@, final(rng)@) == repair(
            old(slice)@,
            old(cats)@,
            violation_idx as int,
            max_consecutive as nat,
            old(rng)@,
        ),
        fixed == (candidates_from(old(cats)@, violation_idx as int, max_consecutive as nat, 0).len()
            > 0),
        same_elements(final(slice)@, old(slice)@),
        final(slice)@.len() == old(slice)@.len(),
        final(cats)@.len() == old(cats)@.len(),
        exists|t: int|
            0 <= t < old(slice)@.len() && final(slice)@ == swapped(
                old(slice)@,
                violation_idx as int,
                t,
            ) && final(cats)@ == swapped(old(cats)@, violation_idx as int, t),
{
    let len = cats.len();
    let violation_cat = cats[violation_idx];
    let mut candidates: Vec<usize> = Vec::new();
    let mut i: usize = 0;
    let ghost c = cats@;
    let ghost v = violation_idx as int;
    let ghost mx = max_consecutive as nat;
    while i < len
        invariant
            i <= len,
            len == cats@.len(),
            cats@ == c,
            v == violation_idx,
            mx == max_consecutive,
            violation_idx < len,
            violation_cat == c[v],
            candidates@ + candidates_from(c, v, mx, i as int) == candidates_from(c, v, mx, 0),
            forall|t: int| 0 <= t < candidates@.len() ==> #[trigger] candidates@[t] < i,
        decreases len - i,
    {
        let ghost prev = candidates@;
        proof {
            lemma_candidates_unfold(c, v, mx, i as int);
        }
        if i != violation_idx && cats[i] != violation_cat && would_be_valid_at(
            cats.as_slice(),
            i,
            violation_idx,
            max_consecutive,
        ) {
            candidates.push(i);
            assert(candidates@ + candidates_from(c, v, mx, i + 1) =~= prev + candidates_from(
                c,
                v,
                mx,
                i as int,
            ));
        }
        i += 1;
    }
    assert(candidates@ =~= candidates@ + Seq::<usize>::empty());
    if candidates.len() == 0 {
        assert(swapped(slice@, violation_idx as int, violation_idx as int) =~= slice@);
        assert(swapped(cats@, violation_idx as int, violation_idx as int) =~= cats@);
        return false;
    }
    let pick = rng.next_below(candidates.len());
    let swap_with = candidates[pick];
    proof {
        lemma_swap_same_elements(slice@, violation_idx as int, swap_with as int);
    }
    let ghost s_before = slice@;
    slice.swap(violation_idx, swap_with);
    cats.as_mut_slice().swap(violation_idx, swap_with);
    assert(slice@ =~= swapped(s_before, violation_idx as int, swap_with as int));
    assert(cats@ =~= swapped(c, violation_idx as int, swap_with as int));
    true
}

/// Variety-enforcing shuffle: a Fisher-Yates shuffle, then up to `10 * len`
/// repairs of runs of more than `max_consecutive` (at least 1) elements of
/// one category, each swapping the first offending element with a position
/// drawn among those where it fits. Best effort: the runs that remain when
/// no repair applies, or the attempts run out, are left in place.
pub fn constrained_shuffle<T, F: Fn(&T) -> usize>(
    slice: &mut [T],
    rng: &mut Rng,
    max_consecutive: usize,
    classifier: F,
)
    requires
        old(slice)@.len() <= usize::MAX / 10,
        forall|x: &T| #[trigger] classifier.requires((x,)),
    ensures
        same_elements(final(slice)@, old(slice)@),
        old(slice)@.len() <= 1 ==> final(slice)@ == old(slice)@ && final(rng)@ == old(rng)@,
        old(slice)@.len() > 1 ==> exists|cats: Seq<usize>|
            #![trigger constrained_outcome(old(slice)@, old(rng)@, max_consecutive, cats)]
            {
                &&& cats.len() == old(slice)@.len()
                &&& forall|k: int|
                    0 <= k < cats.len() ==> classifier.ensures(
                        (&fisher_yates_result(old(slice)@, old(rng)@).0[k],),
                        #[trigger] cats[k],
                    )
                &&& final(slice)@ == constrained_outcome(old(slice)@, old(rng)@, max_consecutive, cats).0
                &&& final(rng)@ == constrained_outcome(old(slice)@, old(rng)@, max_consecutive, cats).2
                &&& forall|k: int|
                    0 <= k < final(slice)@.len() ==> classifier.ensures(
                        (&final(slice)@[k],),
                        #[trigger] constrained_outcome(
                            old(slice)@,
                            old(rng)@,
                            max_consecutive,
                            cats,
                        ).1[k],
                    )
            },
{
    let len = slice.len();
    if len <= 1 {
        return;
    }
    let ghost s0 = slice@;
    let ghost r0 = rng@;
    let max = if max_consecutive >= 1 {
        max_consecutive
    } else {
        1
    };
    let max_attempts = len * 10;
    fisher_yates(slice, rng);
    let ghost fy_s = slice@;
    let ghost fy_r = rng@;
    let mut cats: Vec<usize> = Vec::with_capacity(len);
    let mut i: usize = 0;
    while i < len
        invariant
            i <= len,
            len == slice@.len(),
            slice@ == fy_s,
            cats@.len() == i,
            forall|x: &T| #[trigger] classifier.requires((x,)),
            forall|k: int| 0 <= k < i ==> classifier.ensures((&fy_s[k],), #[trigger] cats@[k]),
        decreases len - i,
    {
        let c = classifier(&slice[i]);
        cats.push(c);
        i += 1;
    }
    let ghost cats0 = cats@;
    let ghost label = |x: T, y: usize| classifier.ensures((&x,), y);
    assert(categorized(slice@, cats@, label));
    repair_runs(slice, &mut cats, max, max_attempts, rng, Ghost(label));
    proof {
        assert(constrained_outcome(s0, r0, max_consecutive, cats0) == (slice@, cats@, rng@));
        assert forall|k: int| 0 <= k < slice@.len() implies classifier.ensures(
            (&slice@[k],),
            #[trigger] constrained_outcome(s0, r0, max_consecutive, cats0).1[k],
        ) by {
            assert(label(slice@[k], cats@[k]));
        }
    }
}

/// Up to `attempts` repairs of the first run longer than `max`, stopping as
/// soon as there is none; `cats` holds the category of each element.
fn repair_runs<T>(
    slice: &mut [T],
    cats: &mut Vec<usize>,
    max: usize,
    attempts: usize,
    rng: &mut Rng,
    Ghost(label): Ghost<spec_fn(T, usize) -> bool>,
)
    requires
        max >= 1,
        categorized(old(slice)@, old(cats)@, label),
    ensures
        categorized(final(slice)@, final(cats)@, label),
        (final(slice)@, final(cats)@, final(rng)@) == repairs(
            old(slice)@,
            old(cats)@,
            max as nat,
            old(rng)@,
            attempts as nat,
        ),
        same_elements(final(slice)@, old(slice)@),
{
    let ghost s0 = slice@;
    let ghost c0 = cats@;
    let ghost r0 = rng@;
    let mut attempt: usize = 0;
    while attempt < attempts
        invariant
            attempt <= attempts,
            max >= 1,
            categorized(slice@, cats@, label),
            repairs(slice@, cats@, max as nat, rng@, (attempts - attempt) as nat) == repairs(
                s0,
                c0,
                max as nat,
                r0,
                attempts as nat,
            ),
            same_elements(slice@, s0),
        decreases attempts - attempt,
    {
        match find_violation(cats.as_slice(), max) {
            None => {
                proof {
                    lemma_repairs_done(
                        slice@,
                        cats@,
                        max as nat,
                        rng@,
                        (attempts - attempt) as nat,
                    );
                    lemma_repairs_done(slice@, cats@, max as nat, rng@, 0);
                }
                attempt = attempts;
            },
            Some(violation_idx) => {
                proof {
                    lemma_repairs_step(
                        slice@,
                        cats@,
                        max as nat,
                        rng@,
                        (attempts - attempt) as nat,
                        violation_idx as int,
                    );
                }
                let ghost s1 = slice@;
                let ghost c1 = cats@;
                try_fix_violation(slice, cats, violation_idx, max, rng);
                proof {
                    let t = choose|t: int|
                        0 <= t < s1.len() && slice@ == swapped(s1, violation_idx as int, t)
                            && cats@ == swapped(c1, violation_idx as int, t);
                    lemma_swapped_categorized(s1, c1, violation_idx as int, t, label);
                }
                attempt += 1;
            },
        }
    }
    proof {
        lemma_repairs_done_zero(slice@, cats@, max as nat, rng@);
    }
}

} // verus!
