use super::permutation::{apply_permutation, gathered, same_elements};
use super::riffle::{is_riffle_of, riffle_cut};
use crate::rng::{between, ratio_hit, Rng, RngState};
use vstd::prelude::*;

verus! {

/// Animation state of a [`RiffleAnimator`].
#[derive(Debug, Clone, Copy, PartialEq, Eq, Structural)]
pub enum RiffleState {
    /// The deck is being cut.
    Cutting,
    /// Cards are being dropped from the two packets.
    Dropping,
    /// All passes are done.
    Complete,
}

/// The drop decisions that a pass records when `lrem` and `rrem` cards
/// remain in the left and right packets: `true` asks for the left packet.
/// The decision is drawn with probability `lrem / (lrem + rrem)`; it is
/// recorded as `true` as well when the right packet has just run out while
/// the left one has not.
pub open spec fn riffle_decisions(lrem: nat, rrem: nat, r: RngState) -> (Seq<bool>, RngState)
    decreases lrem + rrem,
{
    if lrem + rrem == 0 {
        (Seq::empty(), r)
    } else {
        let from_left = ratio_hit(r.word(), lrem, lrem + rrem) && lrem > 0;
        let l2: nat = if from_left || rrem == 0 {
            (lrem - 1) as nat
        } else {
            lrem
        };
        let r2: nat = if from_left || rrem == 0 {
            rrem
        } else {
            (rrem - 1) as nat
        };
        let rest = riffle_decisions(l2, r2, r.next());
        (seq![from_left || (r2 == 0 && l2 > 0)] + rest.0, rest.1)
    }
}

/// The positions that the drops `d` take when the left packet continues at
/// `li` (up to `cut`) and the right packet at `ri` (up to `n`): a decision
/// takes from its packet, or from the other one when its packet is empty.
pub open spec fn riffle_drops(cut: nat, n: nat, li: nat, ri: nat, d: Seq<bool>) -> Seq<usize>
    decreases d.len(),
{
    if d.len() == 0 {
        Seq::empty()
    } else {
        let rest = d.drop_first();
        let left = if d[0] {
            li < cut
        } else {
            ri >= n && li < cut
        };
        if left {
            seq![li as usize] + riffle_drops(cut, n, li + 1, ri, rest)
        } else if ri < n {
            seq![ri as usize] + riffle_drops(cut, n, li, ri + 1, rest)
        } else {
            riffle_drops(cut, n, li, ri, rest)
        }
    }
}

/// The cut, the drop decisions and the generator state after drawing a pass
/// over `n >= 2` cards from `r`.
pub open spec fn riffle_pass_plan(n: nat, r: RngState) -> (nat, Seq<bool>, RngState) {
    let cut = riffle_cut(n, r.word());
    let d = riffle_decisions(cut, (n - cut) as nat, r.next());
    (cut, d.0, d.1)
}

/// The order that a whole pass drawn from `r` gives `n >= 2` cards.
pub open spec fn riffle_pass_order(n: nat, r: RngState) -> Seq<usize> {
    let plan = riffle_pass_plan(n, r);
    riffle_drops(plan.0, n, 0, plan.0, plan.1)
}

/// A pass records one decision per card.
pub proof fn lemma_riffle_decisions_len(lrem: nat, rrem: nat, r: RngState)
    ensures
        riffle_decisions(lrem, rrem, r).0.len() == lrem + rrem,
    decreases lrem + rrem,
{
    if lrem + rrem > 0 {
        let from_left = ratio_hit(r.word(), lrem, lrem + rrem) && lrem > 0;
        let l2: nat = if from_left || rrem == 0 {
            (lrem - 1) as nat
        } else {
            lrem
        };
        let r2: nat = if from_left || rrem == 0 {
            rrem
        } else {
            (rrem - 1) as nat
        };
        lemma_riffle_decisions_len(l2, r2, r.next());
    }
}

/// Stepped riffle shuffle for frame-by-frame animation: each step drops one
/// card; `items` keeps the order of the last completed pass until the
/// current one is done.
#[derive(Clone)]
pub struct RiffleAnimator<T> {
    items: Vec<T>,
    drop_from_left: Vec<bool>,
    drop_index: usize,
    cut: usize,
    l_idx: usize,
    r_idx: usize,
    pile: Vec<usize>,
    passes_remaining: usize,
    state: RiffleState,
    seed: u64,
    pass_start: Ghost<RngState>,
}

impl<T> RiffleAnimator<T> {
    /// The items in the order of the last completed pass.
    pub closed spec fn items_seq(&self) -> Seq<T> {
        self.items@
    }

    /// The animation state.
    pub closed spec fn phase(&self) -> RiffleState {
        self.state
    }

    /// Passes still to finish, the current one included.
    pub closed spec fn passes_left(&self) -> nat {
        self.passes_remaining as nat
    }

    /// The seed from which passes after the first are drawn.
    pub closed spec fn pass_seed(&self) -> u64 {
        self.seed
    }

    /// The generator state from which the current pass was drawn.
    pub closed spec fn pass_start(&self) -> RngState {
        self.pass_start@
    }

    /// Whether every card of the current pass has been dropped.
    pub closed spec fn pass_done(&self) -> bool {
        self.drop_index >= self.drop_from_left@.len()
    }

    /// Number of cards dropped so far in the current pass.
    pub closed spec fn drops_done(&self) -> nat {
        self.drop_index as nat
    }

    /// The number of further calls of `step` that return `true`: the drops
    /// left in this pass, then for each later pass one step that starts it
    /// and one drop per card (plus the cut step while still cutting).
    pub open spec fn steps_left(&self) -> nat {
        let n = self.items_seq().len();
        let later = (self.passes_left() - 1) * (n + 1);
        match self.phase() {
            RiffleState::Complete => 0,
            RiffleState::Dropping => (n - self.drops_done() + later) as nat,
            RiffleState::Cutting => (1 + n + later) as nat,
        }
    }

    /// While running, a pass drops each of the `n >= 2` cards once: it is
    /// done exactly when `n` cards have been dropped, and at least one pass
    /// is left.
    pub proof fn lemma_pass_progress(&self)
        requires
            self.wf(),
            self.phase() != RiffleState::Complete,
        ensures
            self.items_seq().len() >= 2,
            self.passes_left() >= 1,
            self.drops_done() <= self.items_seq().len(),
            self.pass_done() <==> self.drops_done() == self.items_seq().len(),
            self.phase() == RiffleState::Cutting ==> self.drops_done() == 0,
    {
    }

    /// The animator's internal invariant.
    pub closed spec fn wf(&self) -> bool {
        let n = self.items@.len();
        let cut = self.cut as nat;
        let d = self.drop_from_left@;
        let p = self.pile@;
        &&& n <= usize::MAX
        &&& self.state != RiffleState::Complete ==> {
            &&& self.passes_remaining >= 1
            &&& n >= 2
            &&& cut == riffle_pass_plan(n, self.pass_start@).0
            &&& d == riffle_pass_plan(n, self.pass_start@).1
            &&& d.len() == n
            &&& 1 <= cut < n
            &&& self.l_idx <= cut <= self.r_idx <= n
            &&& self.drop_index <= d.len()
            &&& p.len() == self.drop_index
            &&& p.len() == self.l_idx + (self.r_idx - cut)
            &&& self.state == RiffleState::Cutting ==> self.drop_index == 0
            &&& p + riffle_drops(
                cut,
                n,
                self.l_idx as nat,
                self.r_idx as nat,
                d.subrange(self.drop_index as int, d.len() as int),
            ) == riffle_pass_order(n, self.pass_start@)
            &&& forall|k: int|
                0 <= k < p.len() ==> (#[trigger] p[k] < self.l_idx || (cut <= p[k] < self.r_idx))
            &&& forall|a: int, b: int|
                0 <= a < b < p.len() && p[a] < cut && p[b] < cut ==> #[trigger] p[a]
                    < #[trigger] p[b]
            &&& forall|a: int, b: int|
                0 <= a < b < p.len() && p[a] >= cut && p[b] >= cut ==> #[trigger] p[a]
                    < #[trigger] p[b]
        }
    }
}

impl<T: Clone> RiffleAnimator<T> {
    /// Starts an animation of `passes` riffle passes over `items`: one draw
    /// gives the seed of the later passes, then the first pass is drawn from
    /// `rng`. With no pass or at most one item the animation is complete at
    /// once.
    pub fn new(items: Vec<T>, passes: usize, rng: &mut Rng) -> (a: Self)
        ensures
            final(rng)@.seed == old(rng)@.seed,
            a.wf(),
            a.items_seq() == items@,
            a.passes_left() == passes,
            a.pass_seed() == between(old(rng)@.word(), 0, u32::MAX as nat),
            (passes == 0 || items@.len() <= 1) ==> a.phase() == RiffleState::Complete
                && final(rng)@ == old(rng)@.next(),
            (passes == 0 || items@.len() <= 1) ==> a.steps_left() == 0,
            !(passes == 0 || items@.len() <= 1) ==> {
                &&& a.phase() == RiffleState::Dropping
                &&& a.pass_start() == old(rng)@.next()
                &&& !a.pass_done()
                &&& a.drops_done() == 0
                &&& a.steps_left() == passes * (items@.len() + 1) - 1
                &&& final(rng)@ == riffle_pass_plan(items@.len(), old(rng)@.next()).2
            },
    {
        let len = items.len();
        let seed = rng.next_between(0, 4294967295) as u64;
        let running = !(passes == 0 || len <= 1);
        let mut animator = RiffleAnimator {
            items,
            drop_from_left: Vec::new(),
            drop_index: 0,
            cut: 0,
            l_idx: 0,
            r_idx: 0,
            pile: Vec::new(),
            passes_remaining: passes,
            state: if running {
                RiffleState::Cutting
            } else {
                RiffleState::Complete
            },
            seed,
            pass_start: Ghost(rng@),
        };
        if running {
            animator.prepare_pass(rng);
            proof {
                let n = len as int;
                let q = passes as int;
                assert(n + (q - 1) * (n + 1) == q * (n + 1) - 1) by (nonlinear_arith);
            }
        }
        animator
    }

    /// Draws the cut and the drop decisions of a new pass from `rng`.
    fn prepare_pass(&mut self, rng: &mut Rng)
        requires
            old(self).items@.len() >= 2,
            old(self).passes_remaining >= 1,
        ensures
            final(rng)@.seed == old(rng)@.seed,
            final(self).wf(),
            final(self).items@ == old(self).items@,
            final(self).passes_remaining == old(self).passes_remaining,
            final(self).seed == old(self).seed,
            final(self).state == RiffleState::Dropping,
            final(self).pass_start@ == old(rng)@,
            final(self).drop_index == 0,
            final(self).drop_from_left@.len() == final(self).items@.len(),
            final(rng)@ == riffle_pass_plan(old(self).items@.len(), old(rng)@).2,
    {
        let ghost seed0 = rng@.seed;
        let len = self.items.len();
        let ghost r0 = rng@;
        if len <= 1 {
            self.state = RiffleState::Complete;
            return;
        }
        let cut_min = if len / 4 >= 1 {
            len / 4
        } else {
            1
        };
        let cut_max = if len / 4 * 3 + (len % 4) * 3 / 4 <= len - 1 {
            len / 4 * 3 + (len % 4) * 3 / 4
        } else {
            len - 1
        };
        assert(len / 4 * 3 + (len % 4) * 3 / 4 == 3 * len / 4);
        let drawn = rng.next_between(cut_min, cut_max);
        let cut = if drawn < 1 {
            1
        } else if drawn > len - 1 {
            len - 1
        } else {
            drawn
        };
        assert(cut == riffle_cut(len as nat, r0.word()));
        let ghost r1 = rng@;
        let mut decisions: Vec<bool> = Vec::with_capacity(len);
        let mut l_remaining = cut;
        let mut r_remaining = len - cut;
        while l_remaining > 0 || r_remaining > 0
            invariant
                rng@.seed == seed0,
                l_remaining <= cut,
                r_remaining <= len - cut,
                cut < len,
                decisions@ + riffle_decisions(l_remaining as nat, r_remaining as nat, rng@).0
                    == riffle_decisions(cut as nat, (len - cut) as nat, r1).0,
                riffle_decisions(l_remaining as nat, r_remaining as nat, rng@).1
                    == riffle_decisions(cut as nat, (len - cut) as nat, r1).1,
            decreases l_remaining + r_remaining,
        {
            let total = l_remaining + r_remaining;
            let hit = rng.next_ratio(l_remaining, total);
            let from_left = hit && l_remaining > 0;
            if from_left {
                l_remaining -= 1;
            } else if r_remaining > 0 {
                r_remaining -= 1;
            } else {
                l_remaining -= 1;
            }
            let ghost prev = decisions@;
            decisions.push(from_left || r_remaining == 0 && l_remaining > 0);
            assert(decisions@ + riffle_decisions(l_remaining as nat, r_remaining as nat, rng@).0
                =~= prev + (seq![decisions@.last()] + riffle_decisions(
                l_remaining as nat,
                r_remaining as nat,
                rng@,
            ).0));
        }
        assert(decisions@ =~= decisions@ + Seq::<bool>::empty());
        proof {
            lemma_riffle_decisions_len(cut as nat, (len - cut) as nat, r1);
        }
        self.cut = cut;
        self.drop_from_left = decisions;
        self.drop_index = 0;
        self.l_idx = 0;
        self.r_idx = cut;
        self.pile = Vec::new();
        self.pass_start = Ghost(r0);
        self.state = RiffleState::Dropping;
        proof {
            let d = self.drop_from_left@;
            assert(d.subrange(0, d.len() as int) =~= d);
            assert(self.pile@ + riffle_drops(cut as nat, len as nat, 0, cut as nat, d) =~= riffle_drops(
                cut as nat,
                len as nat,
                0,
                cut as nat,
                d,
            ));
        }
    }

    /// Advances the animation by one step and returns whether it is still
    /// running: one card is dropped, or a pass completes (the dropped order
    /// becomes the order of `items` and the next pass is drawn from a
    /// generator seeded with `seed + passes left`).
    pub fn step(&mut self) -> (running: bool)
        requires
            old(self).wf(),
        ensures
            final(self).wf(),
            same_elements(final(self).items_seq(), old(self).items_seq()),
            final(self).items_seq().len() == old(self).items_seq().len(),
            final(self).pass_seed() == old(self).pass_seed(),
            !running ==> final(self).phase() == RiffleState::Complete,
            running == (old(self).steps_left() > 0),
            running ==> final(self).steps_left() == old(self).steps_left() - 1,
            !running ==> final(self).steps_left() == 0,
            old(self).phase() == RiffleState::Complete ==> !running && *final(self) == *old(self),
            old(self).phase() == RiffleState::Cutting ==> {
                &&& running
                &&& final(self).phase() == RiffleState::Dropping
                &&& final(self).items_seq() == old(self).items_seq()
                &&& final(self).passes_left() == old(self).passes_left()
                &&& final(self).pass_start() == old(self).pass_start()
                &&& final(self).drops_done() == old(self).drops_done()
            },
            old(self).phase() == RiffleState::Dropping && !old(self).pass_done() ==> {
                &&& running
                &&& final(self).phase() == RiffleState::Dropping
                &&& final(self).items_seq() == old(self).items_seq()
                &&& final(self).passes_left() == old(self).passes_left()
                &&& final(self).pass_start() == old(self).pass_start()
                &&& final(self).drops_done() == old(self).drops_done() + 1
            },
            old(self).phase() == RiffleState::Dropping && old(self).pass_done() ==> {
                &&& final(self).items_seq() == gathered(
                    old(self).items_seq(),
                    riffle_pass_order(old(self).items_seq().len(), old(self).pass_start()),
                )
                &&& is_riffle_of(
                    riffle_pass_order(old(self).items_seq().len(), old(self).pass_start()),
                    riffle_pass_plan(old(self).items_seq().len(), old(self).pass_start()).0,
                    old(self).items_seq().len(),
                )
                &&& final(self).passes_left() == old(self).passes_left() - 1
                &&& old(self).passes_left() == 1 ==> !running
                &&& old(self).passes_left() > 1 ==> running && final(self).phase()
                    == RiffleState::Dropping && final(self).pass_start() == RngState::fresh(
                    vstd::wrapping::u64_specs::wrapping_add(
                        old(self).pass_seed(),
                        (old(self).passes_left() - 1) as u64,
                    ),
                ) && final(self).drops_done() == 0
            },
    {
        match self.state {
            RiffleState::Complete => false,
            RiffleState::Cutting => {
                self.state = RiffleState::Dropping;
                true
            },
            RiffleState::Dropping => {
                if self.drop_index >= self.drop_from_left.len() {
                    self.finish_pass()
                } else {
                    self.drop_one();
                    true
                }
            },
        }
    }

    /// Completes the current pass: the dropped order becomes the order of
    /// `items`.
    fn finish_pass(&mut self) -> (running: bool)
        requires
            old(self).wf(),
            old(self).state == RiffleState::Dropping,
            old(self).drop_index >= old(self).drop_from_left@.len(),
        ensures
            final(self).wf(),
            same_elements(final(self).items@, old(self).items@),
            final(self).items@.len() == old(self).items@.len(),
            final(self).seed == old(self).seed,
            final(self).items@ == gathered(
                old(self).items@,
                riffle_pass_order(old(self).items@.len(), old(self).pass_start@),
            ),
            is_riffle_of(
                riffle_pass_order(old(self).items@.len(), old(self).pass_start@),
                riffle_pass_plan(old(self).items@.len(), old(self).pass_start@).0,
                old(self).items@.len(),
            ),
            final(self).passes_remaining == old(self).passes_remaining - 1,
            !running ==> final(self).state == RiffleState::Complete,
            old(self).passes_remaining == 1 ==> !running,
            old(self).passes_remaining > 1 ==> running && final(self).state
                == RiffleState::Dropping && final(self).pass_start@ == RngState::fresh(
                vstd::wrapping::u64_specs::wrapping_add(
                    old(self).seed,
                    (old(self).passes_remaining - 1) as u64,
                ),
            ),
            running ==> final(self).steps_left() == old(self).steps_left() - 1,
            running ==> final(self).drop_index == 0,
            old(self).steps_left() == (old(self).passes_remaining - 1) * (old(self).items@.len()
                + 1),
            (old(self).steps_left() > 0) == (old(self).passes_remaining > 1),
    {
        let ghost n = self.items@.len();
        let ghost cut = self.cut as nat;
        proof {
            let q = self.passes_remaining as int;
            let m = n as int;
            assert(((q - 1) * (m + 1) > 0) == (q > 1)) by (nonlinear_arith)
                requires
                    q >= 1,
                    m >= 2,
            ;
        }
        let ghost p = self.pile@;
        proof {
            let d = self.drop_from_left@;
            assert(d.subrange(self.drop_index as int, d.len() as int) =~= Seq::<bool>::empty());
            assert(p =~= p + Seq::<usize>::empty());
            assert forall|a: int, b: int| 0 <= a < n && 0 <= b < n && a != b implies #[trigger] p[a]
                != #[trigger] p[b] by {
                if a < b {
                    if p[a] < cut && p[b] < cut {
                    } else if p[a] >= cut && p[b] >= cut {
                    }
                } else {
                    if p[a] < cut && p[b] < cut {
                    } else if p[a] >= cut && p[b] >= cut {
                    }
                }
            }
        }
        apply_permutation(self.items.as_mut_slice(), self.pile.as_slice());
        self.passes_remaining = self.passes_remaining - 1;
        if self.passes_remaining == 0 {
            self.state = RiffleState::Complete;
            return false;
        }
        let mut rng = Rng::with_seed(self.seed.wrapping_add(self.passes_remaining as u64));
        self.prepare_pass(&mut rng);
        proof {
            let q = self.passes_remaining as int;
            let m = n as int;
            assert(m + (q - 1) * (m + 1) == q * (m + 1) - 1) by (nonlinear_arith);
        }
        true
    }

    /// Drops one card on the pile.
    fn drop_one(&mut self)
        requires
            old(self).wf(),
            old(self).state == RiffleState::Dropping,
            old(self).drop_index < old(self).drop_from_left@.len(),
        ensures
            final(self).wf(),
            final(self).items@ == old(self).items@,
            final(self).seed == old(self).seed,
            final(self).state == RiffleState::Dropping,
            final(self).drop_index == old(self).drop_index + 1,
            final(self).passes_remaining == old(self).passes_remaining,
            final(self).pass_start@ == old(self).pass_start@,
    {
        let ghost n = self.items@.len();
        let ghost d = self.drop_from_left@;
        let ghost idx = self.drop_index as int;
        let ghost prev = self.pile@;
        let ghost li0 = self.l_idx as nat;
        let ghost ri0 = self.r_idx as nat;
        let len = self.items.len();
        let from_left = self.drop_from_left[self.drop_index];
        let take_left = if from_left {
            self.l_idx < self.cut
        } else {
            self.r_idx >= len && self.l_idx < self.cut
        };
        proof {
            let rest = d.subrange(idx, d.len() as int);
            assert(rest[0] == from_left);
            assert(rest.drop_first() =~= d.subrange(idx + 1, d.len() as int));
            assert(self.l_idx < self.cut || self.r_idx < len);
        }
        if take_left {
            self.pile.push(self.l_idx);
            self.l_idx += 1;
        } else {
            self.pile.push(self.r_idx);
            self.r_idx += 1;
        }
        self.drop_index += 1;
        proof {
            let rest_after = riffle_drops(
                self.cut as nat,
                n,
                self.l_idx as nat,
                self.r_idx as nat,
                d.subrange(idx + 1, d.len() as int),
            );
            assert(self.pile@ + rest_after =~= prev + (seq![self.pile@.last()] + rest_after));
        }
    }

    /// The items in the order of the last completed pass.
    pub fn items(&self) -> (s: &[T])
        ensures
            s@ == self.items_seq(),
    {
        self.items.as_slice()
    }

    /// The animation state.
    pub fn state(&self) -> (s: RiffleState)
        ensures
            s == self.phase(),
    {
        self.state
    }

    /// Whether all passes are done.
    pub fn is_complete(&self) -> (b: bool)
        ensures
            b == (self.phase() == RiffleState::Complete),
    {
        self.state == RiffleState::Complete
    }

    /// The items in the order of the last completed pass.
    pub fn into_items(self) -> (v: Vec<T>)
        ensures
            v@ == self.items_seq(),
    {
        self.items
    }
}

} // verus!
