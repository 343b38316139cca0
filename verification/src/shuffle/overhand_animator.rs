use super::overhand::{
    lemma_overhand_chunks, lemma_overhand_unfold, lemma_overhand_is_permutation, overhand_chunk_sizes, overhand_chunks,
    overhand_from, overhand_once_result,
};
use super::permutation::{apply_permutation, gathered, same_elements};
use crate::rng::{between, Rng, RngState};
use vstd::prelude::*;

verus! {

/// Animation state of an [`OverhandAnimator`].
#[derive(Debug, Clone, Copy, PartialEq, Eq, Structural)]
pub enum OverhandState {
    /// A chunk is about to be cut from the back of the hand.
    TakingChunk,
    /// The chunk just cut is being laid on the pile.
    PlacingChunk,
    /// All passes are done.
    Complete,
}

/// Positions `lo, lo + 1, ..., hi - 1`.
pub open spec fn index_range(lo: nat, hi: nat) -> Seq<usize> {
    Seq::new((hi - lo) as nat, |k: int| (lo + k) as usize)
}

/// Stepped overhand shuffle for frame-by-frame animation. Each pass cuts
/// chunks from the back of the hand and lays them on a pile; `items` keeps
/// the order of the last completed pass until the current one is done.
#[derive(Clone)]
pub struct OverhandAnimator<T> {
    items: Vec<T>,
    chunk_sizes: Vec<usize>,
    chunk_index: usize,
    hand_len: usize,
    chunk_start: usize,
    chunk_end: usize,
    pile: Vec<usize>,
    passes_remaining: usize,
    state: OverhandState,
    seed: u64,
    pass_start: Ghost<RngState>,
    cursor: Ghost<RngState>,
}

/// Appends the positions `lo..hi` to `v`.
fn push_range(v: &mut Vec<usize>, lo: usize, hi: usize)
    requires
        lo <= hi,
    ensures
        final(v)@ == old(v)@ + index_range(lo as nat, hi as nat),
{
    let ghost prev = v@;
    let mut k = lo;
    while k < hi
        invariant
            lo <= k <= hi,
            v@ == prev + index_range(lo as nat, k as nat),
        decreases hi - k,
    {
        v.push(k);
        k += 1;
        assert(v@ =~= prev + index_range(lo as nat, k as nat));
    }
}

impl<T> OverhandAnimator<T> {
    /// The items in the order of the last completed pass.
    pub closed spec fn items_seq(&self) -> Seq<T> {
        self.items@
    }

    /// The animation state.
    pub closed spec fn phase(&self) -> OverhandState {
        self.state
    }

    /// Passes still to finish, the current one included.
    pub closed spec fn passes_left(&self) -> nat {
        self.passes_remaining as nat
    }

    /// The seed from which passes after the first are drawn.
    pub closed spec fn pass_seed(&self) -> u64 {
        self.seed
    }

    /// The generator state from which the current pass was drawn.
    pub closed spec fn pass_start(&self) -> RngState {
        self.pass_start@
    }

    /// The positions, in `items`, of the chunk being laid on the pile.
    pub closed spec fn chunk_bounds(&self) -> (nat, nat) {
        (self.chunk_start as nat, self.chunk_end as nat)
    }

    /// Whether every chunk of the current pass has been laid on the pile.
    pub closed spec fn pass_done(&self) -> bool {
        self.chunk_index >= self.chunk_sizes@.len()
    }

    /// Number of cards still in the hand during a pass.
    pub closed spec fn hand_size(&self) -> nat {
        self.hand_len as nat
    }

    /// Sizes of the chunks still to be cut in the current pass, in order.
    pub closed spec fn pending_chunks(&self) -> Seq<usize> {
        let sizes = self.chunk_sizes@;
        if self.state == OverhandState::PlacingChunk {
            sizes.subrange(self.chunk_index + 1, sizes.len() as int)
        } else {
            sizes.subrange(self.chunk_index as int, sizes.len() as int)
        }
    }

    /// A bound on the number of further calls of `step` that return `true`:
    /// exact for the current pass (a step to cut and a step to lay each
    /// pending chunk), and for each later pass one step that starts it plus
    /// at most two steps per card.
    pub open spec fn steps_left(&self) -> nat {
        let n = self.items_seq().len();
        let later = (self.passes_left() - 1) * (2 * n + 1);
        match self.phase() {
            OverhandState::Complete => 0,
            OverhandState::TakingChunk => (2 * self.pending_chunks().len() + later) as nat,
            OverhandState::PlacingChunk => (1 + 2 * self.pending_chunks().len() + later) as nat,
        }
    }

    /// While running, every pending chunk holds at least one card, there are
    /// no more pending chunks than cards in the hand, and a pass is done
    /// exactly when no chunk is pending and none is being laid.
    pub proof fn lemma_chunk_progress(&self)
        requires
            self.wf(),
            self.phase() != OverhandState::Complete,
        ensures
            self.items_seq().len() >= 2,
            self.passes_left() >= 1,
            self.hand_size() <= self.items_seq().len(),
            self.pending_chunks().len() <= self.hand_size(),
            forall|i: int|
                0 <= i < self.pending_chunks().len() ==> #[trigger] self.pending_chunks()[i] >= 1,
            self.phase() == OverhandState::TakingChunk ==> (self.pass_done() <==> self.pending_chunks().len()
                == 0),
            self.phase() == OverhandState::PlacingChunk ==> self.chunk_bounds().0
                < self.chunk_bounds().1,
    {
        let n = self.items@.len();
        let sizes = self.chunk_sizes@;
        lemma_overhand_chunks(n, self.pass_start@);
        lemma_overhand_chunks(self.hand_len as nat, self.cursor@);
        let pend = self.pending_chunks();
        assert forall|i: int| 0 <= i < pend.len() implies #[trigger] pend[i] >= 1 by {
            assert(pend[i] == overhand_chunks(self.hand_len as nat, self.cursor@).0[i]);
        }
        if self.phase() == OverhandState::PlacingChunk {
            assert(sizes[self.chunk_index as int] >= 1);
        }
    }

    /// The animator's internal invariant.
    pub closed spec fn wf(&self) -> bool {
        let n = self.items@.len();
        let sizes = self.chunk_sizes@;
        let idx = self.chunk_index as int;
        let full = overhand_from(n, self.pass_start@).0;
        &&& n <= usize::MAX
        &&& self.state != OverhandState::Complete ==> {
            &&& self.passes_remaining >= 1
            &&& n >= 2
            &&& sizes == overhand_chunks(n, self.pass_start@).0
            &&& self.hand_len <= n
        }
        &&& self.state == OverhandState::TakingChunk ==> {
            &&& idx <= sizes.len()
            &&& sizes.subrange(idx, sizes.len() as int) == overhand_chunks(
                self.hand_len as nat,
                self.cursor@,
            ).0
            &&& self.pile@ + overhand_from(self.hand_len as nat, self.cursor@).0 == full
        }
        &&& self.state == OverhandState::PlacingChunk ==> {
            &&& idx < sizes.len()
            &&& self.chunk_start == self.hand_len
            &&& self.chunk_end == self.hand_len + sizes[idx]
            &&& self.chunk_end <= n
            &&& sizes.subrange(idx + 1, sizes.len() as int) == overhand_chunks(
                self.hand_len as nat,
                self.cursor@,
            ).0
            &&& self.pile@ + index_range(self.chunk_start as nat, self.chunk_end as nat)
                + overhand_from(self.hand_len as nat, self.cursor@).0 == full
        }
    }
}

impl<T: Clone> OverhandAnimator<T> {
    /// Starts an animation of `passes` overhand passes over `items`: one draw
    /// gives the seed of the later passes, then the first pass is drawn from
    /// `rng`. With no pass or at most one item the animation is complete at
    /// once.
    pub fn new(items: Vec<T>, passes: usize, rng: &mut Rng) -> (a: Self)
        ensures
            final(rng)@.seed == old(rng)@.seed,
            a.wf(),
            a.items_seq() == items@,
            a.passes_left() == passes,
            a.pass_seed() == between(old(rng)@.word(), 0, u32::MAX as nat),
            (passes == 0 || items@.len() <= 1) ==> a.phase() == OverhandState::Complete
                && final(rng)@ == old(rng)@.next(),
            !(passes == 0 || items@.len() <= 1) ==> {
                &&& a.phase() == OverhandState::TakingChunk
                &&& a.pass_start() == old(rng)@.next()
                &&& !a.pass_done()
                &&& a.hand_size() == items@.len()
                &&& a.pending_chunks() == overhand_chunks(items@.len(), old(rng)@.next()).0
                &&& final(rng)@ == overhand_chunks(items@.len(), old(rng)@.next()).1
                &&& a.steps_left() <= passes * (2 * items@.len() + 1) - 1
            },
            (passes == 0 || items@.len() <= 1) ==> a.steps_left() == 0,
    {
        let len = items.len();
        let seed = rng.next_between(0, 4294967295) as u64;
        let running = !(passes == 0 || len <= 1);
        let mut animator = OverhandAnimator {
            items,
            chunk_sizes: Vec::new(),
            chunk_index: 0,
            hand_len: 0,
            chunk_start: 0,
            chunk_end: 0,
            pile: Vec::new(),
            passes_remaining: passes,
            state: if running {
                OverhandState::TakingChunk
            } else {
                OverhandState::Complete
            },
            seed,
            pass_start: Ghost(rng@),
            cursor: Ghost(rng@),
        };
        if running {
            animator.prepare_pass(rng);
            proof {
                lemma_overhand_chunks(len as nat, animator.pass_start@);
                let n = len as int;
                let q = passes as int;
                let k = animator.chunk_sizes@.len() as int;
                assert(animator.pending_chunks() =~= animator.chunk_sizes@);
                assert(2 * k + (q - 1) * (2 * n + 1) <= q * (2 * n + 1) - 1) by (nonlinear_arith)
                    requires
                        k <= n,
                        q >= 1,
                ;
            }
        }
        animator
    }

    /// Draws the chunk sizes of a new pass from `rng` and starts it.
    fn prepare_pass(&mut self, rng: &mut Rng)
        requires
            old(self).items@.len() >= 2,
            old(self).passes_remaining >= 1,
        ensures
            final(rng)@.seed == old(rng)@.seed,
            final(self).wf(),
            final(self).items@ == old(self).items@,
            final(self).passes_remaining == old(self).passes_remaining,
            final(self).seed == old(self).seed,
            final(self).state == OverhandState::TakingChunk,
            final(self).pass_start@ == old(rng)@,
            final(self).chunk_index == 0,
            final(self).chunk_index < final(self).chunk_sizes@.len(),
            final(self).hand_len == old(self).items@.len(),
            final(self).chunk_sizes@ == overhand_chunks(old(self).items@.len(), old(rng)@).0,
            final(rng)@ == overhand_chunks(old(self).items@.len(), old(rng)@).1,
    {
        let len = self.items.len();
        let ghost r0 = rng@;
        if len <= 1 {
            self.state = OverhandState::Complete;
            return;
        }
        self.chunk_sizes = overhand_chunk_sizes(len, rng);
        self.chunk_index = 0;
        self.hand_len = len;
        self.chunk_start = 0;
        self.chunk_end = 0;
        self.pile = Vec::new();
        self.pass_start = Ghost(r0);
        self.cursor = Ghost(r0);
        self.state = OverhandState::TakingChunk;
        proof {
            lemma_overhand_chunks(len as nat, r0);
            assert(self.chunk_sizes@.subrange(0, self.chunk_sizes@.len() as int)
                =~= self.chunk_sizes@);
            assert(self.pile@ + overhand_from(len as nat, r0).0 =~= overhand_from(
                len as nat,
                r0,
            ).0);
        }
    }

    /// Advances the animation by one step and returns whether it is still
    /// running: a chunk is cut, or laid on the pile, or a pass completes
    /// (the pile becomes the new order of `items` and the next pass is drawn
    /// from a generator seeded with `seed + passes left`).
    pub fn step(&mut self) -> (running: bool)
        requires
            old(self).wf(),
        ensures
            final(self).wf(),
            same_elements(final(self).items_seq(), old(self).items_seq()),
            final(self).items_seq().len() == old(self).items_seq().len(),
            final(self).pass_seed() == old(self).pass_seed(),
            !running ==> final(self).phase() == OverhandState::Complete,
            running == (old(self).steps_left() > 0),
            running ==> final(self).steps_left() < old(self).steps_left(),
            !running ==> final(self).steps_left() == 0,
            old(self).phase() == OverhandState::Complete ==> !running && *final(self) == *old(self),
            old(self).phase() == OverhandState::PlacingChunk ==> {
                &&& running
                &&& final(self).phase() == OverhandState::TakingChunk
                &&& final(self).items_seq() == old(self).items_seq()
                &&& final(self).passes_left() == old(self).passes_left()
                &&& final(self).pass_start() == old(self).pass_start()
            },
            old(self).phase() == OverhandState::TakingChunk && !old(self).pass_done() ==> {
                &&& running
                &&& final(self).phase() == OverhandState::PlacingChunk
                &&& final(self).items_seq() == old(self).items_seq()
                &&& old(self).pending_chunks().len() > 0
                &&& final(self).hand_size() == old(self).hand_size() - old(
                    self,
                ).pending_chunks()[0]
                &&& final(self).chunk_bounds() == (final(self).hand_size(), old(self).hand_size())
                &&& final(self).chunk_bounds().0 < final(self).chunk_bounds().1
                &&& final(self).pending_chunks() == old(self).pending_chunks().drop_first()
                &&& final(self).passes_left() == old(self).passes_left()
                &&& final(self).pass_start() == old(self).pass_start()
            },
            old(self).phase() == OverhandState::PlacingChunk ==> final(self).hand_size() == old(
                self,
            ).hand_size() && final(self).pending_chunks() == old(self).pending_chunks(),
            old(self).phase() == OverhandState::TakingChunk && old(self).pass_done() ==> {
                &&& final(self).items_seq() == overhand_once_result(
                    old(self).items_seq(),
                    old(self).pass_start(),
                ).0
                &&& final(self).passes_left() == old(self).passes_left() - 1
                &&& old(self).passes_left() == 1 ==> !running
                &&& old(self).passes_left() > 1 ==> running && final(self).phase()
                    == OverhandState::TakingChunk && final(self).pass_start() == RngState::fresh(
                    vstd::wrapping::u64_specs::wrapping_add(
                        old(self).pass_seed(),
                        (old(self).passes_left() - 1) as u64,
                    ),
                ) && final(self).hand_size() == old(self).items_seq().len()
                    && final(self).pending_chunks() == overhand_chunks(
                    old(self).items_seq().len(),
                    final(self).pass_start(),
                ).0
            },
    {
        match self.state {
            OverhandState::Complete => false,
            OverhandState::TakingChunk => {
                if self.chunk_index >= self.chunk_sizes.len() {
                    self.finish_pass()
                } else {
                    self.take_chunk();
                    true
                }
            },
            OverhandState::PlacingChunk => {
                self.place_chunk();
                true
            },
        }
    }

    /// Completes the current pass: the pile becomes the order of `items`.
    fn finish_pass(&mut self) -> (running: bool)
        requires
            old(self).wf(),
            old(self).state == OverhandState::TakingChunk,
            old(self).chunk_index >= old(self).chunk_sizes@.len(),
        ensures
            final(self).wf(),
            same_elements(final(self).items@, old(self).items@),
            final(self).items@.len() == old(self).items@.len(),
            final(self).seed == old(self).seed,
            final(self).items@ == overhand_once_result(old(self).items@, old(self).pass_start@).0,
            final(self).passes_remaining == old(self).passes_remaining - 1,
            !running ==> final(self).state == OverhandState::Complete,
            old(self).passes_remaining == 1 ==> !running,
            old(self).passes_remaining > 1 ==> running && final(self).state
                == OverhandState::TakingChunk && final(self).pass_start@ == RngState::fresh(
                vstd::wrapping::u64_specs::wrapping_add(
                    old(self).seed,
                    (old(self).passes_remaining - 1) as u64,
                ),
            ) && final(self).chunk_index == 0 && final(self).hand_len == old(self).items@.len()
                && final(self).chunk_sizes@ == overhand_chunks(
                old(self).items@.len(),
                final(self).pass_start@,
            ).0,
            running ==> final(self).steps_left() < old(self).steps_left(),
            (old(self).steps_left() > 0) == (old(self).passes_remaining > 1),
    {
        let ghost n = self.items@.len();
        proof {
            let q = self.passes_remaining as int;
            let m = n as int;
            assert(self.pending_chunks().len() == 0);
            assert(((q - 1) * (2 * m + 1) > 0) == (q > 1)) by (nonlinear_arith)
                requires
                    q >= 1,
                    m >= 2,
            ;
            lemma_overhand_chunks(n, self.pass_start@);
            lemma_overhand_chunks(self.hand_len as nat, self.cursor@);
            assert(self.pile@ =~= self.pile@ + overhand_from(self.hand_len as nat, self.cursor@).0);
            lemma_overhand_is_permutation(n, self.pass_start@);
        }
        apply_permutation(self.items.as_mut_slice(), self.pile.as_slice());
        self.passes_remaining = self.passes_remaining - 1;
        if self.passes_remaining == 0 {
            self.state = OverhandState::Complete;
            return false;
        }
        let mut rng = Rng::with_seed(self.seed.wrapping_add(self.passes_remaining as u64));
        self.prepare_pass(&mut rng);
        proof {
            lemma_overhand_chunks(n, self.pass_start@);
            let p = self.passes_remaining as int;
            let k = self.chunk_sizes@.len() as int;
            let m = n as int;
            assert(self.pending_chunks() =~= self.chunk_sizes@);
            assert(2 * k + (p - 1) * (2 * m + 1) < p * (2 * m + 1)) by (nonlinear_arith)
                requires
                    p >= 1,
                    k <= m,
            ;
        }
        true
    }

    /// Cuts the next chunk from the back of the hand.
    fn take_chunk(&mut self)
        requires
            old(self).wf(),
            old(self).state == OverhandState::TakingChunk,
            old(self).chunk_index < old(self).chunk_sizes@.len(),
        ensures
            final(self).wf(),
            final(self).items@ == old(self).items@,
            final(self).seed == old(self).seed,
            final(self).state == OverhandState::PlacingChunk,
            final(self).steps_left() < old(self).steps_left(),
            final(self).chunk_index == old(self).chunk_index,
            final(self).chunk_sizes@ == old(self).chunk_sizes@,
            final(self).hand_len == old(self).hand_len - old(self).chunk_sizes@[old(
                self,
            ).chunk_index as int],
            final(self).chunk_start == final(self).hand_len,
            final(self).chunk_end == old(self).hand_len,
            final(self).chunk_start < final(self).chunk_end,
            final(self).passes_remaining == old(self).passes_remaining,
            final(self).pass_start@ == old(self).pass_start@,
    {
        let size = self.chunk_sizes[self.chunk_index];
        let ghost sizes = self.chunk_sizes@;
        let ghost idx = self.chunk_index as int;
        let ghost h = self.hand_len as nat;
        let ghost cur = self.cursor@;
        proof {
            let rest = sizes.subrange(idx, sizes.len() as int);
            assert(rest[0] == size);
            assert(rest.len() > 0);
            lemma_overhand_chunks(h, cur);
            assert(h >= 1);
            lemma_overhand_unfold(h, cur);
            assert(sizes.subrange(idx + 1, sizes.len() as int) =~= rest.drop_first());
        }
        let chunk_start = self.hand_len - size;
        proof {
            assert(index_range(chunk_start as nat, h) =~= Seq::new(
                size as nat,
                |k: int| (h - size + k) as usize,
            ));
            assert(self.pile@ + index_range(chunk_start as nat, h) + overhand_from(
                chunk_start as nat,
                cur.next(),
            ).0 =~= self.pile@ + overhand_from(h, cur).0);
        }
        self.chunk_start = chunk_start;
        self.chunk_end = self.hand_len;
        self.hand_len = chunk_start;
        self.cursor = Ghost(cur.next());
        self.state = OverhandState::PlacingChunk;
    }

    /// Lays the chunk just cut on the pile.
    fn place_chunk(&mut self)
        requires
            old(self).wf(),
            old(self).state == OverhandState::PlacingChunk,
        ensures
            final(self).wf(),
            final(self).items@ == old(self).items@,
            final(self).seed == old(self).seed,
            final(self).state == OverhandState::TakingChunk,
            final(self).steps_left() < old(self).steps_left(),
            final(self).chunk_index == old(self).chunk_index + 1,
            final(self).chunk_sizes@ == old(self).chunk_sizes@,
            final(self).hand_len == old(self).hand_len,
            final(self).passes_remaining == old(self).passes_remaining,
            final(self).pass_start@ == old(self).pass_start@,
    {
        let ghost prev = self.pile@;
        let ghost h = self.hand_len as nat;
        let ghost cur = self.cursor@;
        proof {
            lemma_overhand_chunks(self.items@.len(), self.pass_start@);
        }
        push_range(&mut self.pile, self.chunk_start, self.chunk_end);
        proof {
            assert(self.pile@ + overhand_from(h, cur).0 =~= prev + index_range(
                self.chunk_start as nat,
                self.chunk_end as nat,
            ) + overhand_from(h, cur).0);
        }
        self.chunk_index += 1;
        self.chunk_start = 0;
        self.chunk_end = 0;
        self.state = OverhandState::TakingChunk;
    }

    /// The items in the order of the last completed pass.
    pub fn items(&self) -> (s: &[T])
        ensures
            s@ == self.items_seq(),
    {
        self.items.as_slice()
    }

    /// The chunk being laid on the pile; empty in the other states.
    pub fn current_chunk(&self) -> (s: &[T])
        requires
            self.wf(),
        ensures
            self.phase() == OverhandState::PlacingChunk ==> s@ == self.items_seq().subrange(
                self.chunk_bounds().0 as int,
                self.chunk_bounds().1 as int,
            ),
            self.phase() != OverhandState::PlacingChunk ==> s@.len() == 0,
    {
        if self.state == OverhandState::PlacingChunk {
            &self.items.as_slice()[self.chunk_start..self.chunk_end]
        } else {
            &self.items.as_slice()[0..0]
        }
    }

    /// The animation state.
    pub fn state(&self) -> (s: OverhandState)
        ensures
            s == self.phase(),
    {
        self.state
    }

    /// Whether all passes are done.
    pub fn is_complete(&self) -> (b: bool)
        ensures
            b == (self.phase() == OverhandState::Complete),
    {
        self.state == OverhandState::Complete
    }

    /// The items in the order of the last completed pass.
    pub fn into_items(self) -> (v: Vec<T>)
        ensures
            v@ == self.items_seq(),
    {
        self.items
    }
}

} // verus!
