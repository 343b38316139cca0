use super::permutation::{apply_permutation, gathered, is_index_permutation, same_elements};
use crate::rng::{Rng, RngState};
use vstd::prelude::*;

verus! {

/// `0.01` in 32-bit fixed point (rounded up).
pub const UNIT_FLOOR_Q32: u64 = 42949673;

/// `0.99` in 32-bit fixed point, so that floor and span add up to `2^32 - 1`.
pub const UNIT_SPAN_Q32: u64 = 4252017622;

/// `ln 2` in 16-bit fixed point.
pub const LN2_Q16: u64 = 45426;

/// `2^31`: one in the 31-bit fixed point of the logarithm kernel.
pub const ONE_Q31: u64 = 0x8000_0000;

/// `2^32`: two in the 31-bit fixed point of the logarithm kernel.
pub const TWO_Q31: u64 = 0x1_0000_0000;

/// The unit value `u = 0.01 + 0.99 * w / u64::MAX` of a word, in 32-bit
/// fixed point.
pub open spec fn unit_q32(w: u64) -> nat {
    (UNIT_FLOOR_Q32 as nat) + ((w as nat) * (UNIT_SPAN_Q32 as nat)) / (u64::MAX as nat)
}

/// Doubles `x` until it reaches `2^31`, counting the doublings from `s`.
pub open spec fn normalized(x: nat, s: nat) -> (nat, nat)
    decreases TWO_Q31 - x,
{
    if x == 0 || x >= ONE_Q31 {
        (x, s)
    } else {
        normalized(2 * x, s + 1)
    }
}

/// `k` more fraction bits of `log2(x / 2^31)` for `x` in `[2^31, 2^32)`,
/// appended to `acc` (by repeated squaring).
pub open spec fn log2_bits(x: nat, k: nat, acc: nat) -> nat
    decreases k,
{
    if k == 0 {
        acc
    } else {
        let sq = x * x / (ONE_Q31 as nat);
        if sq >= TWO_Q31 {
            log2_bits(sq / 2, (k - 1) as nat, 2 * acc + 1)
        } else {
            log2_bits(sq, (k - 1) as nat, 2 * acc)
        }
    }
}

/// `-log2(u)` of the word's unit value, in 16-bit fixed point.
pub open spec fn neg_log2_q16(w: u64) -> nat {
    let n = normalized(unit_q32(w), 0);
    let frac = log2_bits(n.0, 16, 0);
    ((n.1 + 1) * 65536 - frac) as nat
}

/// A fixed-point approximation of `ceil(-ln(u) * avg)` for the word's unit
/// value: `-log2(u)` to 16 fraction bits times `ln 2` to 16 fraction bits
/// times `avg`, rounded up. It can differ from the real-valued ceiling by one
/// where `-ln(u) * avg` lies within the rounding error of an integer.
pub open spec fn neg_ln_scaled(w: u64, avg: nat) -> nat {
    let t = neg_log2_q16(w) * (LN2_Q16 as nat) * avg;
    (t + 0xffff_ffff) / 0x1_0000_0000
}

/// The size of the next chunk cut from a hand of `remaining >= 1` cards:
/// the fixed-point `ceil(-ln(u) * max(remaining / 5, 1))` of
/// [`neg_ln_scaled`], clamped to `[1, remaining]`, so that small chunks are
/// the most likely.
#[verifier::opaque]
pub open spec fn chunk_size(w: u64, remaining: nat) -> nat {
    let avg: nat = if remaining / 5 >= 1 {
        remaining / 5
    } else {
        1
    };
    let raw = neg_ln_scaled(w, avg);
    if raw < 1 {
        1
    } else if raw > remaining {
        remaining
    } else {
        raw
    }
}

/// A chunk holds at least one card and at most the whole hand.
pub proof fn lemma_chunk_size_bounds(w: u64, remaining: nat)
    requires
        remaining >= 1,
    ensures
        1 <= chunk_size(w, remaining) <= remaining,
{
    reveal(chunk_size);
}

proof fn lemma_normalized(x: nat, s: nat)
    requires
        1 <= x < TWO_Q31,
    ensures
        ONE_Q31 <= normalized(x, s).0 < TWO_Q31,
    decreases TWO_Q31 - x,
{
    if x < ONE_Q31 {
        lemma_normalized(2 * x, s + 1);
    }
}

/// Powers of two.
pub open spec fn pow2_nat(k: nat) -> nat
    decreases k,
{
    if k == 0 {
        1
    } else {
        2 * pow2_nat((k - 1) as nat)
    }
}

/// Computes `chunk_size(w, remaining)` in integer fixed point.
pub fn next_chunk_size(w: u64, remaining: usize) -> (c: usize)
    requires
        remaining >= 1,
    ensures
        c == chunk_size(w, remaining as nat),
        1 <= c <= remaining,
{
    reveal(chunk_size);
    let ghost wn = w as nat;
    let ghost span = UNIT_SPAN_Q32 as nat;
    let ghost m = u64::MAX as nat;
    assert(wn * span <= m * span) by (nonlinear_arith)
        requires
            wn <= m,
    ;
    assert((wn * span) / m <= span) by (nonlinear_arith)
        requires
            wn * span <= m * span,
            m > 0,
    ;
    let unit: u64 = UNIT_FLOOR_Q32 + ((w as u128) * (UNIT_SPAN_Q32 as u128) / (u64::MAX as u128)) as u64;
    assert(unit as nat == unit_q32(w));
    // Double into [2^31, 2^32), counting the doublings.
    let mut x: u64 = unit;
    let mut shifts: u64 = 0;
    while x < ONE_Q31
        invariant
            1 <= x < TWO_Q31,
            normalized(x as nat, shifts as nat) == normalized(unit as nat, 0),
            (shifts == 0 && x >= 0x200_0000) || (shifts == 1 && x >= 0x400_0000) || (shifts == 2
                && x >= 0x800_0000) || (shifts == 3 && x >= 0x1000_0000) || (shifts == 4 && x
                >= 0x2000_0000) || (shifts == 5 && x >= 0x4000_0000) || (shifts == 6 && x
                >= 0x8000_0000),
        decreases TWO_Q31 - x,
    {
        x = x * 2;
        shifts = shifts + 1;
    }
    assert(shifts <= 6);
    // Fraction bits of log2(x / 2^31) by repeated squaring.
    let mut y: u64 = x;
    let mut frac: u64 = 0;
    let mut j: u64 = 0;
    while j < 16
        invariant
            ONE_Q31 <= y < TWO_Q31,
            j <= 16,
            frac < pow2_nat(j as nat),
            pow2_nat(j as nat) <= 65536,
            log2_bits(y as nat, (16 - j) as nat, frac as nat) == log2_bits(x as nat, 16, 0),
        decreases 16 - j,
    {
        let ghost yn = y as nat;
        assert(yn * yn < 0x1_0000_0000_0000_0000) by (nonlinear_arith)
            requires
                yn < 0x1_0000_0000,
        ;
        assert(yn * yn >= 0x4000_0000_0000_0000) by (nonlinear_arith)
            requires
                yn >= 0x8000_0000,
        ;
        let sq = y * y / ONE_Q31;
        assert(ONE_Q31 <= sq < 2 * TWO_Q31);
        if sq >= TWO_Q31 {
            y = sq / 2;
            frac = 2 * frac + 1;
        } else {
            y = sq;
            frac = 2 * frac;
        }
        assert(pow2_nat((j + 1) as nat) == 2 * pow2_nat(j as nat));
        j = j + 1;
        proof {
            lemma_pow2_nat_16();
            lemma_pow2_nat_mono(j as nat, 16);
        }
    }
    proof {
        lemma_pow2_nat_16();
    }
    let neg_log2: u64 = (shifts + 1) * 65536 - frac;
    assert(neg_log2 as nat == neg_log2_q16(w));
    let avg: usize = if remaining / 5 >= 1 {
        remaining / 5
    } else {
        1
    };
    let ghost l = neg_log2 as nat;
    let ghost a = avg as nat;
    assert(l * (LN2_Q16 as nat) * a <= 0x8_0000 * 0x1_0000 * 0x1_0000_0000_0000_0000)
        by (nonlinear_arith)
        requires
            l <= 0x8_0000,
            a < 0x1_0000_0000_0000_0000,
    ;
    let t: u128 = (neg_log2 as u128) * (LN2_Q16 as u128) * (avg as u128);
    let raw: u128 = (t + 0xffff_ffff) / 0x1_0000_0000;
    assert(raw as nat == neg_ln_scaled(w, avg as nat));
    if raw < 1 {
        1
    } else if raw > remaining as u128 {
        remaining
    } else {
        raw as usize
    }
}

proof fn lemma_pow2_nat_16()
    ensures
        pow2_nat(16) == 65536,
{
    reveal_with_fuel(pow2_nat, 17);
}

proof fn lemma_pow2_nat_mono(a: nat, b: nat)
    requires
        a <= b,
    ensures
        pow2_nat(a) <= pow2_nat(b),
    decreases b - a,
{
    if a < b {
        lemma_pow2_nat_mono(a, (b - 1) as nat);
    }
}

/// Chunk sizes of an overhand pass over a hand of `rem` cards, in the order
/// the chunks are cut from the back of the hand, and the generator state after
/// the pass (one draw per chunk).
pub open spec fn overhand_chunks(rem: nat, r: RngState) -> (Seq<usize>, RngState)
    decreases rem,
{
    if rem == 0 {
        (Seq::empty(), r)
    } else {
        let c = chunk_size(r.word(), rem);
        proof {
            lemma_chunk_size_bounds(r.word(), rem);
        }
        let rest = overhand_chunks((rem - c) as nat, r.next());
        (seq![c as usize] + rest.0, rest.1)
    }
}

/// The order of an overhand pass over a hand of `rem` cards: each chunk is
/// cut from the back of the hand and laid on the pile, so the chunks come out
/// in cutting order, each keeping its own order.
pub open spec fn overhand_from(rem: nat, r: RngState) -> (Seq<usize>, RngState)
    decreases rem,
{
    if rem == 0 {
        (Seq::empty(), r)
    } else {
        let c = chunk_size(r.word(), rem);
        proof {
            lemma_chunk_size_bounds(r.word(), rem);
        }
        let rest = overhand_from((rem - c) as nat, r.next());
        (Seq::new(c, |k: int| (rem - c + k) as usize) + rest.0, rest.1)
    }
}

/// The sequence and generator state after one overhand pass.
pub open spec fn overhand_once_result<T>(s: Seq<T>, r: RngState) -> (Seq<T>, RngState) {
    if s.len() <= 1 {
        (s, r)
    } else {
        let o = overhand_from(s.len(), r);
        (gathered(s, o.0), o.1)
    }
}

/// The sequence and generator state after `p` overhand passes.
pub open spec fn overhand_passes<T>(s: Seq<T>, r: RngState, p: nat) -> (Seq<T>, RngState)
    decreases p,
{
    if p == 0 {
        (s, r)
    } else {
        let x = overhand_once_result(s, r);
        overhand_passes(x.0, x.1, (p - 1) as nat)
    }
}

/// The sequence and generator state after `overhand_shuffle(s, passes, _)`.
pub open spec fn overhand_shuffle_result<T>(s: Seq<T>, r: RngState, passes: nat) -> (
    Seq<T>,
    RngState,
) {
    if s.len() <= 1 || passes == 0 {
        (s, r)
    } else {
        overhand_passes(s, r, passes)
    }
}

/// An overhand order over `rem` cards lists each of them once.
pub proof fn lemma_overhand_is_permutation(rem: nat, r: RngState)
    requires
        rem <= usize::MAX,
    ensures
        is_index_permutation(overhand_from(rem, r).0, rem),
    decreases rem,
{
    if rem > 0 {
        let c = chunk_size(r.word(), rem);
        lemma_chunk_size_bounds(r.word(), rem);
        let low = (rem - c) as nat;
        lemma_overhand_is_permutation(low, r.next());
        let head = Seq::new(c, |k: int| (rem - c + k) as usize);
        let rest = overhand_from(low, r.next()).0;
        let o = overhand_from(rem, r).0;
        assert(o == head + rest);
        assert forall|k: int| 0 <= k < rem implies #[trigger] o[k] < rem by {
            if k >= c {
                assert(o[k] == rest[k - c]);
            }
        }
        assert forall|a: int, b: int| 0 <= a < rem && 0 <= b < rem && a != b implies #[trigger] o[a]
            != #[trigger] o[b] by {
            if a >= c {
                assert(o[a] == rest[a - c]);
            }
            if b >= c {
                assert(o[b] == rest[b - c]);
            }
        }
    }
}

/// The chunks of an overhand pass each hold at least one card and together
/// hold the whole hand, so there are at most `rem` of them.
pub proof fn lemma_overhand_chunks(rem: nat, r: RngState)
    requires
        rem <= usize::MAX,
    ensures
        overhand_chunks(rem, r).0.len() <= rem,
        rem > 0 ==> overhand_chunks(rem, r).0.len() > 0,
        forall|t: int|
            0 <= t < overhand_chunks(rem, r).0.len() ==> 1 <= #[trigger] overhand_chunks(
                rem,
                r,
            ).0[t] <= rem,
    decreases rem,
{
    if rem > 0 {
        let c = chunk_size(r.word(), rem);
        lemma_chunk_size_bounds(r.word(), rem);
        lemma_overhand_chunks((rem - c) as nat, r.next());
        let rest = overhand_chunks((rem - c) as nat, r.next()).0;
        assert forall|t: int|
            0 <= t < overhand_chunks(rem, r).0.len() implies 1 <= #[trigger] overhand_chunks(
            rem,
            r,
        ).0[t] <= rem by {
            if t > 0 {
                assert(overhand_chunks(rem, r).0[t] == rest[t - 1]);
            } else {
                assert(overhand_chunks(rem, r).0[0] == c as usize);
            }
        }
    }
}

/// One chunk of an overhand pass: its size is the first chunk size, and the
/// order starts with the back `c` cards of the hand.
pub proof fn lemma_overhand_unfold(rem: nat, r: RngState)
    requires
        1 <= rem <= usize::MAX,
    ensures
        ({
            let c = chunk_size(r.word(), rem);
            &&& 1 <= c <= rem
            &&& overhand_chunks(rem, r).0[0] == c
            &&& overhand_chunks(rem, r).0.drop_first() == overhand_chunks(
                (rem - c) as nat,
                r.next(),
            ).0
            &&& overhand_from(rem, r).0 == Seq::new(c, |k: int| (rem - c + k) as usize)
                + overhand_from((rem - c) as nat, r.next()).0
        }),
{
    let c = chunk_size(r.word(), rem);
    lemma_chunk_size_bounds(r.word(), rem);
    assert(overhand_chunks(rem, r).0.drop_first() =~= overhand_chunks(
        (rem - c) as nat,
        r.next(),
    ).0);
}

/// Computes the chunk sizes of one overhand pass over `len` cards.
pub fn overhand_chunk_sizes(len: usize, rng: &mut Rng) -> (sizes: Vec<usize>)
    ensures
        final(rng)@.seed == old(rng)@.seed,
        sizes@ == overhand_chunks(len as nat, old(rng)@).0,
        final(rng)@ == overhand_chunks(len as nat, old(rng)@).1,
{
    let ghost seed0 = rng@.seed;
    let ghost r0 = rng@;
    let mut sizes: Vec<usize> = Vec::new();
    let mut remaining = len;
    while remaining > 0
        invariant
            rng@.seed == seed0,
            remaining <= len,
            sizes@ + overhand_chunks(remaining as nat, rng@).0 == overhand_chunks(len as nat, r0).0,
            overhand_chunks(remaining as nat, rng@).1 == overhand_chunks(len as nat, r0).1,
        decreases remaining,
    {
        let ghost prev = sizes@;
        let w = rng.next_word();
        let c = next_chunk_size(w, remaining);
        sizes.push(c);
        remaining = remaining - c;
        assert(sizes@ + overhand_chunks(remaining as nat, rng@).0 =~= prev + (seq![c]
            + overhand_chunks(remaining as nat, rng@).0));
    }
    assert(sizes@ =~= sizes@ + Seq::<usize>::empty());
    sizes
}

/// Computes the order of one overhand pass over `len` cards.
pub fn overhand_order(len: usize, rng: &mut Rng) -> (order: Vec<usize>)
    ensures
        final(rng)@.seed == old(rng)@.seed,
        order@ == overhand_from(len as nat, old(rng)@).0,
        final(rng)@ == overhand_from(len as nat, old(rng)@).1,
        is_index_permutation(order@, len as nat),
{
    let ghost seed0 = rng@.seed;
    let ghost r0 = rng@;
    let mut order: Vec<usize> = Vec::with_capacity(len);
    let mut remaining = len;
    while remaining > 0
        invariant
            rng@.seed == seed0,
            remaining <= len,
            order@ + overhand_from(remaining as nat, rng@).0 == overhand_from(len as nat, r0).0,
            overhand_from(remaining as nat, rng@).1 == overhand_from(len as nat, r0).1,
        decreases remaining,
    {
        let ghost prev = order@;
        let ghost rest_rng = rng@.next();
        let w = rng.next_word();
        let c = next_chunk_size(w, remaining);
        let start = remaining - c;
        let mut k = start;
        while k < remaining
            invariant
                rng@.seed == seed0,
                start <= k <= remaining,
                order@ == prev + Seq::new((k - start) as nat, |t: int| (start + t) as usize),
            decreases remaining - k,
        {
            order.push(k);
            k += 1;
            assert(order@ =~= prev + Seq::new((k - start) as nat, |t: int| (start + t) as usize));
        }
        remaining = start;
        assert(order@ + overhand_from(remaining as nat, rng@).0 =~= prev + (Seq::new(
            c as nat,
            |t: int| (start + t) as usize,
        ) + overhand_from(remaining as nat, rng@).0));
    }
    assert(order@ =~= order@ + Seq::<usize>::empty());
    proof {
        lemma_overhand_is_permutation(len as nat, r0);
    }
    order
}

/// One overhand pass: chunks are cut from the back of the hand and laid on
/// the pile, which reverses the order of the chunks.
pub fn overhand_once<T: Clone>(slice: &mut [T], rng: &mut Rng)
    ensures
        final(rng)@.seed == old(rng)@.seed,
        final(slice)@ == overhand_once_result(old(slice)@, old(rng)@).0,
        final(rng)@ == overhand_once_result(old(slice)@, old(rng)@).1,
        same_elements(final(slice)@, old(slice)@),
{
    let len = slice.len();
    if len <= 1 {
        return;
    }
    let order = overhand_order(len, rng);
    apply_permutation(slice, order.as_slice());
}

/// Overhand shuffle, `passes` times.
pub fn overhand_shuffle<T: Clone>(slice: &mut [T], passes: usize, rng: &mut Rng)
    ensures
        final(rng)@.seed == old(rng)@.seed,
        final(slice)@ == overhand_shuffle_result(old(slice)@, old(rng)@, passes as nat).0,
        final(rng)@ == overhand_shuffle_result(old(slice)@, old(rng)@, passes as nat).1,
        same_elements(final(slice)@, old(slice)@),
{
    let ghost seed0 = rng@.seed;
    let ghost s0 = slice@;
    let ghost r0 = rng@;
    let len = slice.len();
    if len <= 1 || passes == 0 {
        return;
    }
    let mut p: usize = 0;
    while p < passes
        invariant
            rng@.seed == seed0,
            p <= passes,
            overhand_passes(slice@, rng@, (passes - p) as nat) == overhand_passes(
                s0,
                r0,
                passes as nat,
            ),
            same_elements(slice@, s0),
        decreases passes - p,
    {
        overhand_once(slice, rng);
        p += 1;
    }
}

} // verus!
