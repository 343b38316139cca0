use mixed_signals::random::{derive_seed, derive_spatial_seed, hash_to_index, hash_u64_pair};
use mixed_signals::rng::Rng;
use mixed_signals::shuffle::{
    apply_permutation, constrained_shuffle, fisher_yates, interleave, next_chunk_size,
    overhand_once, overhand_order, overhand_shuffle, partial_shuffle, riffle_drop_order,
    riffle_once, sattolo, shuffle_copy, OverhandAnimator, OverhandState, RiffleAnimator,
    RiffleState,
};
use rand_chacha::rand_core::{RngCore, SeedableRng};
use rand_chacha::ChaCha8Rng;

fn sorted(mut v: Vec<i32>) -> Vec<i32> {
    v.sort();
    v
}

#[test]
fn pair_hash_exact_value() {
    assert_eq!(hash_u64_pair(42, 100), 16431094560330025079);
    assert_eq!(hash_u64_pair(0, 0), 0);
    assert_eq!(hash_to_index(42, 100, 26), 23);
}

#[test]
fn spatial_seed_exact_bytes() {
    let bytes = derive_spatial_seed(7, -3, 5);
    let expected: [u8; 8] = [111, 198, 161, 95, 99, 46, 153, 73];
    for i in 0..32 {
        assert_eq!(bytes[i], expected[i % 8]);
    }
}

#[test]
fn draw_seed_spreads_pair_hash() {
    let key = derive_seed(42, 3);
    let h = hash_u64_pair(42, 3);
    for i in 0..32 {
        assert_eq!(key[i], ((h >> ((i * 8) % 64)) & 0xff) as u8);
    }
}

#[test]
fn draws_are_chacha8_words_of_derived_keys() {
    let mut rng = Rng::with_seed(42);
    for k in 0..5u64 {
        let expected = ChaCha8Rng::from_seed(derive_seed(42, k)).next_u64();
        assert_eq!(rng.next_word(), expected);
    }
    assert_eq!(rng.step(), 5);
}

#[test]
fn draw_below_scales_the_word() {
    let mut a = Rng::with_seed(9);
    let mut b = Rng::with_seed(9);
    for n in 1..50usize {
        let w = a.next_word() as u128;
        let expected = ((w * n as u128) / (u64::MAX as u128)).min(n as u128 - 1) as usize;
        assert_eq!(b.next_below(n), expected);
    }
}

#[test]
fn draw_between_takes_bounds_in_order() {
    let mut a = Rng::with_seed(5);
    let mut b = Rng::with_seed(5);
    let x = a.next_between(10, 3);
    let y = b.next_between(3, 10);
    assert_eq!(x, y);
    assert!((3..=10).contains(&x));
}

#[test]
fn chunk_size_exact_values() {
    assert_eq!(next_chunk_size(0, 100), 93);
    assert_eq!(next_chunk_size(u64::MAX, 100), 1);
    assert_eq!(next_chunk_size(1u64 << 63, 100), 14);
    assert_eq!(next_chunk_size(1u64 << 62, 50), 14);
    assert_eq!(next_chunk_size(12345678901234567, 1000), 909);
    assert_eq!(next_chunk_size(0, 1), 1);
}

#[test]
fn reseed_equals_fresh_generator() {
    let mut a = Rng::with_seed(1);
    a.next_word();
    a.next_word();
    a.reseed(77);
    let mut b = Rng::with_seed(77);
    for _ in 0..4 {
        assert_eq!(a.next_word(), b.next_word());
    }
    assert_eq!(a.seed(), 77);
}

#[test]
fn default_generator_has_seed_zero() {
    let mut a = Rng::default();
    let mut b = Rng::new(0);
    assert_eq!(a.seed(), 0);
    assert_eq!(a.next_word(), b.next_word());
}

#[test]
fn sattolo_never_keeps_a_position() {
    for seed in 0..50u64 {
        let mut rng = Rng::with_seed(seed);
        let original: Vec<i32> = (0..12).collect();
        let mut v = original.clone();
        sattolo(&mut v, &mut rng);
        for i in 0..v.len() {
            assert_ne!(v[i], original[i]);
        }
        assert_eq!(sorted(v), original);
    }
}

#[test]
fn sattolo_builds_a_single_cycle() {
    for seed in 0..50u64 {
        for n in 1..15usize {
            let mut rng = Rng::with_seed(seed);
            let mut v: Vec<usize> = (0..n).collect();
            rng.shuffle_cyclic(&mut v);
            // position k now holds the element from position v[k]
            let mut k = 0usize;
            let mut steps = 0usize;
            loop {
                k = v[k];
                steps += 1;
                if k == 0 {
                    break;
                }
            }
            assert_eq!(steps, n);
        }
    }
}

#[test]
fn constrained_shuffle_categories_bound_runs_when_repaired() {
    let mut rng = Rng::with_seed(9);
    let mut items: Vec<u32> = vec![1, 1, 1, 1, 2, 2, 2, 2, 3, 3, 3, 3];
    constrained_shuffle(&mut items, &mut rng, 1, |x: &u32| *x as usize);
    for w in items.windows(2) {
        assert_ne!(w[0], w[1]);
    }
    let mut sorted_items = items.clone();
    sorted_items.sort();
    assert_eq!(sorted_items, vec![1, 1, 1, 1, 2, 2, 2, 2, 3, 3, 3, 3]);
}

#[test]
fn partial_shuffle_keeps_elements_for_every_k() {
    for k in 0..8usize {
        let mut rng = Rng::with_seed(k as u64);
        let original: Vec<i32> = (0..6).collect();
        let mut v = original.clone();
        partial_shuffle(&mut v, k, &mut rng);
        assert_eq!(sorted(v.clone()), original);
        if k == 0 {
            assert_eq!(v, original);
        }
    }
}

#[test]
fn interleave_52_in_shuffles_restore_deck() {
    let original: Vec<i32> = (1..=52).collect();
    let mut deck = original.clone();
    for _ in 0..52 {
        interleave(&mut deck, false);
    }
    assert_eq!(deck, original);
}

#[test]
fn interleave_in_shuffle_odd_length() {
    let mut odd = vec![1, 2, 3, 4, 5];
    interleave(&mut odd, false);
    assert_eq!(odd, vec![4, 1, 5, 2, 3]);
}

fn is_interleaving(v: &[i32], cut: i32) -> bool {
    let left: Vec<i32> = v.iter().copied().filter(|&x| x < cut).collect();
    let right: Vec<i32> = v.iter().copied().filter(|&x| x >= cut).collect();
    left.windows(2).all(|w| w[0] < w[1]) && right.windows(2).all(|w| w[0] < w[1])
}

#[test]
fn riffle_pass_interleaves_two_packets() {
    for seed in 0..20u64 {
        let mut rng = Rng::with_seed(seed);
        let mut deck: Vec<i32> = (0..20).collect();
        riffle_once(&mut deck, &mut rng);
        assert_eq!(sorted(deck.clone()), (0..20).collect::<Vec<i32>>());
        assert!((1..20).any(|cut| is_interleaving(&deck, cut)));
    }
}

#[test]
fn riffle_drop_order_lists_every_position() {
    let mut rng = Rng::with_seed(3);
    let mut order = riffle_drop_order(13, &mut rng);
    order.sort();
    assert_eq!(order, (0..13).collect::<Vec<usize>>());
}

fn is_block_reversal(v: &[i32]) -> bool {
    // The pile is made of increasing runs of consecutive values whose starts decrease.
    let mut starts = Vec::new();
    let mut i = 0;
    while i < v.len() {
        let start = v[i];
        let mut j = i + 1;
        while j < v.len() && v[j] == v[j - 1] + 1 {
            j += 1;
        }
        starts.push(start);
        i = j;
    }
    starts.windows(2).all(|w| w[0] > w[1])
}

#[test]
fn overhand_pass_reverses_chunk_order() {
    for seed in 0..20u64 {
        let mut rng = Rng::with_seed(seed);
        let mut deck: Vec<i32> = (0..30).collect();
        overhand_once(&mut deck, &mut rng);
        assert_eq!(sorted(deck.clone()), (0..30).collect::<Vec<i32>>());
        assert!(is_block_reversal(&deck));
        // The first chunk cut comes from the back of the hand.
        let first_run_end = (1..deck.len()).find(|&i| deck[i] != deck[i - 1] + 1).unwrap_or(deck.len());
        assert_eq!(deck[first_run_end - 1], 29);
    }
}

#[test]
fn overhand_shuffle_mixes_a_deck() {
    let mut rng = Rng::with_seed(42);
    let original: Vec<i32> = (1..=52).collect();
    let mut deck = original.clone();
    overhand_shuffle(&mut deck, 10, &mut rng);
    assert_ne!(deck, original);
    assert_eq!(sorted(deck), original);
}

#[test]
fn overhand_order_lists_every_position() {
    let mut rng = Rng::with_seed(8);
    let mut order = overhand_order(40, &mut rng);
    order.sort();
    assert_eq!(order, (0..40).collect::<Vec<usize>>());
}

#[test]
fn apply_permutation_gathers() {
    let mut v = vec!['a', 'b', 'c', 'd', 'e'];
    apply_permutation(&mut v, &[3, 0, 4, 1, 2]);
    assert_eq!(v, vec!['d', 'a', 'e', 'b', 'c']);
    let mut w = vec![10, 20, 30];
    apply_permutation(&mut w, &[0, 1, 2]);
    assert_eq!(w, vec![10, 20, 30]);
}

#[test]
fn shuffle_copy_matches_reservoir_order() {
    let original: Vec<i32> = (1..=15).collect();
    let mut a = Rng::with_seed(11);
    let mut b = Rng::with_seed(11);
    let copy = shuffle_copy(&original, &mut a);
    let streamed = mixed_signals::shuffle::reservoir_shuffle(original.clone(), &mut b);
    assert_eq!(copy, streamed);
    assert_eq!(a.step(), b.step());
}

#[test]
fn fisher_yates_consumes_one_draw_per_position() {
    let mut rng = Rng::with_seed(4);
    let mut v: Vec<i32> = (0..9).collect();
    fisher_yates(&mut v, &mut rng);
    assert_eq!(rng.step(), 8);
    let mut empty: Vec<i32> = Vec::new();
    fisher_yates(&mut empty, &mut rng);
    assert_eq!(rng.step(), 8);
}

#[test]
fn constrained_shuffle_breaks_long_runs() {
    for seed in 0..20u64 {
        let mut rng = Rng::with_seed(seed);
        let mut items: Vec<char> = "AAAABBBBCCCC".chars().collect();
        constrained_shuffle(&mut items, &mut rng, 2, |c| *c as usize);
        let mut run = 1;
        for w in items.windows(2) {
            run = if w[0] == w[1] { run + 1 } else { 1 };
            assert!(run <= 2, "{:?}", items);
        }
    }
}

#[test]
fn constrained_shuffle_zero_limit_means_one() {
    let mut rng = Rng::with_seed(1);
    let mut items: Vec<char> = "AABB".chars().collect();
    constrained_shuffle(&mut items, &mut rng, 0, |c| *c as usize);
    for w in items.windows(2) {
        assert_ne!(w[0], w[1]);
    }
}

#[test]
fn overhand_animator_pass_matches_overhand_once() {
    let deck: Vec<i32> = (0..25).collect();
    let mut rng = Rng::with_seed(42);
    let mut animator = OverhandAnimator::new(deck.clone(), 1, &mut rng);
    let mut saw_chunk = false;
    while animator.step() {
        if animator.state() == OverhandState::PlacingChunk {
            assert!(!animator.current_chunk().is_empty());
            saw_chunk = true;
        } else {
            assert!(animator.current_chunk().is_empty());
        }
    }
    assert!(saw_chunk);
    let mut other = Rng::with_seed(42);
    other.next_word();
    let mut expected = deck.clone();
    overhand_once(&mut expected, &mut other);
    assert_eq!(animator.into_items(), expected);
}

#[test]
fn riffle_animator_keeps_packet_order() {
    let deck: Vec<i32> = (0..16).collect();
    let mut rng = Rng::with_seed(5);
    let mut animator = RiffleAnimator::new(deck.clone(), 1, &mut rng);
    assert_eq!(animator.state(), RiffleState::Dropping);
    let mut steps = 0;
    while animator.step() {
        steps += 1;
        assert_eq!(animator.items(), &deck[..]);
    }
    assert_eq!(steps, 16);
    let result = animator.into_items();
    assert_eq!(sorted(result.clone()), deck);
    assert!((1..16).any(|cut| is_interleaving(&result, cut)));
}

#[test]
fn animators_complete_at_once_without_passes() {
    let mut rng = Rng::with_seed(2);
    let mut o = OverhandAnimator::new(vec![1, 2, 3], 0, &mut rng);
    assert!(o.is_complete());
    assert!(!o.step());
    let r = RiffleAnimator::new(vec![7], 3, &mut rng);
    assert!(r.is_complete());
    assert_eq!(r.into_items(), vec![7]);
}

#[test]
fn riffle_animator_two_passes_take_twenty_one_steps() {
    let mut rng = Rng::with_seed(42);
    let mut animator = RiffleAnimator::new((1..=10).collect::<Vec<i32>>(), 2, &mut rng);
    for call in 1..=21 {
        assert!(animator.step(), "call {} should still be running", call);
    }
    assert!(!animator.step());
    assert!(animator.is_complete());
    assert!(!animator.step());
    assert_eq!(sorted(animator.into_items()), (1..=10).collect::<Vec<i32>>());
}

#[test]
fn riffle_animator_step_count_is_passes_times_cards_plus_one_less_one() {
    for n in 2..12usize {
        for p in 1..4usize {
            let mut rng = Rng::with_seed((n * 7 + p) as u64);
            let mut animator = RiffleAnimator::new((0..n as i32).collect::<Vec<i32>>(), p, &mut rng);
            let mut steps = 0;
            while animator.step() {
                steps += 1;
            }
            assert_eq!(steps, p * (n + 1) - 1);
            assert!(animator.is_complete());
        }
    }
}

#[test]
fn overhand_animator_step_count_is_bounded() {
    for n in 2..20usize {
        for p in 1..4usize {
            let mut rng = Rng::with_seed((n * 11 + p) as u64);
            let mut animator = OverhandAnimator::new((0..n as i32).collect::<Vec<i32>>(), p, &mut rng);
            let mut steps = 0;
            while animator.step() {
                steps += 1;
            }
            assert!(steps <= p * (2 * n + 1) - 1);
            assert!(animator.is_complete());
        }
    }
}

#[test]
fn overhand_animator_single_pass_reverses_packets() {
    let deck: Vec<i32> = (1..=20).collect();
    let mut rng = Rng::with_seed(42);
    let mut animator = OverhandAnimator::new(deck.clone(), 1, &mut rng);
    while animator.step() {
        if animator.state() == OverhandState::TakingChunk {
            assert!(animator.current_chunk().is_empty());
        }
    }
    let result = animator.into_items();
    assert_ne!(result, deck);
    assert!(is_block_reversal(&result));
}
