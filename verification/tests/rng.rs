use mixed_signals::rng::Rng;

#[test]
fn test_rng_determinism() {
    let mut rng1 = Rng::with_seed(42);
    let mut rng2 = Rng::with_seed(42);

    for _ in 0..10 {
        assert_eq!(rng1.next_word(), rng2.next_word());
    }
}

#[test]
fn test_rng_choose() {
    let mut rng = Rng::with_seed(42);
    let items = ["a", "b", "c"];

    let chosen = rng.choose_item(&items);
    assert!(chosen.is_some());
    assert!(items.contains(chosen.unwrap()));

    let empty: &[i32] = &[];
    assert!(rng.choose_item(empty).is_none());
}

#[test]
fn test_rng_shuffle() {
    let mut rng = Rng::with_seed(42);
    let mut items = vec![1, 2, 3, 4, 5];
    let original = items.clone();

    rng.shuffle(&mut items);

    let mut sorted = items.clone();
    sorted.sort();
    assert_eq!(sorted, original);

    assert_ne!(items, original);
}

#[test]
fn test_rng_reset() {
    let mut rng = Rng::with_seed(42);
    let v1 = rng.next_word();
    let v2 = rng.next_word();
    assert_ne!(v1, v2);

    rng.reset();
    let v3 = rng.next_word();
    assert_eq!(v1, v3);
}

#[test]
fn test_rng_reseed() {
    let mut rng = Rng::with_seed(42);
    let v1 = rng.next_word();

    rng.reseed(99);
    let v2 = rng.next_word();
    assert_ne!(v1, v2);

    rng.reseed(42);
    let v3 = rng.next_word();
    assert_eq!(v1, v3);
}

#[test]
fn only_reseed_changes_the_seed() {
    let mut rng = Rng::with_seed(77);
    let mut items: Vec<i32> = (0..12).collect();
    rng.next_word();
    rng.shuffle(&mut items);
    rng.shuffle_partial(&mut items, 4);
    rng.shuffle_cyclic(&mut items);
    let _ = rng.choose_item(&items);
    rng.reset();
    assert_eq!(rng.seed(), 77);
    rng.reseed(5);
    rng.shuffle(&mut items);
    assert_eq!(rng.seed(), 5);
}
