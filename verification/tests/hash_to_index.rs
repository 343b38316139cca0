use mixed_signals::random::hash_to_index;

#[test]
fn test_hash_to_index_determinism() {
    let idx1 = hash_to_index(42, 100, 26);
    let idx2 = hash_to_index(42, 100, 26);
    assert_eq!(idx1, idx2, "Same inputs should produce same index");
}

#[test]
fn test_hash_to_index_range() {
    for len in [1, 10, 26, 100, 256] {
        for i in 0..100 {
            let idx = hash_to_index(42, i, len);
            assert!(idx < len, "Index {} out of range [0, {})", idx, len);
        }
    }
}

#[test]
fn test_hash_to_index_different_seeds() {
    let idx1 = hash_to_index(1, 100, 26);
    let idx2 = hash_to_index(2, 100, 26);
    assert_ne!(idx1, idx2);
}

#[test]
fn test_hash_to_index_zero_len() {
    let idx = hash_to_index(42, 100, 0);
    assert_eq!(idx, 0);
}

#[test]
fn test_hash_to_index_distribution() {
    let mut counts = vec![0; 10];
    for i in 0..1000 {
        let idx = hash_to_index(42, i, 10);
        counts[idx] += 1;
    }
    for count in counts {
        assert!(
            count > 50 && count < 150,
            "Poor distribution: bucket has {}",
            count
        );
    }
}
