use mccabre::rolling_hash::{token_hash, RollingHash};

#[test]
fn test_rolling_hash_basic() {
    let window_size = 3;
    let mut rh = RollingHash::new(window_size);

    let values = [1, 2, 3, 4, 5];
    rh.init(&values[0..3]);

    let hash1 = rh.get();
    assert_ne!(hash1, 0);

    let hash2 = rh.roll(1, 4);
    assert_ne!(hash2, 0);
    assert_ne!(hash1, hash2);

    let hash3 = rh.roll(2, 5);
    assert_ne!(hash3, 0);
    assert_ne!(hash2, hash3);
}

#[test]
fn test_same_sequence_same_hash() {
    let mut rh1 = RollingHash::new(4);
    let mut rh2 = RollingHash::new(4);

    let seq = vec![10, 20, 30, 40];
    rh1.init(&seq);
    rh2.init(&seq);

    assert_eq!(rh1.get(), rh2.get());
}

#[test]
fn test_different_sequences_different_hash() {
    let mut rh1 = RollingHash::new(4);
    let mut rh2 = RollingHash::new(4);

    rh1.init(&[1, 2, 3, 4]);
    rh2.init(&[1, 2, 3, 5]);

    assert_ne!(rh1.get(), rh2.get());
}

#[test]
fn test_token_hash() {
    let h1 = token_hash("if");
    let h2 = token_hash("else");
    let h3 = token_hash("if");

    assert_ne!(h1, h2);
    assert_eq!(h1, h3);
}

#[test]
fn test_rolling_preserves_pattern() {
    let mut rh = RollingHash::new(3);
    let values = [1, 2, 3, 4, 5, 6, 1, 2, 3];

    rh.init(&values[0..3]);
    let first_hash = rh.get();

    let mut current_hash = first_hash;
    for i in 3..9 {
        current_hash = rh.roll(values[i - 3], values[i]);
    }

    assert_eq!(current_hash, first_hash);
}
