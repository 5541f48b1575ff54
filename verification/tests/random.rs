use alkaidsd::random::Random;

#[test]
fn test_random_deterministic() {
    let mut rng1 = Random::new(42);
    let mut rng2 = Random::new(42);

    for _ in 0..100 {
        assert_eq!(rng1.next_int(0, 1000), rng2.next_int(0, 1000));
    }
}

#[test]
fn test_random_range() {
    let mut rng = Random::new(12345);

    for _ in 0..1000 {
        let val = rng.next_int(10, 20);
        assert!(val >= 10 && val <= 20);
    }
}

#[test]
fn float_bits_are_24_bits() {
    let mut rng = Random::new(12345);
    for _ in 0..1000 {
        let bits = rng.next_float_bits();
        assert!(bits < (1 << 24));
    }
}

#[test]
fn seeded_state_matches_splitmix_like_scramble() {
    let rng = Random::new(42);
    let s = rng.state();
    assert_eq!(s[0], 42);
    let rng2 = Random::new(42);
    assert_eq!(rng2.state(), s);
}

#[test]
fn shuffle_is_a_permutation() {
    let mut rng = Random::new(5);
    let mut v: Vec<i32> = (0..50).collect();
    rng.shuffle(&mut v);
    let mut w = v.clone();
    w.sort();
    assert_eq!(w, (0..50).collect::<Vec<i32>>());
}

#[test]
fn empty_range_yields_lower_end() {
    let mut rng = Random::new(5);
    assert_eq!(rng.next_int(3, 2), 3);
}
