use alkaidsd::delta::Delta;
use alkaidsd::random::Random;

#[test]
fn test_delta_first_update_negative() {
    let mut delta = Delta::<i32>::default();
    let mut rng = Random::new(42);

    assert!(delta.update(-10, &mut rng));
    assert_eq!(delta.value, -10);
    assert_eq!(delta.counter, 1);
}

#[test]
fn test_delta_first_update_positive_rejected() {
    let mut delta = Delta::<i32>::default();
    let mut rng = Random::new(42);

    assert!(!delta.update(100, &mut rng));
    assert_eq!(delta.value, 0);
    assert_eq!(delta.counter, -1);
}

#[test]
fn test_delta_better_value() {
    let mut delta = Delta::new(100, 1);
    let mut rng = Random::new(42);

    assert!(delta.update(50, &mut rng));
    assert_eq!(delta.value, 50);
    assert_eq!(delta.counter, 1);
}

#[test]
fn test_delta_worse_value() {
    let mut delta = Delta::new(50, 1);
    let mut rng = Random::new(42);

    assert!(!delta.update(100, &mut rng));
    assert_eq!(delta.value, 50);
    assert_eq!(delta.counter, 1);
}

#[test]
fn delta_tie_counts_and_keeps_value() {
    let mut delta = Delta::new(7, 1);
    let mut rng = Random::new(3);
    let _ = delta.update(7, &mut rng);
    assert_eq!(delta.value, 7);
    assert_eq!(delta.counter, 2);
    let _ = delta.update(7, &mut rng);
    assert_eq!(delta.counter, 3);
}

#[test]
fn delta_update_from_merges_counters_on_tie() {
    let mut a = Delta::new(5, 2);
    let b = Delta::new(5, 3);
    let mut rng = Random::new(9);
    let _ = a.update_from(&b, &mut rng);
    assert_eq!(a.value, 5);
    assert_eq!(a.counter, 5);
    let c = Delta::new(4, 2);
    assert!(a.update_from(&c, &mut rng));
    assert_eq!(a.value, 4);
    assert_eq!(a.counter, 2);
}

#[test]
fn delta_counter_saturates() {
    let mut a = Delta::new(1, i32::MAX - 1);
    let b = Delta::new(1, 5);
    let mut rng = Random::new(11);
    let _ = a.update_from(&b, &mut rng);
    assert_eq!(a.counter, i32::MAX);
}
