use alkaidsd::acceptance_rule::{AcceptanceRule, HillClimbing, HillClimbingWithEqual, LateAcceptanceHillClimbing};
use alkaidsd::random::Random;

#[test]
fn test_hill_climbing() {
    let mut rule = HillClimbing;
    let mut rng = Random::new(42);

    assert!(rule.accept(100, 90, &mut rng));
    assert!(!rule.accept(100, 100, &mut rng));
    assert!(!rule.accept(100, 110, &mut rng));
}

#[test]
fn test_hill_climbing_with_equal() {
    let mut rule = HillClimbingWithEqual;
    let mut rng = Random::new(42);

    assert!(rule.accept(100, 90, &mut rng));
    assert!(rule.accept(100, 100, &mut rng));
    assert!(!rule.accept(100, 110, &mut rng));
}

#[test]
fn late_acceptance_compares_with_history() {
    let mut rule = LateAcceptanceHillClimbing::new(2);
    let mut rng = Random::new(1);
    // Empty history (i32::MAX): a worse value is still better than it.
    assert!(rule.accept(100, 120, &mut rng));
    assert!(rule.accept(120, 130, &mut rng));
    // No worse than the current value: accepted.
    assert!(rule.accept(130, 125, &mut rng));
    // Position 1 holds 130: 140 is worse than the current value and the history.
    assert!(!rule.accept(125, 140, &mut rng));
}
