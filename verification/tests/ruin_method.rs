use alkaidsd::instance::Instance;
use alkaidsd::random::Random;
use alkaidsd::route_context::RouteContext;
use alkaidsd::ruin_method::{get_route, get_route_head, RandomRuin, RuinMethod};
use alkaidsd::solution::AlkaidSolution;

fn test_instance() -> Instance {
    Instance {
        num_customers: 6,
        capacity: 100,
        demands: vec![0, 20, 30, 25, 15, 10],
        distance_matrix: vec![
            vec![0, 10, 20, 30, 40, 50],
            vec![10, 0, 15, 25, 35, 45],
            vec![20, 15, 0, 10, 20, 30],
            vec![30, 25, 10, 0, 10, 20],
            vec![40, 35, 20, 10, 0, 10],
            vec![50, 45, 30, 20, 10, 0],
        ],
    }
}

#[test]
fn test_random_ruin() {
    let instance = test_instance();
    let solution = AlkaidSolution::new();
    let context = RouteContext::new();
    let mut random = Random::new(42);

    let mut ruin = RandomRuin::new(vec![2, 3]);
    let customers = ruin.ruin(&instance, &solution, &context, &mut random);

    assert!(customers.len() >= 2 && customers.len() <= 3);
    for c in &customers {
        assert!(*c >= 1 && *c < instance.num_customers);
    }
}

#[test]
fn random_ruin_picks_distinct_customers() {
    let instance = test_instance();
    let solution = AlkaidSolution::new();
    let context = RouteContext::new();
    let mut random = Random::new(3);
    let mut ruin = RandomRuin::new(vec![-1]);
    let mut customers = ruin.ruin(&instance, &solution, &context, &mut random);
    customers.sort();
    assert_eq!(customers, vec![1, 2, 3, 4, 5]);
}

#[test]
fn route_walks() {
    let mut solution = AlkaidSolution::new();
    let a = solution.insert(1, 1, 0, 0);
    let b = solution.insert(2, 1, a, 0);
    let c = solution.insert(3, 1, b, 0);
    assert_eq!(get_route_head(&solution, c), (a, 2));
    assert_eq!(get_route_head(&solution, a), (a, 0));
    assert_eq!(get_route(&solution, a), vec![a, b, c]);
}
