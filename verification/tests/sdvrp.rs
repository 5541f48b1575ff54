use alkaidsd::instance::Instance;
use alkaidsd::random::Random;
use alkaidsd::route_context::RouteContext;
use alkaidsd::sdvrp::Sdvrp;
use alkaidsd::solution::AlkaidSolution;

#[test]
fn test_sdvrp_base_instance() {
    let instance = Instance {
        num_customers: 3,
        capacity: 100,
        demands: vec![0, 50, 30],
        distance_matrix: vec![
            vec![0, 10, 20],
            vec![10, 0, 15],
            vec![20, 15, 0],
        ],
    };

    let base = Sdvrp::base_instance(&instance);
    assert_eq!(base.num_customers, 3);
    assert_eq!(base.capacity, 100);
}

#[test]
fn test_sdvrp_construct() {
    let instance = Instance {
        num_customers: 5,
        capacity: 100,
        demands: vec![0, 50, 60, 40, 30],
        distance_matrix: vec![
            vec![0, 10, 20, 30, 40],
            vec![10, 0, 15, 25, 35],
            vec![20, 15, 0, 10, 20],
            vec![30, 25, 10, 0, 10],
            vec![40, 35, 20, 10, 0],
        ],
    };

    let mut random = Random::new(42);
    let solution = Sdvrp::construct(&instance, &mut random);
    assert!(!solution.node_indices().is_empty());
    let obj = Sdvrp::calc_objective(&instance, &solution);
    assert!(obj > 0);
}

#[test]
fn test_sdvrp_remove_and_reinsert() {
    let instance = Instance {
        num_customers: 3,
        capacity: 100,
        demands: vec![0, 50, 30],
        distance_matrix: vec![
            vec![0, 10, 20],
            vec![10, 0, 15],
            vec![20, 15, 0],
        ],
    };

    let mut solution = AlkaidSolution::new();
    let node1 = solution.insert(1, 50, 0, 0);
    solution.insert(2, 30, node1, 0);

    let mut context = RouteContext::new();
    context.calc_route_context(&solution);

    let original_obj = Sdvrp::calc_objective(&instance, &solution);
    assert!(original_obj > 0);

    Sdvrp::remove_customers(&instance, &[2], &mut solution, &mut context);

    let mut random = Random::new(42);
    Sdvrp::reinsert_customers(&instance, &[2], 0, &mut solution, &mut context, &mut random);

    let new_obj = Sdvrp::calc_objective(&instance, &solution);
    assert!(new_obj > 0);
}

#[test]
fn remove_customers_removes_all_visits() {
    let instance = Instance {
        num_customers: 3,
        capacity: 100,
        demands: vec![0, 50, 30],
        distance_matrix: vec![vec![0, 10, 20], vec![10, 0, 15], vec![20, 15, 0]],
    };
    let mut solution = AlkaidSolution::new();
    let a = solution.insert(2, 10, 0, 0);
    let b = solution.insert(1, 50, a, 0);
    solution.insert(2, 20, b, 0);
    let mut context = RouteContext::new();
    context.calc_route_context(&solution);
    Sdvrp::remove_customers(&instance, &[2], &mut solution, &mut context);
    assert_eq!(solution.node_indices(), &[b][..]);
    assert_eq!(context.head(0), b);
    assert_eq!(context.load(0), 50);
    assert_eq!(Sdvrp::calc_objective(&instance, &solution), 20);
}

#[test]
fn reinsert_restores_the_demand() {
    let instance = Instance {
        num_customers: 3,
        capacity: 100,
        demands: vec![0, 50, 30],
        distance_matrix: vec![vec![0, 10, 20], vec![10, 0, 15], vec![20, 15, 0]],
    };
    let mut solution = AlkaidSolution::new();
    solution.insert(1, 50, 0, 0);
    let mut context = RouteContext::new();
    context.calc_route_context(&solution);
    let mut random = Random::new(7);
    Sdvrp::reinsert_customers(&instance, &[2], 0, &mut solution, &mut context, &mut random);
    let total: i32 = solution
        .node_indices()
        .iter()
        .filter(|&&n| solution.customer(n) == 2)
        .map(|&n| solution.load(n))
        .sum();
    assert_eq!(total, 30);
    assert_eq!(Sdvrp::calc_objective(&instance, &solution), 45);
    assert_eq!(Sdvrp::calc_fleet_lower_bound(&instance), 1);
}

#[test]
fn reinsert_delivers_all_or_nothing() {
    let instance = Instance {
        num_customers: 4,
        capacity: 10,
        demands: vec![0, 8, 5, 2],
        distance_matrix: vec![vec![0, 1, 2, 3], vec![1, 0, 1, 2], vec![2, 1, 0, 1], vec![3, 2, 1, 0]],
    };
    let delivered_to = |solution: &AlkaidSolution, c: i16| -> i32 {
        solution
            .node_indices()
            .iter()
            .filter(|&&n| solution.customer(n) == c)
            .map(|&n| solution.load(n))
            .sum()
    };
    let mut solution = AlkaidSolution::new();
    solution.insert(1, 8, 0, 0);
    let mut context = RouteContext::new();
    context.calc_route_context(&solution);
    let mut random = Random::new(7);
    Sdvrp::reinsert_customers(&instance, &[2, 3], 0, &mut solution, &mut context, &mut random);
    assert_eq!(delivered_to(&solution, 1), 8);
    assert_eq!(delivered_to(&solution, 2), 0);
    assert_eq!(delivered_to(&solution, 3), 2);
    assert_eq!(context.load(0), 10);
}
