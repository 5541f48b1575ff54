use alkaidsd::instance::Instance;
use alkaidsd::random::Random;
use alkaidsd::route_context::RouteContext;
use alkaidsd::solution::AlkaidSolution;
use alkaidsd::split_reinsertion::split_reinsertion;

#[test]
fn test_split_reinsertion_single_route() {
    let instance = Instance {
        num_customers: 3,
        capacity: 100,
        demands: vec![0, 50, 30],
        distance_matrix: vec![
            vec![0, 10, 20],
            vec![10, 0, 15],
            vec![20, 15, 0],
        ],
    };

    let mut solution = AlkaidSolution::new();
    let _node1 = solution.insert(1, 50, 0, 0);

    let mut context = RouteContext::new();
    context.calc_route_context(&solution);

    let mut random = Random::new(42);

    split_reinsertion(&instance, 2, 30, 0, &mut solution, &mut context, &mut random);

    assert_eq!(solution.node_indices().len(), 2);
}

#[test]
fn test_split_reinsertion_split_delivery() {
    let instance = Instance {
        num_customers: 3,
        capacity: 50,
        demands: vec![0, 30, 60],
        distance_matrix: vec![
            vec![0, 10, 20],
            vec![10, 0, 15],
            vec![20, 15, 0],
        ],
    };

    let mut solution = AlkaidSolution::new();

    let _node1 = solution.insert(1, 30, 0, 0);
    let _node2 = solution.insert(1, 20, 0, 0);

    let mut context = RouteContext::new();
    context.calc_route_context(&solution);

    let mut random = Random::new(42);

    split_reinsertion(&instance, 2, 40, 0, &mut solution, &mut context, &mut random);

    assert!(solution.node_indices().len() >= 2);
}

#[test]
fn split_delivery_fills_both_routes() {
    let instance = Instance {
        num_customers: 3,
        capacity: 50,
        demands: vec![0, 30, 60],
        distance_matrix: vec![vec![0, 10, 20], vec![10, 0, 15], vec![20, 15, 0]],
    };
    let mut solution = AlkaidSolution::new();
    solution.insert(1, 30, 0, 0);
    solution.insert(1, 20, 0, 0);
    let mut context = RouteContext::new();
    context.calc_route_context(&solution);
    let mut random = Random::new(42);
    split_reinsertion(&instance, 2, 40, 0, &mut solution, &mut context, &mut random);
    let loads: Vec<i32> = solution
        .node_indices()
        .iter()
        .filter(|&&n| solution.customer(n) == 2)
        .map(|&n| solution.load(n))
        .collect();
    assert_eq!(loads.iter().sum::<i32>(), 40);
    assert_eq!(loads.len(), 2);
    assert_eq!(context.load(0) + context.load(1), 90);
    assert!(context.load(0) <= 50 && context.load(1) <= 50);
}

#[test]
fn not_enough_room_changes_nothing() {
    let instance = Instance {
        num_customers: 3,
        capacity: 50,
        demands: vec![0, 30, 60],
        distance_matrix: vec![vec![0, 10, 20], vec![10, 0, 15], vec![20, 15, 0]],
    };
    let mut solution = AlkaidSolution::new();
    solution.insert(1, 30, 0, 0);
    let mut context = RouteContext::new();
    context.calc_route_context(&solution);
    let mut random = Random::new(42);
    split_reinsertion(&instance, 2, 40, 0, &mut solution, &mut context, &mut random);
    assert_eq!(solution.node_indices().len(), 1);
    assert_eq!(context.load(0), 30);
}
