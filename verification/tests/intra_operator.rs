use alkaidsd::instance::Instance;
use alkaidsd::intra_operator::{Exchange, IntraOperator, OrOpt};
use alkaidsd::random::Random;
use alkaidsd::route_context::RouteContext;
use alkaidsd::solution::AlkaidSolution;

fn setup() -> (Instance, AlkaidSolution, RouteContext) {
    let instance = Instance {
        num_customers: 5,
        capacity: 200,
        demands: vec![0, 20, 30, 25, 15],
        distance_matrix: vec![
            vec![0, 10, 20, 30, 40],
            vec![10, 0, 5, 25, 35],
            vec![20, 5, 0, 10, 20],
            vec![30, 25, 10, 0, 10],
            vec![40, 35, 20, 10, 0],
        ],
    };

    let mut solution = AlkaidSolution::new();
    let node1 = solution.insert(1, 20, 0, 0);
    let node2 = solution.insert(2, 30, node1, 0);
    let node3 = solution.insert(3, 25, node2, 0);
    solution.insert(4, 15, node3, 0);

    let mut context = RouteContext::new();
    context.calc_route_context(&solution);

    (instance, solution, context)
}

#[test]
fn test_exchange_operator() {
    let (instance, mut solution, mut context) = setup();
    let mut random = Random::new(42);

    let exchange = Exchange;
    let initial_cost = solution.calc_objective(&instance);

    for _ in 0..5 {
        exchange.apply(&instance, 0, &mut solution, &mut context, &mut random);
    }

    let final_cost = solution.calc_objective(&instance);
    assert!(final_cost <= initial_cost);
}

#[test]
fn test_or_opt_1() {
    let (instance, mut solution, mut context) = setup();
    let mut random = Random::new(42);

    let or_opt = OrOpt::<1>;
    let initial_cost = solution.calc_objective(&instance);

    for _ in 0..5 {
        or_opt.apply(&instance, 0, &mut solution, &mut context, &mut random);
    }

    let final_cost = solution.calc_objective(&instance);
    assert!(final_cost <= initial_cost);
}

fn line_instance() -> Instance {
    let n = 5;
    let mut distance_matrix = vec![vec![0; n]; n];
    for i in 0..n {
        for j in 0..n {
            distance_matrix[i][j] = (i as i32 - j as i32).abs();
        }
    }
    Instance { num_customers: 5, capacity: 100, demands: vec![0, 1, 1, 1, 1], distance_matrix }
}

#[test]
fn exchange_improves_a_crossed_route() {
    let instance = line_instance();
    let mut solution = AlkaidSolution::new();
    let a = solution.insert(4, 1, 0, 0);
    let b = solution.insert(2, 1, a, 0);
    let c = solution.insert(3, 1, b, 0);
    solution.insert(1, 1, c, 0);
    let mut context = RouteContext::new();
    context.calc_route_context(&solution);
    assert_eq!(solution.calc_objective(&instance), 10);
    let mut random = Random::new(1);
    assert!(Exchange.apply(&instance, 0, &mut solution, &mut context, &mut random));
    assert_eq!(solution.calc_objective(&instance), 8);
    let head = context.head(0);
    let customers: Vec<i16> = solution.route_nodes(head).collect_nodes().iter().map(|&x| solution.customer(x)).collect();
    assert_eq!(customers, vec![1, 2, 3, 4]);
}

#[test]
fn or_opt_on_an_optimal_route_changes_nothing() {
    let instance = Instance {
        num_customers: 4,
        capacity: 100,
        demands: vec![0, 1, 1, 1],
        distance_matrix: vec![
            vec![0, 1, 2, 3],
            vec![1, 0, 1, 2],
            vec![2, 1, 0, 1],
            vec![3, 2, 1, 0],
        ],
    };
    let mut solution = AlkaidSolution::new();
    let a = solution.insert(1, 1, 0, 0);
    let b = solution.insert(2, 1, a, 0);
    solution.insert(3, 1, b, 0);
    let mut context = RouteContext::new();
    context.calc_route_context(&solution);
    let mut random = Random::new(1);
    assert!(!OrOpt::<2>.apply(&instance, 0, &mut solution, &mut context, &mut random));
    assert_eq!(solution.calc_objective(&instance), 6);
}
