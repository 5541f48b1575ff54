use alkaidsd::instance::{Instance, Node};
use alkaidsd::inter_operator::cross::Cross;
use alkaidsd::inter_operator::sd_swap_one_one::SdSwapOneOne;
use alkaidsd::inter_operator::sd_swap_star::SdSwapStar;
use alkaidsd::inter_operator::sd_swap_two_one::SdSwapTwoOne;
use alkaidsd::inter_operator::swap::Swap;
use alkaidsd::inter_operator::swap_star::SwapStar;
use alkaidsd::inter_operator::{calc_delta, CacheMap, InterOperator};
use alkaidsd::intra_operator::{Exchange, IntraOperator, OrOpt};
use alkaidsd::solver::AlkaidSolver;
use alkaidsd::random::Random;
use alkaidsd::route_context::RouteContext;
use alkaidsd::solution::AlkaidSolution;

/// Customers on a line: node `i` at position `i`.
fn line_instance(n: usize, capacity: i32, demands: Vec<i32>) -> Instance {
    let mut distance_matrix = vec![vec![0; n]; n];
    for i in 0..n {
        for j in 0..n {
            distance_matrix[i][j] = (i as i32 - j as i32).abs();
        }
    }
    Instance { num_customers: n as Node, capacity, demands, distance_matrix }
}

/// Builds one route per list of (customer, load).
fn build(routes: &[Vec<(Node, i32)>]) -> (AlkaidSolution, RouteContext) {
    let mut solution = AlkaidSolution::new();
    for route in routes {
        let mut last: Node = 0;
        for &(customer, load) in route {
            last = solution.insert(customer, load, last, 0);
        }
    }
    let mut context = RouteContext::new();
    context.calc_route_context(&solution);
    (solution, context)
}

/// Total load delivered to each customer.
fn delivered(solution: &AlkaidSolution, n: usize) -> Vec<i32> {
    let mut totals = vec![0; n];
    for &node in solution.node_indices() {
        totals[solution.customer(node) as usize] += solution.load(node);
    }
    totals
}

fn crossed() -> (Instance, AlkaidSolution, RouteContext) {
    let instance = line_instance(7, 10, vec![0, 1, 1, 0, 0, 1, 1]);
    let (solution, context) = build(&[vec![(1, 1), (6, 1)], vec![(5, 1), (2, 1)]]);
    (instance, solution, context)
}

#[test]
fn swap_one_one_finds_the_best_exchange() {
    let (instance, mut solution, mut context) = crossed();
    assert_eq!(solution.calc_objective(&instance), 22);
    let mut random = Random::new(42);
    let mut cache_map = CacheMap::new();
    let routes = Swap::<1, 1>.apply(&instance, &mut solution, &mut context, &mut random, &mut cache_map);
    assert_eq!(routes.len(), 2);
    assert_eq!(solution.calc_objective(&instance), 16);
    assert_eq!(delivered(&solution, 7), vec![0, 1, 1, 0, 0, 1, 1]);
}

#[test]
fn swap_finds_nothing_on_an_optimal_pair() {
    let instance = line_instance(7, 10, vec![0, 1, 1, 0, 0, 1, 1]);
    let (mut solution, mut context) = build(&[vec![(1, 1), (2, 1)], vec![(5, 1), (6, 1)]]);
    let before = solution.calc_objective(&instance);
    let mut random = Random::new(42);
    let mut cache_map = CacheMap::new();
    let routes = Swap::<1, 1>.apply(&instance, &mut solution, &mut context, &mut random, &mut cache_map);
    assert!(routes.is_empty());
    assert_eq!(solution.calc_objective(&instance), before);
}

#[test]
fn cross_exchanges_tails() {
    let (instance, mut solution, mut context) = crossed();
    let mut random = Random::new(42);
    let mut cache_map = CacheMap::new();
    let routes = Cross.apply(&instance, &mut solution, &mut context, &mut random, &mut cache_map);
    assert_eq!(routes.len(), 2);
    // The best tail exchange leaves one route empty: 1, 2, 5, 6.
    assert_eq!(solution.calc_objective(&instance), 12);
    assert_eq!(delivered(&solution, 7), vec![0, 1, 1, 0, 0, 1, 1]);
}

#[test]
fn swap_star_improves_crossed_routes() {
    let (instance, mut solution, mut context) = crossed();
    let mut random = Random::new(42);
    let mut cache_map = CacheMap::new();
    let routes = SwapStar.apply(&instance, &mut solution, &mut context, &mut random, &mut cache_map);
    assert_eq!(routes.len(), 2);
    assert_eq!(solution.calc_objective(&instance), 16);
    assert_eq!(delivered(&solution, 7), vec![0, 1, 1, 0, 0, 1, 1]);
}

#[test]
fn split_operators_keep_deliveries() {
    let instance = line_instance(7, 10, vec![0, 3, 1, 2, 2, 1, 3]);
    let starts = [vec![(1, 3), (6, 3)], vec![(5, 1), (2, 1), (3, 2), (4, 2)]];
    let ops: Vec<Box<dyn InterOperator>> = vec![Box::new(SdSwapOneOne), Box::new(SdSwapStar), Box::new(SdSwapTwoOne)];
    for op in &ops {
        let (mut solution, mut context) = build(&starts);
        let before = solution.calc_objective(&instance);
        let mut random = Random::new(42);
        let mut cache_map = CacheMap::new();
        let routes = op.apply(&instance, &mut solution, &mut context, &mut random, &mut cache_map);
        let after = solution.calc_objective(&instance);
        if routes.is_empty() {
            assert_eq!(after, before);
        } else {
            assert_eq!(routes.len(), 2);
            assert!(after < before);
        }
        assert_eq!(delivered(&solution, 7), vec![0, 3, 1, 2, 2, 1, 3]);
    }
}

#[test]
fn sd_swap_one_one_splits_the_larger_load() {
    // Route 0 serves customer 6 (load 3) far out, route 1 serves customer
    // 1 (load 1) near the depot and customer 5 (load 2).
    let instance = line_instance(7, 10, vec![0, 1, 0, 0, 0, 2, 3]);
    let (mut solution, mut context) = build(&[vec![(1, 1), (6, 3)], vec![(5, 2)]]);
    let before = solution.calc_objective(&instance);
    let mut random = Random::new(42);
    let mut cache_map = CacheMap::new();
    let routes = SdSwapOneOne.apply(&instance, &mut solution, &mut context, &mut random, &mut cache_map);
    let after = solution.calc_objective(&instance);
    assert!(routes.is_empty() || after < before);
    assert_eq!(delivered(&solution, 7), vec![0, 1, 0, 0, 0, 2, 3]);
}

#[test]
fn calc_delta_of_a_detour() {
    let instance = line_instance(7, 10, vec![0, 1, 1, 0, 0, 1, 1]);
    let (solution, _context) = build(&[vec![(1, 1), (3, 1), (6, 1)]]);
    let nodes = solution.node_indices().to_vec();
    // Putting the slot of customer 6 between those of 1 and 3 costs
    // 5 + 3 - 2.
    assert_eq!(calc_delta(&instance, &solution, nodes[2], nodes[0], nodes[1]), 6);
    // Between the depot and customer 1: 6 + 5 - 1.
    assert_eq!(calc_delta(&instance, &solution, nodes[2], 0, nodes[0]), 10);
}

#[test]
fn cache_map_reuses_evaluations() {
    let (instance, mut solution, mut context) = crossed();
    let mut random = Random::new(7);
    let mut cache_map = CacheMap::new();
    let first = Swap::<2, 0>.apply(&instance, &mut solution, &mut context, &mut random, &mut cache_map);
    let after_first = solution.calc_objective(&instance);
    assert!(first.is_empty() || after_first < 22);
    let second = Swap::<2, 1>.apply(&instance, &mut solution, &mut context, &mut random, &mut cache_map);
    assert!(second.is_empty() || solution.calc_objective(&instance) < after_first);
    assert_eq!(delivered(&solution, 7), vec![0, 1, 1, 0, 0, 1, 1]);
}

#[test]
fn descent_across_routes_untangles_crossed_routes() {
    let (instance, mut solution, mut context) = crossed();
    let inter: Vec<Box<dyn InterOperator>> = vec![Box::new(Swap::<2, 1>), Box::new(SwapStar), Box::new(Cross)];
    let intra: Vec<Box<dyn IntraOperator>> = vec![Box::new(Exchange), Box::new(OrOpt::<1>)];
    let mut random = Random::new(42);
    let mut cache_map = CacheMap::new();
    AlkaidSolver::randomized_variable_neighborhood_descent(
        &instance,
        &inter,
        &intra,
        &mut solution,
        &mut context,
        &mut random,
        &mut cache_map,
    );
    // One route 1, 2, 5, 6 is optimal here.
    assert_eq!(solution.calc_objective(&instance), 12);
    assert_eq!(delivered(&solution, 7), vec![0, 1, 1, 0, 0, 1, 1]);
    assert!(context.num_routes() <= 2);
}

#[test]
fn search_within_a_route_reorders_it() {
    let instance = line_instance(7, 10, vec![0, 1, 1, 1, 1, 1, 1]);
    let (mut solution, mut context) = build(&[vec![(4, 1), (1, 1), (3, 1), (2, 1)]]);
    assert_eq!(solution.calc_objective(&instance), 12);
    let intra: Vec<Box<dyn IntraOperator>> = vec![Box::new(Exchange), Box::new(OrOpt::<1>)];
    let mut random = Random::new(1);
    AlkaidSolver::intra_route_search(&instance, &intra, 0, &mut solution, &mut context, &mut random);
    assert_eq!(solution.calc_objective(&instance), 8);
}

#[test]
fn search_within_a_route_merges_repeated_visits() {
    let instance = line_instance(7, 10, vec![0, 2, 1, 0, 0, 0, 0]);
    let (mut solution, mut context) = build(&[vec![(1, 1), (2, 1), (1, 1)]]);
    let intra: Vec<Box<dyn IntraOperator>> = vec![Box::new(Exchange)];
    let mut random = Random::new(3);
    AlkaidSolver::intra_route_search(&instance, &intra, 0, &mut solution, &mut context, &mut random);
    assert_eq!(solution.node_indices().len(), 2);
    assert_eq!(delivered(&solution, 7), vec![0, 2, 1, 0, 0, 0, 0]);
    assert_eq!(solution.calc_objective(&instance), 4);
}

#[test]
fn shift_finds_a_misplaced_customer() {
    let (instance, mut solution, mut context) = {
        let instance = line_instance(7, 10, vec![0, 1, 0, 0, 0, 1, 1]);
        let (solution, context) = build(&[vec![(1, 1), (6, 1)], vec![(5, 1)]]);
        (instance, solution, context)
    };
    assert_eq!(solution.calc_objective(&instance), 22);
    let mut random = Random::new(42);
    let mut cache_map = CacheMap::new();
    let routes = Swap::<1, 0>.apply(&instance, &mut solution, &mut context, &mut random, &mut cache_map);
    assert_eq!(routes.len(), 2);
    assert_eq!(solution.calc_objective(&instance), 12);
    assert_eq!(delivered(&solution, 7), vec![0, 1, 0, 0, 0, 1, 1]);
}

#[test]
fn shift_respects_capacity() {
    let instance = line_instance(7, 2, vec![0, 1, 0, 0, 1, 1, 1]);
    let (mut solution, mut context) = build(&[vec![(1, 1), (6, 1)], vec![(5, 1), (4, 1)]]);
    let before = solution.calc_objective(&instance);
    let mut random = Random::new(42);
    let mut cache_map = CacheMap::new();
    let routes = Swap::<1, 0>.apply(&instance, &mut solution, &mut context, &mut random, &mut cache_map);
    assert!(routes.is_empty());
    assert_eq!(solution.calc_objective(&instance), before);
}

#[test]
fn swap_star_finds_nothing_on_an_optimal_pair() {
    let instance = line_instance(7, 10, vec![0, 1, 1, 0, 0, 1, 1]);
    let (mut solution, mut context) = build(&[vec![(1, 1), (2, 1)], vec![(5, 1), (6, 1)]]);
    let before = solution.calc_objective(&instance);
    let mut random = Random::new(42);
    let mut cache_map = CacheMap::new();
    let routes = SwapStar.apply(&instance, &mut solution, &mut context, &mut random, &mut cache_map);
    assert!(routes.is_empty());
    assert_eq!(solution.calc_objective(&instance), before);
}

#[test]
fn sd_swap_one_one_finds_nothing_when_no_split_helps() {
    let instance = line_instance(7, 10, vec![0, 2, 0, 0, 0, 0, 1]);
    let (mut solution, mut context) = build(&[vec![(1, 2)], vec![(6, 1)]]);
    let before = solution.calc_objective(&instance);
    let mut random = Random::new(42);
    let mut cache_map = CacheMap::new();
    let routes = SdSwapOneOne.apply(&instance, &mut solution, &mut context, &mut random, &mut cache_map);
    assert!(routes.is_empty());
    assert_eq!(solution.calc_objective(&instance), before);
    assert_eq!(delivered(&solution, 7), vec![0, 2, 0, 0, 0, 0, 1]);
}

#[test]
fn sd_swap_two_one_finds_nothing_on_separate_routes() {
    let instance = line_instance(7, 10, vec![0, 1, 2, 0, 0, 0, 2]);
    let (mut solution, mut context) = build(&[vec![(1, 1), (2, 2)], vec![(6, 2)]]);
    let before = solution.calc_objective(&instance);
    let mut random = Random::new(42);
    let mut cache_map = CacheMap::new();
    let routes = SdSwapTwoOne.apply(&instance, &mut solution, &mut context, &mut random, &mut cache_map);
    assert!(routes.is_empty());
    assert_eq!(solution.calc_objective(&instance), before);
}
