use alkaidsd::instance::Instance;
use alkaidsd::repair::{is_repairable, repair};
use alkaidsd::route_context::RouteContext;
use alkaidsd::solution::AlkaidSolution;

#[test]
fn test_repair_consolidates_duplicates() {
    let instance = Instance {
        num_customers: 3,
        capacity: 100,
        demands: vec![0, 50, 30],
        distance_matrix: vec![
            vec![0, 10, 20],
            vec![10, 0, 15],
            vec![20, 15, 0],
        ],
    };

    let mut solution = AlkaidSolution::new();

    let node1 = solution.insert(1, 25, 0, 0);
    let node2 = solution.insert(2, 30, node1, 0);
    let _node3 = solution.insert(1, 25, node2, 0);

    let mut context = RouteContext::new();
    context.calc_route_context(&solution);

    assert_eq!(solution.node_indices().len(), 3);

    repair(&instance, 0, &mut solution, &mut context);

    assert_eq!(solution.node_indices().len(), 2);
}

#[test]
fn repair_keeps_customer_loads() {
    let instance = Instance {
        num_customers: 3,
        capacity: 100,
        demands: vec![0, 50, 30],
        distance_matrix: vec![vec![0, 10, 20], vec![10, 0, 15], vec![20, 15, 0]],
    };
    let mut solution = AlkaidSolution::new();
    let a = solution.insert(1, 20, 0, 0);
    let b = solution.insert(1, 5, a, 0);
    let c = solution.insert(2, 30, b, 0);
    let _d = solution.insert(1, 25, c, 0);
    let mut context = RouteContext::new();
    context.calc_route_context(&solution);
    repair(&instance, 0, &mut solution, &mut context);
    let head = context.head(0);
    let nodes = solution.route_nodes(head).collect_nodes();
    assert_eq!(nodes.len(), 2);
    let mut load1 = 0;
    let mut load2 = 0;
    for n in nodes {
        if solution.customer(n) == 1 {
            load1 += solution.load(n);
        } else {
            load2 += solution.load(n);
        }
    }
    assert_eq!(load1, 50);
    assert_eq!(load2, 30);
    assert_eq!(context.load(0), 80);
}

#[test]
fn is_repairable_accepts_a_proper_route() {
    let mut solution = AlkaidSolution::new();
    let a = solution.insert(1, 20, 0, 0);
    let b = solution.insert(2, 30, a, 0);
    let _c = solution.insert(1, 25, b, 0);
    assert!(is_repairable(&solution, a));
}

#[test]
fn is_repairable_rejects_a_negative_load() {
    let mut solution = AlkaidSolution::new();
    let a = solution.insert(1, 20, 0, 0);
    let b = solution.insert(2, 30, a, 0);
    solution.set_load(b, -1);
    assert!(!is_repairable(&solution, a));
}

#[test]
fn is_repairable_rejects_a_broken_back_link() {
    let mut solution = AlkaidSolution::new();
    let a = solution.insert(1, 20, 0, 0);
    let b = solution.insert(2, 30, a, 0);
    let c = solution.insert(1, 25, b, 0);
    // The walk from `a` now goes straight to `c`, whose predecessor is `b`.
    solution.link(a, c);
    solution.link(b, c);
    assert!(!is_repairable(&solution, a));
}

#[test]
fn repair_refreshes_the_route_bookkeeping() {
    let instance = Instance {
        num_customers: 3,
        capacity: 100,
        demands: vec![0, 50, 30],
        distance_matrix: vec![vec![0, 10, 20], vec![10, 0, 15], vec![20, 15, 0]],
    };
    let mut solution = AlkaidSolution::new();
    let n1 = solution.insert(1, 25, 0, 0);
    let n2 = solution.insert(2, 30, n1, 0);
    let _n3 = solution.insert(1, 25, n2, 0);
    let mut context = RouteContext::new();
    context.calc_route_context(&solution);
    repair(&instance, 0, &mut solution, &mut context);
    assert_eq!(solution.node_indices().len(), 2);
    assert_eq!(context.load(0), 80);
    let nodes = solution.route_nodes(context.head(0)).collect_nodes();
    assert_eq!(context.tail(0), nodes[nodes.len() - 1]);
}
