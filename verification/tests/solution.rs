use alkaidsd::instance::{Instance, Node};
use alkaidsd::solution::AlkaidSolution;

#[test]
fn test_solution_insert_remove() {
    let mut solution = AlkaidSolution::new();

    let node1 = solution.insert(1, 50, 0, 0);
    assert_eq!(solution.predecessor(node1), 0);
    assert_eq!(solution.successor(node1), 0);
    assert_eq!(solution.customer(node1), 1);
    assert_eq!(solution.load(node1), 50);

    let node2 = solution.insert(2, 30, node1, 0);
    assert_eq!(solution.successor(node1), node2);
    assert_eq!(solution.predecessor(node2), node1);

    solution.remove(node1);
    assert_eq!(solution.predecessor(node2), 0);
}

#[test]
fn test_solution_calc_objective() {
    let instance = Instance {
        num_customers: 3,
        capacity: 100,
        demands: vec![0, 50, 30],
        distance_matrix: vec![vec![0, 10, 20], vec![10, 0, 15], vec![20, 15, 0]],
    };

    let mut solution = AlkaidSolution::new();
    let node1 = solution.insert(1, 50, 0, 0);
    let _node2 = solution.insert(2, 30, node1, 0);

    assert_eq!(solution.calc_objective(&instance), 45);
}

#[test]
fn test_route_node_iter() {
    let mut solution = AlkaidSolution::new();
    let n1 = solution.insert(1, 10, 0, 0);
    let n2 = solution.insert(2, 20, n1, 0);
    let n3 = solution.insert(3, 30, n2, 0);

    let nodes: Vec<Node> = solution.route_nodes(n1).collect_nodes();
    assert_eq!(nodes, vec![n1, n2, n3]);
}

#[test]
fn test_route_node_iter_empty() {
    let solution = AlkaidSolution::new();
    let nodes: Vec<Node> = solution.route_nodes(0).collect_nodes();
    assert!(nodes.is_empty());
}

#[test]
fn test_is_route_head() {
    let mut solution = AlkaidSolution::new();
    let n1 = solution.insert(1, 10, 0, 0);
    let n2 = solution.insert(2, 20, n1, 0);

    assert!(solution.is_route_head(n1));
    assert!(!solution.is_route_head(n2));
}

#[test]
fn test_insert_after() {
    let mut solution = AlkaidSolution::new();
    let n1 = solution.insert(1, 10, 0, 0);
    let n2 = solution.insert_after(2, 20, n1);

    assert_eq!(solution.successor(n1), n2);
    assert_eq!(solution.predecessor(n2), n1);
    assert_eq!(solution.successor(n2), 0);
}

#[test]
fn test_insert_before() {
    let mut solution = AlkaidSolution::new();
    let n1 = solution.insert(1, 10, 0, 0);
    let n2 = solution.insert_before(2, 20, n1);

    assert_eq!(solution.predecessor(n1), n2);
    assert_eq!(solution.successor(n2), n1);
    assert_eq!(solution.predecessor(n2), 0);
}

#[test]
fn test_route_len_and_load() {
    let mut solution = AlkaidSolution::new();
    let n1 = solution.insert(1, 10, 0, 0);
    let n2 = solution.insert(2, 20, n1, 0);
    solution.insert(3, 30, n2, 0);

    assert_eq!(solution.route_len(n1), 3);
    assert_eq!(solution.route_load(n1), 60);
}

#[test]
fn test_route_heads() {
    let mut solution = AlkaidSolution::new();

    let n1 = solution.insert(1, 10, 0, 0);
    solution.insert(2, 20, n1, 0);

    let n3 = solution.insert(3, 30, 0, 0);
    solution.insert(4, 40, n3, 0);

    let heads = solution.route_heads();
    assert_eq!(heads.len(), 2);
    assert!(heads.contains(&n1));
    assert!(heads.contains(&n3));
}

#[test]
fn test_removal_delta() {
    let instance = Instance {
        num_customers: 4,
        capacity: 100,
        demands: vec![0, 10, 20, 30],
        distance_matrix: vec![
            vec![0, 10, 20, 30],
            vec![10, 0, 15, 25],
            vec![20, 15, 0, 10],
            vec![30, 25, 10, 0],
        ],
    };

    let mut solution = AlkaidSolution::new();
    let n1 = solution.insert(1, 10, 0, 0);
    let n2 = solution.insert(2, 20, n1, 0);
    solution.insert(3, 30, n2, 0);

    assert_eq!(solution.removal_delta(&instance, n2), 0);
}

#[test]
fn test_insertion_delta() {
    let instance = Instance {
        num_customers: 3,
        capacity: 100,
        demands: vec![0, 10, 20],
        distance_matrix: vec![
            vec![0, 10, 20],
            vec![10, 0, 15],
            vec![20, 15, 0],
        ],
    };

    let mut solution = AlkaidSolution::new();
    let n1 = solution.insert(1, 10, 0, 0);

    assert_eq!(solution.insertion_delta(&instance, 2, n1, 0), 25);
}

#[test]
fn removed_slot_is_reused_first() {
    let mut solution = AlkaidSolution::new();
    let n1 = solution.insert(1, 10, 0, 0);
    let n2 = solution.insert(2, 20, n1, 0);
    solution.remove(n1);
    assert_eq!(solution.node_indices(), &[n2][..]);
    let n3 = solution.insert(3, 5, 0, n2);
    assert_eq!(n3, n1);
    assert_eq!(solution.customer(n3), 3);
    assert_eq!(solution.predecessor(n2), n3);
    assert_eq!(solution.node_indices(), &[n2, n3][..]);
}

#[test]
fn reversed_link_reverses_a_segment() {
    let mut solution = AlkaidSolution::new();
    let a = solution.insert(1, 1, 0, 0);
    let b = solution.insert(2, 1, a, 0);
    let c = solution.insert(3, 1, b, 0);
    // Reverse a..=c between the depot on both sides: c, b, a.
    solution.reversed_link(a, c, 0, 0);
    assert_eq!(solution.successor(c), b);
    assert_eq!(solution.successor(b), a);
    assert_eq!(solution.successor(a), 0);
    assert_eq!(solution.predecessor(c), 0);
    assert_eq!(solution.route_nodes(c).collect_nodes(), vec![c, b, a]);
}

#[test]
fn links_of_two_routes() {
    let mut solution = AlkaidSolution::new();
    let a = solution.insert(1, 1, 0, 0);
    let b = solution.insert(2, 1, 0, 0);
    solution.link(a, b);
    assert_eq!(solution.successor(a), b);
    assert_eq!(solution.predecessor(b), a);
    assert_eq!(solution.max_node_index(), 2);
    assert!(solution.is_used(a));
}

#[test]
fn solution_text_lists_routes() {
    let mut solution = AlkaidSolution::new();
    let a = solution.insert(1, 3, 0, 0);
    solution.insert(6, 2, a, 0);
    solution.insert(5, 4, 0, 0);
    assert_eq!(
        solution.to_text(),
        "Route 1: 0 - 1 ( 3 ) - 6 ( 2 ) - 0\nRoute 2: 0 - 5 ( 4 ) - 0\n"
    );
    assert_eq!(AlkaidSolution::new().to_text(), "");
}

#[test]
fn max_node_index_ignores_freed_slots() {
    let mut solution = AlkaidSolution::new();
    let n1 = solution.insert(1, 10, 0, 0);
    let n2 = solution.insert(2, 20, n1, 0);
    solution.remove(n2);
    assert_eq!(solution.max_node_index(), n1);
    assert_eq!(n1, 1);
}

#[test]
fn to_json_lists_routes_with_the_depot_at_both_ends() {
    let mut solution = AlkaidSolution::new();
    let a = solution.insert(1, 5, 0, 0);
    let _b = solution.insert(2, 7, a, 0);
    let _c = solution.insert(3, 4, 0, 0);
    assert_eq!(
        solution.to_json(),
        "[[{ \"customer\": 0, \"quantity\": 0 }, { \"customer\": 1, \"quantity\": 5 }, { \"customer\": 2, \"quantity\": 7 }, { \"customer\": 0, \"quantity\": 0 }],\n[{ \"customer\": 0, \"quantity\": 0 }, { \"customer\": 3, \"quantity\": 4 }, { \"customer\": 0, \"quantity\": 0 }]]"
    );
}
