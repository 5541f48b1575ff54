use alkaidsd::distance_matrix_optimizer::DistanceMatrixOptimizer;
use alkaidsd::solution::AlkaidSolution;

#[test]
fn test_floyd_warshall_basic() {
    let mut distance_matrix = vec![
        vec![0, 1, 10],
        vec![1, 0, 1],
        vec![10, 1, 0],
    ];

    let optimizer = DistanceMatrixOptimizer::new(&mut distance_matrix);

    assert_eq!(distance_matrix[0][2], 2);

    assert_eq!(optimizer.previous_node_index(0, 2), 1);
}

#[test]
fn test_restore() {
    let mut distance_matrix = vec![
        vec![0, 1, 10],
        vec![1, 0, 1],
        vec![10, 1, 0],
    ];

    let optimizer = DistanceMatrixOptimizer::new(&mut distance_matrix);

    let mut solution = AlkaidSolution::new();
    solution.insert(2, 10, 0, 0);

    assert_eq!(solution.node_indices().len(), 1);

    optimizer.restore(&mut solution);

    assert!(solution.node_indices().len() >= 1);
}

#[test]
fn restore_puts_back_the_intermediate_customer() {
    let mut distance_matrix = vec![vec![0, 1, 10], vec![1, 0, 1], vec![10, 1, 0]];
    let optimizer = DistanceMatrixOptimizer::new(&mut distance_matrix);
    let mut solution = AlkaidSolution::new();
    let n = solution.insert(2, 10, 0, 0);
    optimizer.restore(&mut solution);
    // 0 -> 2 and 2 -> 0 both pass by customer 1.
    let head = solution.route_heads()[0];
    let route = solution.route_nodes(head).collect_nodes();
    let customers: Vec<i16> = route.iter().map(|&x| solution.customer(x)).collect();
    assert_eq!(customers, vec![1, 2, 1]);
    assert_eq!(solution.load(n), 10);
    for &x in route.iter() {
        if x != n {
            assert_eq!(solution.load(x), 0);
        }
    }
}

#[test]
fn floyd_warshall_does_not_route_through_the_depot() {
    let mut distance_matrix = vec![vec![0, 1, 1], vec![1, 0, 5], vec![1, 5, 0]];
    let optimizer = DistanceMatrixOptimizer::new(&mut distance_matrix);
    assert_eq!(distance_matrix[1][2], 5);
    assert_eq!(optimizer.previous_node_index(1, 2), 0);
}
