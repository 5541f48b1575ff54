use alkaidsd::instance::{Instance, Node};
use alkaidsd::random::Random;
use alkaidsd::sorter::{SortByClose, SortByDemand, SortByFar, SortByRandom, SortOperator};

fn test_instance() -> Instance {
    Instance {
        num_customers: 4,
        capacity: 100,
        demands: vec![0, 30, 50, 20],
        distance_matrix: vec![
            vec![0, 10, 20, 30],
            vec![10, 0, 15, 25],
            vec![20, 15, 0, 10],
            vec![30, 25, 10, 0],
        ],
    }
}

#[test]
fn test_sort_by_demand() {
    let instance = test_instance();
    let mut customers = vec![1, 2, 3];
    let mut rng = Random::new(42);

    SortByDemand.sort(&instance, &mut customers, &mut rng);
    assert_eq!(customers, vec![2, 1, 3]);
}

#[test]
fn test_sort_by_far() {
    let instance = test_instance();
    let mut customers = vec![1, 2, 3];
    let mut rng = Random::new(42);

    SortByFar.sort(&instance, &mut customers, &mut rng);
    assert_eq!(customers, vec![3, 2, 1]);
}

#[test]
fn test_sort_by_close() {
    let instance = test_instance();
    let mut customers = vec![1, 2, 3];
    let mut rng = Random::new(42);

    SortByClose.sort(&instance, &mut customers, &mut rng);
    assert_eq!(customers, vec![1, 2, 3]);
}

#[test]
fn sort_is_stable_on_equal_keys() {
    let instance = Instance {
        num_customers: 4,
        capacity: 100,
        demands: vec![0, 30, 30, 40],
        distance_matrix: vec![vec![0; 4]; 4],
    };
    let mut customers: Vec<Node> = vec![2, 1, 3, 2];
    let mut rng = Random::new(1);
    SortByDemand.sort(&instance, &mut customers, &mut rng);
    assert_eq!(customers, vec![3, 2, 1, 2]);
}

#[test]
fn random_sort_keeps_the_customers() {
    let instance = test_instance();
    let mut customers: Vec<Node> = vec![1, 2, 3, 1];
    let mut rng = Random::new(9);
    SortByRandom.sort(&instance, &mut customers, &mut rng);
    customers.sort();
    assert_eq!(customers, vec![1, 1, 2, 3]);
}

#[test]
fn sort_by_demand_keeps_ties_in_order() {
    let instance = Instance {
        num_customers: 5,
        capacity: 100,
        demands: vec![0, 5, 3, 5, 3],
        distance_matrix: vec![vec![0; 5]; 5],
    };
    let mut customers = vec![4, 2, 1, 3];
    let mut rng = Random::new(42);
    SortByDemand.sort(&instance, &mut customers, &mut rng);
    assert_eq!(customers, vec![1, 3, 4, 2]);
    let mut customers = vec![3, 2, 1, 4];
    SortByClose.sort(&instance, &mut customers, &mut rng);
    assert_eq!(customers, vec![3, 2, 1, 4]);
}
