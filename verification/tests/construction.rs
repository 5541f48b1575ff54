use alkaidsd::construction::construct;
use alkaidsd::instance::Instance;
use alkaidsd::random::Random;

fn instance5() -> Instance {
    Instance {
        num_customers: 5,
        capacity: 100,
        demands: vec![0, 50, 60, 40, 30],
        distance_matrix: vec![
            vec![0, 10, 20, 30, 40],
            vec![10, 0, 15, 25, 35],
            vec![20, 15, 0, 10, 20],
            vec![30, 25, 10, 0, 10],
            vec![40, 35, 20, 10, 0],
        ],
    }
}

#[test]
fn test_construct() {
    let instance = instance5();

    let mut random = Random::new(42);
    let solution = construct(&instance, &mut random);

    assert!(!solution.node_indices().is_empty());
    let obj = solution.calc_objective(&instance);
    assert!(obj > 0);
}

#[test]
fn construct_serves_every_demand_exactly() {
    let instance = Instance {
        num_customers: 4,
        capacity: 50,
        demands: vec![0, 120, 30, 50],
        distance_matrix: vec![
            vec![0, 10, 20, 30],
            vec![10, 0, 15, 25],
            vec![20, 15, 0, 10],
            vec![30, 25, 10, 0],
        ],
    };
    for seed in 0..20 {
        let mut random = Random::new(seed);
        let solution = construct(&instance, &mut random);
        let mut pieces: Vec<(i16, i32)> = solution
            .node_indices()
            .iter()
            .map(|&n| (solution.customer(n), solution.load(n)))
            .collect();
        pieces.sort();
        assert_eq!(pieces, vec![(1, 20), (1, 50), (1, 50), (2, 30), (3, 50)]);
        for &head in solution.route_heads().iter() {
            assert!(solution.route_load(head) <= 50);
        }
    }
}

#[test]
fn construct_keeps_every_slot_within_one_vehicle_load() {
    let instance = instance5();
    for seed in 0..10 {
        let mut random = Random::new(seed);
        let solution = construct(&instance, &mut random);
        for &n in solution.node_indices() {
            let load = solution.load(n);
            assert!(load > 0 && load <= instance.capacity);
        }
    }
}

#[test]
fn construct_opens_enough_routes_for_the_total_demand() {
    let instance = instance5();
    for seed in 0..10 {
        let mut random = Random::new(seed);
        let solution = construct(&instance, &mut random);
        // 180 units of demand against vehicles of 100.
        assert!(solution.route_heads().len() >= 2);
        for head in solution.route_heads() {
            assert!(solution.route_load(head) <= instance.capacity);
        }
    }
}
