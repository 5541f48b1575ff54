use alkaidsd::instance::Instance;
use alkaidsd::utils::calc_fleet_lower_bound;

#[test]
fn test_fleet_lower_bound() {
    let instance = Instance {
        num_customers: 3,
        capacity: 100,
        demands: vec![0, 150, 200],
        distance_matrix: vec![vec![0; 3]; 3],
    };

    assert_eq!(calc_fleet_lower_bound(&instance), 4);
}

#[test]
fn test_fleet_lower_bound_exact() {
    let instance = Instance {
        num_customers: 3,
        capacity: 100,
        demands: vec![0, 100, 100],
        distance_matrix: vec![vec![0; 3]; 3],
    };

    assert_eq!(calc_fleet_lower_bound(&instance), 2);
}

#[test]
fn fleet_lower_bound_of_no_demand_is_zero() {
    let instance = Instance {
        num_customers: 2,
        capacity: 10,
        demands: vec![0, 0],
        distance_matrix: vec![vec![0; 2]; 2],
    };
    assert_eq!(calc_fleet_lower_bound(&instance), 0);
}
