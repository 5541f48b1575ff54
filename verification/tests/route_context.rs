use alkaidsd::route_context::RouteContext;
use alkaidsd::solution::AlkaidSolution;

#[test]
fn test_route_context_basic() {
    let mut solution = AlkaidSolution::new();
    let node1 = solution.insert(1, 50, 0, 0);
    let _node2 = solution.insert(2, 30, node1, 0);

    let mut context = RouteContext::new();
    context.calc_route_context(&solution);

    assert_eq!(context.num_routes(), 1);
    assert_eq!(context.load(0), 80);
}

#[test]
fn test_route_context_multiple_routes() {
    let mut solution = AlkaidSolution::new();

    let node1 = solution.insert(1, 50, 0, 0);
    solution.insert(2, 30, node1, 0);

    let node3 = solution.insert(3, 40, 0, 0);
    solution.insert(4, 20, node3, 0);

    let mut context = RouteContext::new();
    context.calc_route_context(&solution);

    assert_eq!(context.num_routes(), 2);
}

#[test]
fn route_context_prefix_loads_head_and_tail() {
    let mut solution = AlkaidSolution::new();
    let a = solution.insert(1, 5, 0, 0);
    let b = solution.insert(2, 7, a, 0);
    let c = solution.insert(3, 11, b, 0);
    let mut context = RouteContext::new();
    context.calc_route_context(&solution);
    assert_eq!(context.head(0), a);
    assert_eq!(context.tail(0), c);
    assert_eq!(context.pre_load(a), 0);
    assert_eq!(context.pre_load(b), 5);
    assert_eq!(context.pre_load(c), 12);
    assert_eq!(context.load(0), 23);
}

#[test]
fn update_route_context_after_insertion() {
    let mut solution = AlkaidSolution::new();
    let a = solution.insert(1, 5, 0, 0);
    let b = solution.insert(2, 7, a, 0);
    let mut context = RouteContext::new();
    context.calc_route_context(&solution);
    let c = solution.insert(3, 4, a, b);
    context.update_route_context(&solution, 0, a);
    assert_eq!(context.pre_load(c), 5);
    assert_eq!(context.pre_load(b), 9);
    assert_eq!(context.load(0), 16);
    assert_eq!(context.tail(0), b);
}

#[test]
fn route_context_setters() {
    let mut context = RouteContext::new();
    context.add_route(1, 2, 10);
    context.add_route(3, 3, 4);
    context.add_load(0, 5);
    assert_eq!(context.load(0), 15);
    context.set_head(1, 7);
    assert_eq!(context.head(1), 7);
    context.move_route_context(0, 1);
    assert_eq!(context.head(0), 7);
    assert_eq!(context.load(0), 4);
    context.set_num_routes(1);
    assert_eq!(context.num_routes(), 1);
    context.set_num_routes(3);
    assert_eq!(context.num_routes(), 3);
    assert_eq!(context.head(2), 0);
}
