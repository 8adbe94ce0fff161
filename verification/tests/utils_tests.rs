//! Tests for the utility functions.

use hgs_cvrp::local_search::utils::{
    calculate_insertion_cost, calculate_removal_cost, create_temp_route, find_route_for_customer,
    get_neighbors, RouteInfo,
};
use hgs_cvrp::local_search::swap_star::ANGLE_SCALE;
use hgs_cvrp::local_search::LocalSearch;
use hgs_cvrp::problem::{Node, Problem};
use hgs_cvrp::solution::{Route, Solution};
use hgs_cvrp::utils as general_utils;
use hgs_cvrp::PENALTY_UNIT;

/// A depot at the origin and five customers on a small grid.
fn create_test_problem() -> Problem {
    let mut nodes = Vec::new();
    nodes.push(Node::new(0, 0, 0, 0, true));
    nodes.push(Node::new(1, 10, 0, 10, false));
    nodes.push(Node::new(2, 0, 10, 10, false));
    nodes.push(Node::new(3, 10, 10, 10, false));
    nodes.push(Node::new(4, 20, 0, 15, false));
    nodes.push(Node::new(5, 20, 10, 20, false));
    Problem::new("TestProblem".to_string(), nodes, 0, 50, None)
}

#[test]
fn test_get_neighbors() {
    let problem = create_test_problem();
    let neighbors_g1 = get_neighbors(1, &problem, 1);
    assert_eq!(neighbors_g1.len(), 1);
    let neighbors_g3 = get_neighbors(1, &problem, 3);
    assert_eq!(neighbors_g3.len(), 3);
    let neighbors_g10 = get_neighbors(1, &problem, 10);
    assert_eq!(neighbors_g10.len(), 4);
    for &neighbor in &neighbors_g10 {
        assert_ne!(neighbor, 0);
        assert_ne!(neighbor, 1);
    }
}

#[test]
fn test_find_route_for_customer() {
    let mut solution = Solution::new();
    let mut route1 = Route::new();
    route1.customers = vec![1, 2];
    let mut route2 = Route::new();
    route2.customers = vec![3, 4, 5];
    solution.routes = vec![route1, route2];

    assert_eq!(find_route_for_customer(&solution, 1), Some(0));
    assert_eq!(find_route_for_customer(&solution, 3), Some(1));
    assert_eq!(find_route_for_customer(&solution, 6), None);
    assert_eq!(find_route_for_customer(&solution, 0), None);
}

#[test]
fn test_calculate_insertion_cost() {
    let problem = create_test_problem();
    let mut route = Route::new();
    route.customers = vec![1, 2];
    route.calculate_load(&problem);
    route.calculate_distance(&problem);

    let cost_at_0 = calculate_insertion_cost(&route, 3, 0, &problem);
    let cost_at_1 = calculate_insertion_cost(&route, 3, 1, &problem);
    let cost_at_2 = calculate_insertion_cost(&route, 3, 2, &problem);

    let mut route0 = route.clone();
    route0.customers.insert(0, 3);
    route0.modified = true;
    route0.calculate_distance(&problem);
    let mut route1 = route.clone();
    route1.customers.insert(1, 3);
    route1.modified = true;
    route1.calculate_distance(&problem);
    let mut route2 = route.clone();
    route2.customers.insert(2, 3);
    route2.modified = true;
    route2.calculate_distance(&problem);

    assert_eq!(cost_at_0, route0.distance);
    assert_eq!(cost_at_1, route1.distance);
    assert_eq!(cost_at_2, route2.distance);
}

#[test]
fn test_calculate_removal_cost() {
    let problem = create_test_problem();
    let mut route = Route::new();
    route.customers = vec![1, 2, 3];
    route.calculate_load(&problem);
    route.calculate_distance(&problem);
    let original_distance = route.distance as i128;

    let delta0 = calculate_removal_cost(&route, 0, &problem);
    let delta1 = calculate_removal_cost(&route, 1, &problem);
    let delta2 = calculate_removal_cost(&route, 2, &problem);

    let mut route0 = route.clone();
    route0.customers.remove(0);
    route0.modified = true;
    route0.calculate_distance(&problem);
    let mut route1 = route.clone();
    route1.customers.remove(1);
    route1.modified = true;
    route1.calculate_distance(&problem);
    let mut route2 = route.clone();
    route2.customers.remove(2);
    route2.modified = true;
    route2.calculate_distance(&problem);

    assert_eq!(route0.distance as i128, original_distance + delta0);
    assert_eq!(route1.distance as i128, original_distance + delta1);
    assert_eq!(route2.distance as i128, original_distance + delta2);
}

#[test]
fn test_create_temp_route() {
    let problem = create_test_problem();
    let mut route = Route::new();
    route.customers = vec![1, 2, 3];
    route.calculate_load(&problem);
    route.calculate_distance(&problem);

    // Remove position one, insert customer four at the front.
    let temp_route = create_temp_route(&route, 1, 4, 0, &problem);
    assert_eq!(temp_route.customers, vec![4, 1, 3]);

    // Remove position zero, insert customer five at the end.
    let temp_route2 = create_temp_route(&route, 0, 5, 2, &problem);
    assert_eq!(temp_route2.customers, vec![2, 3, 5]);
}

#[test]
fn test_general_utils_format_duration() {
    assert_eq!(general_utils::format_duration(65), "0h 01m 05s");
    assert_eq!(general_utils::format_duration(3600 + 120 + 5), "1h 02m 05s");
    assert_eq!(
        general_utils::format_duration(7200 + 3600 + 900 + 30),
        "3h 15m 30s"
    );
}

#[test]
fn test_route_info() {
    // Sectors in integer angle units: one quarter turn is ANGLE_SCALE.
    let local_search = LocalSearch::new(3);
    let route_info1 = RouteInfo { route_index: 0, polar_min: 0, polar_max: ANGLE_SCALE };
    let route_info2 = RouteInfo {
        route_index: 1,
        polar_min: ANGLE_SCALE / 2,
        polar_max: ANGLE_SCALE + ANGLE_SCALE / 2,
    };
    let route_info3 = RouteInfo { route_index: 2, polar_min: ANGLE_SCALE + ANGLE_SCALE / 4, polar_max: 3 * ANGLE_SCALE };

    assert!(!local_search.sectors_intersect(&route_info1, &route_info3));
    assert!(local_search.sectors_intersect(&route_info1, &route_info2));
    assert!(local_search.sectors_intersect(&route_info2, &route_info3));
}

#[test]
fn test_calculate_excess_load() {
    let problem = create_test_problem();
    let mut solution = Solution::new();
    let mut route1 = Route::new();
    route1.customers = vec![1, 2];
    route1.calculate_load(&problem);
    route1.calculate_distance(&problem);
    let mut route2 = Route::new();
    route2.customers = vec![3, 4, 5];
    route2.calculate_load(&problem);
    route2.calculate_distance(&problem);
    solution.routes = vec![route1, route2];
    assert_eq!(general_utils::calculate_excess_load(&solution, &problem), 0);

    let mut overloaded_solution = solution.clone();
    overloaded_solution.routes[1].customers.push(1);
    overloaded_solution.routes[1].modified = true;
    overloaded_solution.routes[1].calculate_load(&problem);
    overloaded_solution.routes[1].calculate_distance(&problem);
    assert_eq!(
        general_utils::calculate_excess_load(&overloaded_solution, &problem),
        5
    );
}

#[test]
fn test_evaluate_cost_formula() {
    // Cost is exactly the distance on the thousandth scale plus the
    // penalty per unit of excess load.
    let problem = create_test_problem();
    let mut solution = Solution::new();
    let mut route = Route::new();
    route.customers = vec![1, 2, 3, 4, 5];
    solution.routes = vec![route];
    solution.evaluate(&problem, 7 * PENALTY_UNIT);
    assert_eq!(
        solution.cost,
        (PENALTY_UNIT as u128) * (solution.distance as u128)
            + (7 * PENALTY_UNIT as u128) * (solution.excess_capacity as u128)
    );
    assert_eq!(solution.is_feasible, solution.excess_capacity == 0);
}

#[test]
fn test_shuffle_keeps_values() {
    // The verified shuffle rearranges and never invents values; the random
    // draw below feeds it, so a draw handed back unchanged would show up
    // as out-of-range indices here.
    let mut values: Vec<usize> = (0..50).collect();
    hgs_cvrp::rng::shuffle(&mut values);
    assert_eq!(values.len(), 50);
    let mut sorted = values.clone();
    sorted.sort();
    let expected: Vec<usize> = (0..50).collect();
    assert_eq!(sorted, expected);
}
