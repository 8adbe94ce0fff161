//! Tests for the Route and Solution structures.

use hgs_cvrp::problem::{Node, Problem};
use hgs_cvrp::solution::{Route, Solution};
use hgs_cvrp::PENALTY_UNIT;

/// A depot at the origin and five customers on a small grid.
fn create_test_problem() -> Problem {
    let mut nodes = Vec::new();
    nodes.push(Node::new(0, 0, 0, 0, true));
    nodes.push(Node::new(1, 10, 0, 10, false));
    nodes.push(Node::new(2, 0, 10, 10, false));
    nodes.push(Node::new(3, 10, 10, 10, false));
    nodes.push(Node::new(4, 20, 0, 15, false));
    nodes.push(Node::new(5, 20, 10, 20, false));
    Problem::new("TestProblem".to_string(), nodes, 0, 50, None)
}

#[test]
fn test_route_creation() {
    let route = Route::new();
    assert!(route.customers.is_empty());
    assert_eq!(route.load, 0);
    assert_eq!(route.distance, 0);
    assert!(route.modified);

    let route = Route::with_customer(1, 10, 10);
    assert_eq!(route.customers, vec![1]);
    assert_eq!(route.load, 10);
    assert_eq!(route.distance, 20);
    assert!(route.modified);
}

#[test]
fn test_route_calculate_distance() {
    let problem = create_test_problem();
    let mut route = Route::new();
    route.customers = vec![1, 3, 5];
    assert_eq!(route.distance, 0);
    assert!(route.modified);

    route.calculate_distance(&problem);
    assert!(!route.modified);

    // Depot -> 1 -> 3 -> 5 -> depot: 10 + 10 + 10 + floor(sqrt(500)).
    let expected_distance = 10 + 10 + 10 + 22;
    assert_eq!(route.distance, expected_distance as u64);

    let original_distance = route.distance;
    route.calculate_distance(&problem);
    assert_eq!(route.distance, original_distance);

    route.customers.push(4);
    route.modified = true;
    route.calculate_distance(&problem);
    assert!(route.distance != original_distance);
}

#[test]
fn test_route_calculate_load() {
    let problem = create_test_problem();
    let mut route = Route::new();
    route.customers = vec![1, 3, 5];
    route.calculate_load(&problem);
    assert_eq!(route.load, 40);

    route.customers.push(4);
    route.modified = true;
    route.calculate_load(&problem);
    assert_eq!(route.load, 55);
}

#[test]
fn test_route_exceeds_capacity() {
    let problem = create_test_problem();
    let mut route = Route::new();
    route.customers = vec![1, 2, 3];
    route.calculate_load(&problem);
    assert!(!route.exceeds_capacity(problem.vehicle_capacity));
    assert_eq!(route.get_excess_load(problem.vehicle_capacity), 0);

    route.customers.push(4);
    route.customers.push(5);
    route.modified = true;
    route.calculate_load(&problem);
    assert!(route.exceeds_capacity(problem.vehicle_capacity));
    assert_eq!(route.get_excess_load(problem.vehicle_capacity), 15);
}

#[test]
fn test_solution_creation() {
    let solution = Solution::new();
    assert!(solution.routes.is_empty());
    assert_eq!(solution.cost, 0);
    assert_eq!(solution.distance, 0);
    assert_eq!(solution.excess_capacity, 0);
    assert!(solution.is_feasible);
    assert!(solution.giant_tour.is_empty());

    let problem = create_test_problem();
    let giant_tour = vec![1, 2, 3, 4, 5];
    let solution = Solution::from_giant_tour(giant_tour.clone(), &problem);
    assert!(solution.routes.is_empty());
    assert_eq!(solution.giant_tour, giant_tour);
}

#[test]
fn test_solution_evaluate() {
    let problem = create_test_problem();
    let mut solution = Solution::new();
    let mut route1 = Route::new();
    route1.customers = vec![1, 2];
    let mut route2 = Route::new();
    route2.customers = vec![3, 4, 5];
    solution.routes = vec![route1, route2];
    assert_eq!(solution.distance, 0);
    assert_eq!(solution.cost, 0);

    solution.evaluate(&problem, PENALTY_UNIT);
    assert!(solution.distance > 0);
    assert!(solution.cost > 0);
    assert!(solution.is_feasible);

    let mut infeasible_solution = Solution::new();
    let mut overloaded_route = Route::new();
    overloaded_route.customers = vec![1, 2, 3, 4, 5];
    infeasible_solution.routes = vec![overloaded_route];
    // A penalty of ten units per unit of excess.
    infeasible_solution.evaluate(&problem, 10 * PENALTY_UNIT);
    assert!(!infeasible_solution.is_feasible);
    assert!(infeasible_solution.excess_capacity > 0);
    assert_eq!(infeasible_solution.excess_capacity, 15);
    let expected_cost = (PENALTY_UNIT as u128) * (infeasible_solution.distance as u128)
        + (10 * PENALTY_UNIT as u128) * (infeasible_solution.excess_capacity as u128);
    assert_eq!(infeasible_solution.cost, expected_cost);
}

#[test]
fn test_solution_update_giant_tour() {
    let mut solution = Solution::new();
    let mut route1 = Route::new();
    route1.customers = vec![1, 2];
    let mut route2 = Route::new();
    route2.customers = vec![3, 4, 5];
    solution.routes = vec![route1, route2];
    assert!(solution.giant_tour.is_empty());
    solution.update_giant_tour();
    assert_eq!(solution.giant_tour, vec![1, 2, 3, 4, 5]);
}

#[test]
fn test_solution_get_feasible_cost() {
    let problem = create_test_problem();
    let mut feasible_solution = Solution::new();
    let mut route = Route::new();
    route.customers = vec![1, 2, 3];
    feasible_solution.routes = vec![route];
    feasible_solution.evaluate(&problem, PENALTY_UNIT);
    assert_eq!(
        feasible_solution.get_feasible_cost(),
        Some(feasible_solution.distance)
    );

    let mut infeasible_solution = Solution::new();
    let mut overloaded_route = Route::new();
    overloaded_route.customers = vec![1, 2, 3, 4, 5];
    infeasible_solution.routes = vec![overloaded_route];
    infeasible_solution.evaluate(&problem, PENALTY_UNIT);
    assert_eq!(infeasible_solution.get_feasible_cost(), None);
}

#[test]
fn test_solution_debug_output() {
    let problem = create_test_problem();
    let mut solution = Solution::new();
    let mut route = Route::new();
    route.customers = vec![1, 2];
    route.calculate_load(&problem);
    route.calculate_distance(&problem);
    solution.routes = vec![route];
    solution.evaluate(&problem, PENALTY_UNIT);
    let debug_output = format!("{:?}", solution);
    assert!(debug_output.contains("cost"));
    assert!(debug_output.contains("distance"));
    assert!(debug_output.contains("is_feasible"));
    assert!(debug_output.contains("routes"));
    assert!(debug_output.contains("giant_tour"));
}
