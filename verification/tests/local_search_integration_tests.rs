//! Integration tests for the local-search engine as a whole.

use hgs_cvrp::local_search::LocalSearch;
use hgs_cvrp::problem::{Node, Problem};
use hgs_cvrp::rng;
use hgs_cvrp::solution::{Route, Solution};
use hgs_cvrp::PENALTY_UNIT;

/// A depot in the middle of a five-by-five customer grid.
fn create_complex_problem() -> Problem {
    let mut nodes = Vec::new();
    nodes.push(Node::new(0, 50, 50, 0, true));
    let mut id = 1;
    for x in 0..5i64 {
        for y in 0..5i64 {
            if x == 2 && y == 2 {
                continue;
            }
            let x_coord = x * 20 + 10;
            let y_coord = y * 20 + 10;
            let demand = 10 + (x + y) as u64;
            nodes.push(Node::new(id, x_coord, y_coord, demand, false));
            id += 1;
        }
    }
    Problem::new("ComplexTestProblem".to_string(), nodes, 0, 100, None)
}

/// Three routes over a shuffled giant tour, evaluated.
fn create_random_solution(problem: &Problem) -> Solution {
    let mut solution = Solution::new();
    let customer_count = problem.get_customer_count();
    let mut giant_tour: Vec<usize> = (1..=customer_count).collect();
    rng::shuffle(&mut giant_tour);

    let route_size = giant_tour.len() / 3;
    for i in 0..3 {
        let start = i * route_size;
        let end = if i == 2 { giant_tour.len() } else { (i + 1) * route_size };
        let mut route = Route::new();
        route.customers = giant_tour[start..end].to_vec();
        route.calculate_load(problem);
        route.calculate_distance(problem);
        solution.routes.push(route);
    }
    solution.evaluate(problem, PENALTY_UNIT);
    solution.update_giant_tour();
    solution
}

#[test]
fn test_local_search_move_tracking() {
    let problem = create_complex_problem();
    let mut solution = create_random_solution(&problem);
    let mut local_search = LocalSearch::new(5);
    // Size the tracking structures with one full pass.
    local_search.educate(&mut solution, &problem, PENALTY_UNIT);

    // An untested move is valid once, then memoised until its route is
    // touched again.
    let customer = 999;
    let move_type = 7;
    let route_idx = 1;
    assert!(local_search.is_move_valid(customer, move_type, route_idx));
    assert!(!local_search.is_move_valid(customer, move_type, route_idx));
    local_search.update_route_timestamp(route_idx);
    assert!(local_search.is_move_valid(customer, move_type, route_idx));
}

#[test]
fn test_local_search_initialization_tracking() {
    let local_search = LocalSearch::new(5);
    assert_eq!(local_search.granularity, 5);
    assert_eq!(local_search.route_timestamps.len(), 0);
    assert_eq!(local_search.move_count, 0);
    assert!(local_search.customer_neighbors.is_empty());
}

#[test]
fn test_local_search_full_improvement() {
    let problem = create_complex_problem();
    let mut solution = Solution::new();

    let mut route1 = Route::new();
    route1.customers = vec![1, 10, 15];
    route1.calculate_load(&problem);
    route1.calculate_distance(&problem);
    let mut route2 = Route::new();
    route2.customers = vec![2, 11, 16];
    route2.calculate_load(&problem);
    route2.calculate_distance(&problem);
    let mut route3 = Route::new();
    route3.customers = vec![3, 12, 17];
    route3.calculate_load(&problem);
    route3.calculate_distance(&problem);
    solution.routes = vec![route1, route2, route3];
    // A stiff penalty keeps the search from trading feasibility for
    // distance.
    let penalty = 100 * PENALTY_UNIT;
    solution.evaluate(&problem, penalty);
    solution.update_giant_tour();

    let initial_cost = solution.cost;
    let mut local_search = LocalSearch::new(10);
    local_search.educate(&mut solution, &problem, penalty);

    assert!(solution.cost < initial_cost);
    assert!(solution.is_feasible);
    for route in &solution.routes {
        if !route.customers.is_empty() {
            assert!(route.distance > 0);
            assert!(route.load > 0);
        }
    }
}

#[test]
fn test_local_search_multiple_iterations() {
    let problem = create_complex_problem();
    let mut solution = create_random_solution(&problem);
    let mut local_search = LocalSearch::new(10);

    local_search.educate(&mut solution, &problem, PENALTY_UNIT);
    let first_cost = solution.cost;
    // The move memo can leave a few moves untested across runs, so a
    // second run may still improve, but it never worsens the solution.
    local_search.educate(&mut solution, &problem, PENALTY_UNIT);
    let second_cost = solution.cost;
    assert!(second_cost <= first_cost);
}

#[test]
fn test_local_search_capacity_penalties() {
    let problem = create_complex_problem();
    let mut solution = Solution::new();
    // One badly overloaded route beside a light one, so moves between the
    // two can shed the violation.
    let mut route1 = Route::new();
    route1.customers = (1..=12).collect();
    route1.calculate_load(&problem);
    route1.calculate_distance(&problem);
    let mut route2 = Route::new();
    route2.customers = (13..=15).collect();
    route2.calculate_load(&problem);
    route2.calculate_distance(&problem);
    solution.routes = vec![route1, route2];

    // One tenth of a unit per unit of excess.
    solution.evaluate(&problem, PENALTY_UNIT / 10);
    assert!(!solution.is_feasible);
    let low_penalty_cost = solution.cost;

    let mut high_penalty_solution = solution.clone();
    high_penalty_solution.evaluate(&problem, 10 * PENALTY_UNIT);
    let high_penalty_cost = high_penalty_solution.cost;
    assert!(high_penalty_cost > low_penalty_cost);

    high_penalty_solution.update_giant_tour();
    let mut local_search = LocalSearch::new(10);
    local_search.educate(&mut high_penalty_solution, &problem, 10 * PENALTY_UNIT);
    assert!(
        high_penalty_solution.excess_capacity < solution.excess_capacity
            || high_penalty_solution.is_feasible
    );
}

#[test]
fn test_repair_function() {
    let problem = create_complex_problem();
    let mut solution = Solution::new();
    // An overloaded route and a light one: repair can rebalance them.
    let mut route1 = Route::new();
    route1.customers = (1..=12).collect();
    route1.calculate_load(&problem);
    route1.calculate_distance(&problem);
    let mut route2 = Route::new();
    route2.customers = (13..=15).collect();
    route2.calculate_load(&problem);
    route2.calculate_distance(&problem);
    solution.routes = vec![route1, route2];
    solution.evaluate(&problem, PENALTY_UNIT);
    solution.update_giant_tour();
    assert!(!solution.is_feasible);
    let initial_excess = solution.excess_capacity;

    let mut local_search = LocalSearch::new(10);
    local_search.repair(&mut solution, &problem);
    assert!(solution.is_feasible || solution.excess_capacity < initial_excess);
}

#[test]
fn test_preprocess_neighbors() {
    let problem = create_complex_problem();
    let mut local_search = LocalSearch::new(5);
    assert!(local_search.customer_neighbors.is_empty());
    local_search.preprocess_neighbors(&problem);
    assert_eq!(local_search.customer_neighbors.len(), problem.nodes.len());
    for neighbors in &local_search.customer_neighbors {
        assert!(neighbors.len() <= 5);
    }
}

#[test]
fn test_two_opt_uncrosses_route() {
    // Crossing edges cost more than the uncrossed tour of the same four
    // customers: 2-Opt alone must strictly shorten this route.
    let mut nodes = Vec::new();
    nodes.push(Node::new(0, 0, 0, 0, true));
    nodes.push(Node::new(1, 10, 0, 10, false));
    nodes.push(Node::new(2, 0, 10, 10, false));
    nodes.push(Node::new(3, 10, 10, 10, false));
    nodes.push(Node::new(4, 20, 0, 10, false));
    let problem = Problem::new("Crossing".to_string(), nodes, 0, 100, None);

    let mut solution = Solution::new();
    let mut route = Route::new();
    route.customers = vec![1, 3, 2, 4];
    route.calculate_load(&problem);
    route.calculate_distance(&problem);
    solution.routes = vec![route];
    solution.evaluate(&problem, PENALTY_UNIT);
    solution.update_giant_tour();
    let initial_cost = solution.cost;
    let initial_load = solution.routes[0].load;

    let mut local_search = LocalSearch::new(3);
    local_search.educate(&mut solution, &problem, PENALTY_UNIT);

    assert!(solution.cost < initial_cost);
    // A 2-Opt move reverses a segment and never changes the route's load.
    assert_eq!(solution.routes[0].load, initial_load);
}
