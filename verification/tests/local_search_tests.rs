//! Tests for the local-search neighbourhoods and their utilities.

use hgs_cvrp::local_search::utils;
use hgs_cvrp::local_search::LocalSearch;
use hgs_cvrp::problem::{Node, Problem};
use hgs_cvrp::solution::{Route, Solution};
use hgs_cvrp::PENALTY_UNIT;

/// A depot at the origin and five customers on a small grid.
fn create_test_problem() -> Problem {
    let mut nodes = Vec::new();
    nodes.push(Node::new(0, 0, 0, 0, true));
    nodes.push(Node::new(1, 10, 0, 10, false));
    nodes.push(Node::new(2, 0, 10, 10, false));
    nodes.push(Node::new(3, 10, 10, 10, false));
    nodes.push(Node::new(4, 20, 0, 15, false));
    nodes.push(Node::new(5, 20, 10, 20, false));
    Problem::new("TestProblem".to_string(), nodes, 0, 50, None)
}

/// Two evaluated routes: depot->1->2->depot and depot->3->4->5->depot.
fn create_test_solution(problem: &Problem) -> Solution {
    let mut solution = Solution::new();
    let mut route1 = Route::new();
    route1.customers = vec![1, 2];
    route1.calculate_load(problem);
    route1.calculate_distance(problem);
    let mut route2 = Route::new();
    route2.customers = vec![3, 4, 5];
    route2.calculate_load(problem);
    route2.calculate_distance(problem);
    solution.routes = vec![route1, route2];
    solution.evaluate(problem, PENALTY_UNIT);
    solution.update_giant_tour();
    solution
}

fn prepared_search(problem: &Problem, solution: &Solution, granularity: usize) -> LocalSearch {
    let mut local_search = LocalSearch::new(granularity);
    local_search.preprocess_neighbors(problem);
    // Size the per-route timestamps by running one full pass on a copy,
    // then stamp every route as freshly modified so no move is memoised.
    let mut warmup = solution.clone();
    local_search.educate(&mut warmup, problem, PENALTY_UNIT);
    for r_idx in 0..solution.routes.len() {
        local_search.update_route_timestamp(r_idx);
    }
    local_search
}

#[test]
fn test_relocate_neighborhood() {
    let problem = create_test_problem();
    let mut solution = create_test_solution(&problem);
    let initial_cost = solution.cost;
    let mut local_search = prepared_search(&problem, &solution, 3);
    let improved = local_search.relocate_neighborhood(&mut solution, &problem, PENALTY_UNIT);
    if improved {
        assert!(solution.cost < initial_cost);
    }
    assert!(solution.distance > 0);
}

#[test]
fn test_swap_neighborhood() {
    let problem = create_test_problem();
    let mut solution = create_test_solution(&problem);
    let initial_cost = solution.cost;
    let mut local_search = prepared_search(&problem, &solution, 3);
    let improved = local_search.swap_neighborhood(&mut solution, &problem, PENALTY_UNIT);
    if improved {
        assert!(solution.cost < initial_cost);
    }
    assert!(solution.distance > 0);
}

#[test]
fn test_two_opt_neighborhood() {
    let problem = create_test_problem();
    // One route with crossing edges: depot -> 1 -> 3 -> 2 -> 4 -> depot.
    let mut solution = Solution::new();
    let mut route = Route::new();
    route.customers = vec![1, 3, 2, 4];
    route.calculate_load(&problem);
    route.calculate_distance(&problem);
    solution.routes = vec![route];
    solution.evaluate(&problem, PENALTY_UNIT);
    solution.update_giant_tour();

    let initial_cost = solution.cost;
    let mut local_search = prepared_search(&problem, &solution, 3);
    solution.evaluate(&problem, PENALTY_UNIT);
    let improved = local_search.two_opt_neighborhood(&mut solution, &problem, PENALTY_UNIT);
    assert!(improved);
    assert!(solution.cost < initial_cost);
}

#[test]
fn test_two_opt_star_neighborhood() {
    let problem = create_test_problem();
    let mut solution = create_test_solution(&problem);
    let initial_cost = solution.cost;
    let mut local_search = prepared_search(&problem, &solution, 3);
    let improved = local_search.two_opt_star_neighborhood(&mut solution, &problem, PENALTY_UNIT);
    if improved {
        assert!(solution.cost < initial_cost);
    }
    assert!(solution.distance > 0);
}

#[test]
fn test_swap_star_neighborhood() {
    let problem = create_test_problem();
    let mut solution = create_test_solution(&problem);
    let initial_cost = solution.cost;
    let mut local_search = prepared_search(&problem, &solution, 3);
    let improved = local_search.swap_star_neighborhood(&mut solution, &problem, PENALTY_UNIT);
    if improved {
        assert!(solution.cost < initial_cost);
    }
    assert!(solution.distance > 0);
}

#[test]
fn test_full_educate() {
    let problem = create_test_problem();
    let mut solution = create_test_solution(&problem);
    let initial_cost = solution.cost;
    let mut local_search = LocalSearch::new(3);
    local_search.educate(&mut solution, &problem, PENALTY_UNIT);
    assert!(solution.cost <= initial_cost);
}

#[test]
fn test_educate_keeps_customers() {
    // Local search only rearranges customers over routes: the multiset of
    // served customers is exactly preserved.
    let problem = create_test_problem();
    let mut solution = create_test_solution(&problem);
    let mut local_search = LocalSearch::new(3);
    local_search.educate(&mut solution, &problem, PENALTY_UNIT);
    let mut customers: Vec<usize> = solution
        .routes
        .iter()
        .flat_map(|r| r.customers.iter().copied())
        .collect();
    customers.sort();
    assert_eq!(customers, vec![1, 2, 3, 4, 5]);
}

#[test]
fn test_educate_conserves_demand() {
    // After local search the summed route loads still equal the summed
    // demands of all customers.
    let problem = create_test_problem();
    let mut solution = create_test_solution(&problem);
    let mut local_search = LocalSearch::new(3);
    local_search.educate(&mut solution, &problem, PENALTY_UNIT);
    let total_load: u64 = solution.routes.iter().map(|r| r.load).sum();
    let total_demand: u64 = problem.nodes.iter().map(|n| n.demand).sum();
    assert_eq!(total_load, total_demand);
}

#[test]
fn test_repair_infeasible_solution() {
    let problem = create_test_problem();
    let mut solution = Solution::new();
    let mut route = Route::new();
    route.customers = vec![1, 2, 3, 4, 5];
    route.calculate_load(&problem);
    route.calculate_distance(&problem);
    solution.routes = vec![route];
    solution.evaluate(&problem, PENALTY_UNIT);
    solution.update_giant_tour();
    assert!(!solution.is_feasible);

    let mut local_search = LocalSearch::new(3);
    local_search.repair(&mut solution, &problem);
    assert!(solution.excess_capacity < 25 || solution.is_feasible);
}

#[test]
fn test_utils_get_neighbors() {
    let problem = create_test_problem();
    let neighbors = utils::get_neighbors(1, &problem, 3);
    assert!(neighbors.len() <= 3);
    for &neighbor in &neighbors {
        assert!(neighbor > 0 && neighbor < problem.nodes.len());
        assert_ne!(neighbor, 1);
        assert_ne!(neighbor, 0);
    }
    let mut prev_dist = 0;
    for &neighbor in &neighbors {
        let dist = problem.get_distance(1, neighbor);
        if prev_dist > 0 {
            assert!(dist >= prev_dist);
        }
        prev_dist = dist;
    }
}

#[test]
fn test_utils_find_route_for_customer() {
    let problem = create_test_problem();
    let solution = create_test_solution(&problem);
    assert_eq!(utils::find_route_for_customer(&solution, 1), Some(0));
    assert_eq!(utils::find_route_for_customer(&solution, 5), Some(1));
    assert_eq!(utils::find_route_for_customer(&solution, 6), None);
}

#[test]
fn test_utils_calculate_insertion_cost() {
    let problem = create_test_problem();
    let mut route = Route::new();
    route.customers = vec![1, 2];
    route.calculate_load(&problem);
    route.calculate_distance(&problem);

    let cost_at_0 = utils::calculate_insertion_cost(&route, 3, 0, &problem);
    let cost_at_1 = utils::calculate_insertion_cost(&route, 3, 1, &problem);
    let cost_at_2 = utils::calculate_insertion_cost(&route, 3, 2, &problem);
    assert!(cost_at_0 != cost_at_1 || cost_at_1 != cost_at_2 || cost_at_0 != cost_at_2);
}

#[test]
fn test_utils_calculate_removal_cost() {
    let problem = create_test_problem();
    let mut route = Route::new();
    route.customers = vec![1, 2];
    route.calculate_load(&problem);
    route.calculate_distance(&problem);
    let original_distance = route.distance as i128;

    let delta_0 = utils::calculate_removal_cost(&route, 0, &problem);
    let delta_1 = utils::calculate_removal_cost(&route, 1, &problem);

    let mut route_without_0 = Route::new();
    route_without_0.customers = vec![2];
    route_without_0.calculate_distance(&problem);
    let mut route_without_1 = Route::new();
    route_without_1.customers = vec![1];
    route_without_1.calculate_distance(&problem);

    assert_eq!(route_without_0.distance as i128, original_distance + delta_0);
    assert_eq!(route_without_1.distance as i128, original_distance + delta_1);
}
