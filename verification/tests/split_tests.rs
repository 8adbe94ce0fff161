//! Tests for the Split algorithm.

use hgs_cvrp::problem::{Node, Problem};
use hgs_cvrp::solution::Solution;
use hgs_cvrp::split::Split;

/// A depot at the origin and six customers on a line, demands rising.
fn create_test_problem() -> Problem {
    let mut nodes = Vec::new();
    nodes.push(Node::new(0, 0, 0, 0, true));
    nodes.push(Node::new(1, 10, 0, 10, false));
    nodes.push(Node::new(2, 20, 0, 10, false));
    nodes.push(Node::new(3, 30, 0, 15, false));
    nodes.push(Node::new(4, 40, 0, 15, false));
    nodes.push(Node::new(5, 50, 0, 20, false));
    nodes.push(Node::new(6, 60, 0, 20, false));
    Problem::new("TestProblem".to_string(), nodes, 0, 50, None)
}

#[test]
fn test_split_empty_tour() {
    let problem = create_test_problem();
    let mut solution = Solution::new();
    solution.giant_tour = vec![];
    Split::split(&mut solution, &problem);
    assert_eq!(solution.routes.len(), 0);
}

#[test]
fn test_split_single_customer() {
    let problem = create_test_problem();
    let mut solution = Solution::new();
    solution.giant_tour = vec![1];
    Split::split(&mut solution, &problem);
    assert_eq!(solution.routes.len(), 1);
    assert_eq!(solution.routes[0].customers, vec![1]);
    // Depot -> 1 -> depot covers 10 twice.
    assert_eq!(solution.routes[0].distance, 20);
}

#[test]
fn test_split_multiple_customers_one_route() {
    let problem = create_test_problem();
    let mut solution = Solution::new();
    solution.giant_tour = vec![1, 2, 3];
    Split::split(&mut solution, &problem);
    assert_eq!(solution.routes.len(), 1);
    assert_eq!(solution.routes[0].customers, vec![1, 2, 3]);
    let expected_distance = 10 + 10 + 10 + 30;
    assert_eq!(solution.routes[0].distance, expected_distance as u64);
}

#[test]
fn test_split_exceeding_capacity() {
    let problem = create_test_problem();
    let mut solution = Solution::new();
    solution.giant_tour = vec![1, 2, 3, 4, 5, 6];
    Split::split(&mut solution, &problem);
    assert!(solution.routes.len() >= 2);
    for route in &solution.routes {
        let total_demand: u64 = route
            .customers
            .iter()
            .map(|&c| problem.nodes[c].demand)
            .sum();
        assert!(total_demand <= problem.vehicle_capacity);
    }
    let mut visited = vec![false; 7];
    for route in &solution.routes {
        for &customer in &route.customers {
            assert!(!visited[customer], "Customer visited more than once");
            visited[customer] = true;
        }
    }
    for i in 1..=6 {
        assert!(visited[i], "Customer {} not visited", i);
    }
}

#[test]
fn test_split_optimal_partitioning() {
    let problem = create_test_problem();

    // The ordered tour splits optimally into [1,2,3,4] and [5,6]:
    // 80 + 120 = 200 in total.
    let mut solution2 = Solution::new();
    solution2.giant_tour = vec![1, 2, 3, 4, 5, 6];
    Split::split(&mut solution2, &problem);
    assert!(solution2.is_feasible);
    assert_eq!(solution2.distance, 200);

    // A scrambled tour can only be split along its own order, so it can
    // never beat the ordered tour's optimum.
    let mut solution = Solution::new();
    solution.giant_tour = vec![1, 4, 2, 5, 3, 6];
    Split::split(&mut solution, &problem);
    assert!(solution.distance >= solution2.distance);
}

#[test]
fn test_split_forced_partition() {
    // Six colinear customers of demand ten each under a capacity of
    // thirty: the optimal order-preserving partition is exactly two full
    // routes.
    let mut nodes = Vec::new();
    nodes.push(Node::new(0, 0, 0, 0, true));
    for i in 1..=6i64 {
        nodes.push(Node::new(i as usize, i * 10, 0, 10, false));
    }
    let problem = Problem::new("Line".to_string(), nodes, 0, 30, None);
    let mut solution = Solution::new();
    solution.giant_tour = vec![1, 2, 3, 4, 5, 6];
    Split::split(&mut solution, &problem);
    assert_eq!(solution.routes.len(), 2);
    assert_eq!(solution.routes[0].customers, vec![1, 2, 3]);
    assert_eq!(solution.routes[1].customers, vec![4, 5, 6]);
    assert_eq!(solution.routes[0].load, 30);
    assert_eq!(solution.routes[1].load, 30);
    assert!(solution.is_feasible);
}

#[test]
fn test_merge_routes() {
    let problem = create_test_problem();
    let mut solution = Solution::new();
    solution.giant_tour = vec![1, 2, 3, 4, 5, 6];
    Split::split(&mut solution, &problem);
    solution.giant_tour.clear();
    Split::merge_routes(&mut solution);
    assert_eq!(solution.giant_tour.len(), 6);
    let mut present = vec![false; 7];
    for &customer in &solution.giant_tour {
        present[customer] = true;
    }
    for i in 1..=6 {
        assert!(present[i], "Customer {} not in merged tour", i);
    }
}

#[test]
fn test_split_with_different_vehicle_capacities() {
    let mut problem1 = create_test_problem();
    problem1.vehicle_capacity = 30;
    let mut problem2 = create_test_problem();
    problem2.vehicle_capacity = 70;

    let mut solution1 = Solution::new();
    solution1.giant_tour = vec![1, 2, 3, 4, 5, 6];
    let mut solution2 = Solution::new();
    solution2.giant_tour = vec![1, 2, 3, 4, 5, 6];

    Split::split(&mut solution1, &problem1);
    Split::split(&mut solution2, &problem2);

    assert!(solution1.routes.len() > solution2.routes.len());
    for route in &solution1.routes {
        let total_demand: u64 = route
            .customers
            .iter()
            .map(|&c| problem1.nodes[c].demand)
            .sum();
        assert!(total_demand <= problem1.vehicle_capacity);
    }
    for route in &solution2.routes {
        let total_demand: u64 = route
            .customers
            .iter()
            .map(|&c| problem2.nodes[c].demand)
            .sum();
        assert!(total_demand <= problem2.vehicle_capacity);
    }
}

#[test]
fn test_split_evaluates_solution() {
    let problem = create_test_problem();
    let mut solution = Solution::new();
    solution.giant_tour = vec![1, 2, 3, 4, 5, 6];
    assert_eq!(solution.distance, 0);
    assert_eq!(solution.cost, 0);
    assert_eq!(solution.excess_capacity, 0);
    Split::split(&mut solution, &problem);
    assert!(solution.distance > 0);
    assert!(solution.cost > 0);
    assert!(solution.is_feasible);
}

#[test]
fn test_split_round_trip_keeps_customers() {
    // A solution's routes, merged into a giant tour and split again, still
    // serve exactly the same customers.
    let problem = create_test_problem();
    let mut solution = Solution::new();
    solution.giant_tour = vec![6, 1, 5, 2, 4, 3];
    Split::split(&mut solution, &problem);
    Split::merge_routes(&mut solution);
    let tour_before = solution.giant_tour.clone();
    Split::split(&mut solution, &problem);
    let mut customers: Vec<usize> = solution
        .routes
        .iter()
        .flat_map(|r| r.customers.iter().copied())
        .collect();
    customers.sort();
    let mut expected = tour_before.clone();
    expected.sort();
    assert_eq!(customers, expected);
}
