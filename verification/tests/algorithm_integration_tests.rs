//! Integration tests for the full solver.

use hgs_cvrp::config::Config;
use hgs_cvrp::problem::{Node, Problem};
use hgs_cvrp::HgsAlgorithm;

/// A depot in the middle of twenty grid customers.
fn create_moderate_problem() -> Problem {
    let mut nodes = Vec::new();
    nodes.push(Node::new(0, 50, 50, 0, true));
    let mut id = 1usize;
    for i in 0..4i64 {
        for j in 0..5i64 {
            let x = i * 20 + 10;
            let y = j * 20 + 10;
            let demand = 10 + (id as u64) % 3;
            nodes.push(Node::new(id, x, y, demand, false));
            id += 1;
        }
    }
    Problem::new("ModerateTestProblem".to_string(), nodes, 0, 100, None)
}

#[test]
fn test_algorithm_initialization() {
    let problem = create_moderate_problem();
    let config = Config::new().with_min_pop_size(10).with_generation_size(20);
    let mut algorithm = HgsAlgorithm::new(problem, config);
    algorithm.initialize();

    assert!(algorithm.population.get_pop_size() >= 10);
    assert!(algorithm.best_solution.is_some());
    assert!(algorithm.best_solution.as_ref().unwrap().is_feasible);
}

#[test]
fn test_algorithm_short_run() {
    let problem = create_moderate_problem();
    let config = Config::new()
        .with_min_pop_size(10)
        .with_generation_size(20)
        .with_max_iterations_without_improvement(100)
        .with_time_limit(1000);
    let mut algorithm = HgsAlgorithm::new(problem, config);
    let vehicle_capacity = algorithm.problem.vehicle_capacity;
    let number_nodes = algorithm.problem.nodes.len();

    let solution = algorithm.run().expect("a feasible solution");
    assert!(solution.is_feasible);
    assert!(solution.distance > 0);

    for route in &solution.routes {
        assert!(route.load <= vehicle_capacity);
    }

    let mut visited = vec![false; number_nodes];
    for route in &solution.routes {
        for &customer in &route.customers {
            assert!(!visited[customer], "Customer visited more than once");
            visited[customer] = true;
        }
    }
    for i in 1..number_nodes {
        assert!(visited[i], "Customer {} not visited", i);
    }
}

#[test]
fn test_algorithm_termination_time_limit() {
    let problem = create_moderate_problem();
    let time_limit_ms = 200;
    let config = Config::new()
        .with_min_pop_size(10)
        .with_generation_size(20)
        .with_max_iterations_without_improvement(100000)
        .with_time_limit(time_limit_ms);
    let mut algorithm = HgsAlgorithm::new(problem, config);
    algorithm.run();
    assert!(algorithm.run_time >= time_limit_ms);
}

#[test]
fn test_algorithm_termination_iterations() {
    let problem = create_moderate_problem();
    let max_iterations = 50;
    let config = Config::new()
        .with_min_pop_size(10)
        .with_generation_size(20)
        .with_max_iterations_without_improvement(max_iterations);
    let mut algorithm = HgsAlgorithm::new(problem, config);
    algorithm.run();
    assert!(algorithm.iterations_without_improvement >= max_iterations);
}

#[test]
fn test_algorithm_improvement() {
    let problem = create_moderate_problem();
    let config = Config::new()
        .with_min_pop_size(5)
        .with_generation_size(10)
        .with_max_iterations_without_improvement(200)
        .with_time_limit(2000);
    let mut algorithm = HgsAlgorithm::new(problem, config);
    algorithm.initialize();
    let initial_cost = algorithm.best_solution.clone().unwrap().cost;

    // The recorded best only ever improves over the run.
    let final_solution = algorithm.run().expect("a feasible solution");
    assert!(final_solution.cost <= initial_cost);
}

#[test]
fn test_algorithm_multiple_runs_consistency() {
    let problem = create_moderate_problem();
    let config = Config::new()
        .with_min_pop_size(10)
        .with_generation_size(20)
        .with_max_iterations_without_improvement(200)
        .with_time_limit(2000);

    let mut algorithm1 = HgsAlgorithm::new(problem.clone(), config.clone());
    let solution1 = algorithm1.run().expect("a feasible solution");
    let mut algorithm2 = HgsAlgorithm::new(problem.clone(), config.clone());
    let solution2 = algorithm2.run().expect("a feasible solution");

    // Similar quality within a quarter either way, though not identical.
    assert!(solution1.cost * 100 <= solution2.cost * 125);
    assert!(solution2.cost * 100 <= solution1.cost * 125);
}

#[test]
fn test_algorithm_with_different_configs() {
    let problem = create_moderate_problem();
    let small_config = Config::new()
        .with_min_pop_size(5)
        .with_generation_size(10)
        .with_max_iterations_without_improvement(100)
        .with_time_limit(1000);
    let large_config = Config::new()
        .with_min_pop_size(15)
        .with_generation_size(30)
        .with_max_iterations_without_improvement(100)
        .with_time_limit(1000);

    let mut small_algorithm = HgsAlgorithm::new(problem.clone(), small_config);
    let small_solution = small_algorithm.run().expect("a feasible solution");
    let mut large_algorithm = HgsAlgorithm::new(problem.clone(), large_config);
    let large_solution = large_algorithm.run().expect("a feasible solution");

    assert!(small_solution.is_feasible);
    assert!(large_solution.is_feasible);
    assert!(small_solution.cost * 100 <= large_solution.cost * 130);
    assert!(large_solution.cost * 100 <= small_solution.cost * 130);
}
