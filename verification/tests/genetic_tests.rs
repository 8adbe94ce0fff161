//! Tests for the genetic operators and the population.

use hgs_cvrp::config::Config;
use hgs_cvrp::genetic::Genetic;
use hgs_cvrp::individual::Individual;
use hgs_cvrp::population::Population;
use hgs_cvrp::problem::{Node, Problem};
use hgs_cvrp::solution::Solution;

/// A depot at the origin and nine customers on a three-by-three grid.
fn create_test_problem() -> Problem {
    let mut nodes = Vec::new();
    nodes.push(Node::new(0, 0, 0, 0, true));
    for i in 0..3i64 {
        for j in 0..3i64 {
            let id = (i * 3 + j + 1) as usize;
            let x = (i + 1) * 10;
            let y = (j + 1) * 10;
            nodes.push(Node::new(id, x, y, 10, false));
        }
    }
    Problem::new("TestProblem".to_string(), nodes, 0, 50, None)
}

fn create_test_solution() -> Solution {
    let mut solution = Solution::new();
    solution.giant_tour = vec![1, 2, 3, 4, 5, 6, 7, 8, 9];
    solution
}

fn create_test_individual() -> Individual {
    Individual::new(create_test_solution())
}

#[test]
fn test_genetic_crossover() {
    let genetic = Genetic;
    let mut parent1 = create_test_individual();
    parent1.solution.giant_tour = vec![1, 2, 3, 4, 5, 6, 7, 8, 9];
    let mut parent2 = create_test_individual();
    parent2.solution.giant_tour = vec![9, 8, 7, 6, 5, 4, 3, 2, 1];

    let offspring = genetic.crossover(&parent1, &parent2);
    assert_eq!(offspring.giant_tour.len(), 9);

    let mut present = vec![false; 10];
    for &customer in &offspring.giant_tour {
        assert!(!present[customer], "Customer present more than once");
        present[customer] = true;
    }
    for i in 1..=9 {
        assert!(present[i], "Customer {} not present", i);
    }

    let from_parent1 = offspring
        .giant_tour
        .iter()
        .zip(parent1.solution.giant_tour.iter())
        .filter(|&(&a, &b)| a == b)
        .count();
    let from_parent2 = offspring
        .giant_tour
        .iter()
        .zip(parent2.solution.giant_tour.iter())
        .filter(|&(&a, &b)| a == b)
        .count();
    assert!(from_parent1 > 0 || from_parent2 > 0);
}

#[test]
fn test_genetic_mutate() {
    let genetic = Genetic;
    let mut individual = create_test_individual();
    let original_tour = individual.solution.giant_tour.clone();

    // A rate of one thousand per mille swaps at every position.
    genetic.mutate(&mut individual, 1000);
    assert_eq!(individual.solution.giant_tour.len(), 9);

    let mut present = vec![false; 10];
    for &customer in &individual.solution.giant_tour {
        present[customer] = true;
    }
    for i in 1..=9 {
        assert!(present[i], "Customer {} not present after mutation", i);
    }
    assert_ne!(individual.solution.giant_tour, original_tour);
}

#[test]
fn test_individual_calculate_biased_fitness() {
    let mut individual = create_test_individual();
    individual.rank_feasibility = 3;
    individual.rank_diversity = 5;

    // No elite members: the diversity rank weighs fully.
    individual.calculate_biased_fitness(10, 0);
    let fitness1 = individual.biased_fitness;
    assert_eq!(fitness1, 3 * 10 + 10 * 5);

    // Half the population elite: the diversity rank weighs half.
    individual.calculate_biased_fitness(10, 5);
    let fitness2 = individual.biased_fitness;
    assert_eq!(fitness2, 3 * 10 + 5 * 5);
    assert!(fitness2 < fitness1);
}

#[test]
fn test_individual_calculate_diversity_contribution() {
    let mut individual = create_test_individual();
    individual.common_pairs = vec![5, 3, 8, 1, 9];

    // Summed over the two largest entries: 9 + 8.
    let diversity1 = individual.calculate_diversity_contribution(2);
    assert_eq!(diversity1, 17);

    // Summed over the four largest entries: 9 + 8 + 5 + 3.
    let diversity2 = individual.calculate_diversity_contribution(4);
    assert_eq!(diversity2, 25);
}

#[test]
fn test_individual_is_clone_of() {
    let mut individual1 = create_test_individual();
    individual1.solution.giant_tour = vec![1, 2, 3, 4, 5];
    let mut individual2 = create_test_individual();
    individual2.solution.giant_tour = vec![1, 2, 3, 4, 5];
    assert!(individual1.is_clone_of(&individual2));

    individual2.solution.giant_tour = vec![1, 2, 3, 5, 4];
    assert!(!individual1.is_clone_of(&individual2));
}

#[test]
fn test_individual_calculate_common_pairs() {
    let mut individual1 = create_test_individual();
    individual1.solution.giant_tour = vec![1, 2, 3, 4, 5];
    let mut individual2 = create_test_individual();
    individual2.solution.giant_tour = vec![1, 2, 6, 4, 5];

    // The pairs (1,2) and (4,5) sit at the same positions in both tours.
    let common_pairs = individual1.calculate_common_pairs(&individual2);
    assert_eq!(common_pairs, 2);
}

#[test]
fn test_population_initialization() {
    let problem = create_test_problem();
    let config = Config::new().with_min_pop_size(5).with_generation_size(10);
    let mut population = Population::new(&config);
    population.initialize(&problem, &config);

    assert!(population.get_pop_size() >= config.min_pop_size);
    for individual in &population.feasible_individuals {
        assert_eq!(individual.solution.giant_tour.len(), 9);
    }
    for individual in &population.infeasible_individuals {
        assert_eq!(individual.solution.giant_tour.len(), 9);
    }
}

#[test]
fn test_population_insert_individual() {
    let config = Config::new();
    let mut population = Population::new(&config);

    let mut feasible = create_test_individual();
    feasible.solution.is_feasible = true;
    population.insert_individual(feasible);

    let mut infeasible = create_test_individual();
    infeasible.solution.is_feasible = false;
    population.insert_individual(infeasible);

    assert_eq!(population.feasible_individuals.len(), 1);
    assert_eq!(population.infeasible_individuals.len(), 1);
}

#[test]
fn test_population_update_ranks() {
    let config = Config::new().with_n_closest(2);
    let mut population = Population::new(&config);
    for i in 0..5u128 {
        let mut individual = create_test_individual();
        individual.solution.cost = i * 10;
        individual.solution.is_feasible = true;
        population.insert_individual(individual);
    }
    population.update_ranks();
    // Whole population of five, four elite by default.
    let weight = 5 - 4;
    for i in 0..5 {
        let ind = &population.feasible_individuals[i];
        assert_eq!(ind.rank_feasibility, i);
        assert!(ind.rank_diversity < 5);
        assert_eq!(
            ind.biased_fitness,
            (i as u64) * 5 + weight * (ind.rank_diversity as u64)
        );
    }
}

#[test]
fn test_population_select_parents() {
    let config = Config::new();
    let mut population = Population::new(&config);
    for i in 0..10u128 {
        let mut individual = create_test_individual();
        individual.solution.cost = i * 10;
        individual.solution.is_feasible = true;
        population.insert_individual(individual);
    }
    population.update_ranks();
    let (parent1, parent2) = population.select_parents();
    assert!(parent1.solution.is_feasible);
    assert!(parent2.solution.is_feasible);
}

#[test]
fn test_population_select_survivors() {
    let config = Config::new().with_min_pop_size(5).with_generation_size(10);
    let mut population = Population::new(&config);
    for i in 0..15u128 {
        let mut individual = create_test_individual();
        individual.solution.cost = i * 10;
        individual.solution.is_feasible = true;
        population.insert_individual(individual);
    }
    population.update_ranks();
    assert_eq!(population.feasible_individuals.len(), 15);
    population.select_survivors();
    assert_eq!(population.feasible_individuals.len(), config.min_pop_size);
    // The survivors stay ordered by biased fitness.
    for i in 1..population.feasible_individuals.len() {
        assert!(
            population.feasible_individuals[i - 1].biased_fitness
                <= population.feasible_individuals[i].biased_fitness
        );
    }
}

#[test]
fn test_population_select_survivors_removes_clones() {
    // Ten members, five distinct tours twice over: the five survivors are
    // exactly the five distinct tours.
    let config = Config::new().with_min_pop_size(5).with_generation_size(4);
    let mut population = Population::new(&config);
    for i in 0..10usize {
        let mut individual = create_test_individual();
        let shift = i % 5;
        let tour: Vec<usize> = (0..9).map(|k| 1 + (k + shift) % 9).collect();
        individual.solution.giant_tour = tour;
        individual.solution.cost = (i as u128) * 10;
        individual.solution.is_feasible = true;
        population.insert_individual(individual);
    }
    population.update_ranks();
    population.select_survivors();
    assert_eq!(population.feasible_individuals.len(), 5);
    for a in 0..5 {
        for b in (a + 1)..5 {
            assert_ne!(
                population.feasible_individuals[a].solution.giant_tour,
                population.feasible_individuals[b].solution.giant_tour
            );
        }
    }
}

#[test]
fn test_population_adjust_penalties() {
    let config = Config::new().with_target_feasible_ratio(500);
    let mut population = Population::new(&config);
    for _ in 0..4 {
        let mut individual = create_test_individual();
        individual.solution.is_feasible = true;
        population.insert_individual(individual);
    }
    for _ in 0..6 {
        let mut individual = create_test_individual();
        individual.solution.is_feasible = false;
        population.insert_individual(individual);
    }

    // Four of ten feasible is below the one-half target: raise by six
    // fifths, exactly.
    let initial_penalty = population.capacity_penalty;
    assert_eq!(initial_penalty, 1000);
    population.adjust_penalties();
    assert_eq!(population.capacity_penalty, 1200);
    assert!(population.capacity_penalty > initial_penalty);

    // Eleven of seventeen feasible is above the target: lower by five
    // sixths, exactly.
    for _ in 0..7 {
        let mut individual = create_test_individual();
        individual.solution.is_feasible = true;
        population.insert_individual(individual);
    }
    let high_penalty = population.capacity_penalty;
    population.adjust_penalties();
    assert_eq!(population.capacity_penalty, 1000);
    assert!(population.capacity_penalty < high_penalty);
}

#[test]
fn test_population_get_best_feasible_solution() {
    let config = Config::new();
    let mut population = Population::new(&config);
    for i in 0..5u128 {
        let mut individual = create_test_individual();
        individual.solution.cost = (5 - i) * 10;
        individual.solution.is_feasible = true;
        population.insert_individual(individual);
    }
    let best = population.get_best_feasible_solution();
    assert!(best.is_some());
    assert_eq!(best.unwrap().cost, 10);

    let mut infeasible = create_test_individual();
    infeasible.solution.cost = 5;
    infeasible.solution.is_feasible = false;
    population.insert_individual(infeasible);
    let best = population.get_best_feasible_solution();
    assert_eq!(best.unwrap().cost, 10);
}
