use evolution_ternary::convergence::ConvergenceStatus;
use evolution_ternary::mutation::{autofill_mutate, CrossoverMethod, MutationPlan};
use evolution_ternary::population::{
    best_index, descending_order, is_ternary_strategy, population_strategy_len, random_strategies,
    worst_index, SimpleRng,
};
use evolution_ternary::selection::tournament_select;
use evolution_ternary::species::{Species, SpeciesTracker};

// === Population ===

#[test]
fn test_agent_new_valid() {
    let strategy = vec![0, 1, 2, 1, 0];
    assert!(is_ternary_strategy(&strategy));
}

#[test]
fn test_agent_new_invalid() {
    assert!(!is_ternary_strategy(&vec![0, 1, 3]));
}

#[test]
fn test_agent_new_empty() {
    let strategy: Vec<u8> = vec![];
    assert!(is_ternary_strategy(&strategy));
}

#[test]
fn test_population_new_valid() {
    let strategies = vec![vec![0u8, 1, 2], vec![1u8, 2, 0]];
    let lens: Vec<usize> = strategies.iter().map(|s| s.len()).collect();
    let len = population_strategy_len(&lens);
    assert!(len.is_some());
    assert_eq!(len, Some(3));
}

#[test]
fn test_population_new_mismatched_lengths() {
    assert!(population_strategy_len(&vec![3, 2]).is_none());
}

#[test]
fn test_population_random() {
    let strategies = random_strategies(20, 10, 42);
    assert_eq!(strategies.len(), 20);
    for s in &strategies {
        assert_eq!(s.len(), 10);
        for &v in s {
            assert!(v <= 2);
        }
    }
}

#[test]
fn test_sort_by_fitness() {
    // Fitness 1.0, 5.0, 3.0 as ordering keys.
    let keys = vec![1i64, 5, 3];
    let order = descending_order(&keys);
    assert_eq!(keys[order[0]], 5);
    assert_eq!(keys[order[1]], 3);
    assert_eq!(keys[order[2]], 1);
}

#[test]
fn test_best_worst() {
    let keys = vec![1i64, 5, 3];
    assert_eq!(keys[best_index(&keys)], 5);
    assert_eq!(keys[worst_index(&keys)], 1);
}

#[test]
fn test_seeded_reproducibility() {
    let a = random_strategies(10, 5, 42);
    let b = random_strategies(10, 5, 42);
    for (x, y) in a.iter().zip(b.iter()) {
        assert_eq!(x, y);
    }
}

// === Selection ===

#[test]
fn test_tournament_prefers_fitter() {
    // Fitness 0.1, 0.2, 100.0, in the same order.
    let keys = vec![1i64, 2, 100];
    let mut rng = SimpleRng::from_seed(42);
    let picks = tournament_select(&keys, 20, 3, &mut rng);
    let best_count = picks.iter().filter(|&&p| keys[p] == 100).count();
    assert!(best_count >= 10, "Expected most parents to be the fittest, got {}/20", best_count);
}

// === Mutation ===

#[test]
fn test_point_mutation_changes_values() {
    let mut strategy = vec![0u8; 10];
    let mut rng = SimpleRng::from_seed(42);
    // A rate of 1.0 passes every draw but u32::MAX itself.
    let plan = MutationPlan {
        point_threshold: u32::MAX as u64,
        crossover: CrossoverMethod::SinglePoint,
        crossover_threshold: 0,
    };
    plan.point_mutate(&mut strategy, &mut rng);
    assert!(strategy.iter().any(|&v| v != 0));
    assert!(strategy.iter().all(|&v| v <= 2));
}

#[test]
fn test_crossover_single_point() {
    let p1 = vec![0u8, 0, 0, 0, 0];
    let p2 = vec![2u8, 2, 2, 2, 2];
    let mut rng = SimpleRng::from_seed(42);
    // A crossover rate of 1.0: no draw exceeds it.
    let plan = MutationPlan {
        point_threshold: 0,
        crossover: CrossoverMethod::SinglePoint,
        crossover_threshold: 1u64 << 32,
    };
    let (c1, c2) = plan.crossover(&p1, &p2, &mut rng);
    assert_ne!(c1, p1);
    assert_ne!(c2, p2);
}

#[test]
fn test_crossover_uniform() {
    let p1 = vec![0u8, 0, 0, 0];
    let p2 = vec![2u8, 2, 2, 2];
    let mut rng = SimpleRng::from_seed(42);
    let plan = MutationPlan {
        point_threshold: 0,
        crossover: CrossoverMethod::Uniform,
        crossover_threshold: 1u64 << 32,
    };
    let (c1, c2) = plan.crossover(&p1, &p2, &mut rng);
    assert!(c1.iter().all(|&v| v <= 2));
    assert!(c2.iter().all(|&v| v <= 2));
}

#[test]
fn test_autofill_constant_pattern() {
    let mut strategy = vec![1u8, 1, 1, 0, 0, 0];
    let mut rng = SimpleRng::from_seed(99);
    autofill_mutate(&mut strategy, 3, &mut rng);
    assert_eq!(strategy[3], 1);
    assert_eq!(strategy[4], 1);
    assert_eq!(strategy[5], 1);
}

#[test]
fn test_autofill_ascending_pattern() {
    let mut strategy = vec![0u8, 1, 0, 0, 0, 0];
    let mut rng = SimpleRng::from_seed(99);
    autofill_mutate(&mut strategy, 2, &mut rng);
    assert_eq!(strategy[2], 2); // 0,1 -> diff=1 -> next=2
    assert_eq!(strategy[3], 0); // 2+1=3%3=0
    assert_eq!(strategy[4], 1);
    assert_eq!(strategy[5], 2);
}

// === Species ===

#[test]
fn test_species_explorer() {
    assert_eq!(Species::classify(&vec![0, 0, 0, 0, 0, 1]), Species::Explorer);
}

#[test]
fn test_species_diplomat() {
    assert_eq!(Species::classify(&vec![1, 1, 1, 1, 0, 2]), Species::Diplomat);
}

#[test]
fn test_species_warrior() {
    assert_eq!(Species::classify(&vec![2, 2, 2, 2, 2, 1]), Species::Warrior);
}

#[test]
fn test_species_hybrid() {
    assert_eq!(Species::classify(&vec![0, 1, 2, 0, 1, 2]), Species::Hybrid);
}

#[test]
fn test_species_tracker() {
    let strategies = vec![vec![0u8, 0, 0, 0], vec![1u8, 1, 1, 1], vec![2u8, 2, 2, 2]];
    let mut tracker = SpeciesTracker::new();
    let counts = tracker.record(&strategies);
    assert_eq!(counts, (1, 1, 1, 0));
    assert_eq!(tracker.diversity(), 3);
}

#[test]
fn test_species_stability() {
    let strategies = vec![vec![0u8, 0, 0, 0]];
    let mut tracker = SpeciesTracker::new();
    for _ in 0..5 {
        tracker.record(&strategies);
    }
    assert!(tracker.is_stable(3));
    assert!(!tracker.is_stable(6));
}

// === Convergence ===

#[test]
fn test_convergence_detector_plateau() {
    // Ten equal records: nine flat steps.
    let flat = vec![true; 9];
    let tracker = SpeciesTracker::new();
    let status = ConvergenceStatus::assess(&flat, 5, &tracker, 5);
    assert!(status.converged);
    assert!(status.plateau_generations >= 5);
}

#[test]
fn test_convergence_detector_improving() {
    // Records 0, 10, ..., 90: no step is flat.
    let flat = vec![false; 9];
    let tracker = SpeciesTracker::new();
    let status = ConvergenceStatus::assess(&flat, 5, &tracker, 5);
    assert!(!status.converged);
}
