use evolution_ternary::convergence::{plateau_generations, ConvergenceStatus};
use evolution_ternary::engine::early_stop;
use evolution_ternary::mutation::{autofill_mutate, CrossoverMethod, MutationPlan, HALF_DRAW};
use evolution_ternary::population::{
    best_index, descending_order, population_strategy_len, random_strategies, valid_ternary,
    worst_index, SimpleRng,
};
use evolution_ternary::selection::tournament_select;
use evolution_ternary::species::{count_ternary, Species, SpeciesTracker};

fn xorshift(mut s: u64) -> u64 {
    s ^= s << 13;
    s ^= s >> 7;
    s ^= s << 17;
    s
}

#[test]
fn rng_first_draw_from_seed_one() {
    let mut rng = SimpleRng::from_seed(1);
    assert_eq!(rng.next_u32(), 1082269761);
}

#[test]
fn rng_draws_follow_xorshift() {
    let mut rng = SimpleRng::from_seed(12345);
    let mut s = 12345u64;
    for _ in 0..100 {
        s = xorshift(s);
        assert_eq!(rng.next_u32(), s as u32);
    }
}

#[test]
fn rng_zero_seed_is_replaced() {
    let mut a = SimpleRng::from_seed(0);
    let mut b = SimpleRng::from_seed(0xDEAD_BEEF_CAFE_BABE);
    for _ in 0..10 {
        let x = a.next_u32();
        assert_eq!(x, b.next_u32());
    }
    let mut c = SimpleRng::from_seed(0);
    let mut any_nonzero = false;
    for _ in 0..10 {
        if c.next_u32() != 0 {
            any_nonzero = true;
        }
    }
    assert!(any_nonzero);
}

#[test]
fn rng_u64_joins_two_u32_draws() {
    let mut a = SimpleRng::from_seed(7);
    let mut b = a.clone();
    let hi = b.next_u32() as u64;
    let lo = b.next_u32() as u64;
    assert_eq!(a.next_u64(), (hi << 32) | lo);
    assert_eq!(a.next_u32(), b.next_u32());
}

#[test]
fn half_draw_is_the_one_half_boundary() {
    let m = u32::MAX as f64;
    assert!(((HALF_DRAW - 1) as f64) / m < 0.5);
    assert!(!((HALF_DRAW as f64) / m < 0.5));
}

#[test]
fn valid_ternary_values() {
    assert!(valid_ternary(0) && valid_ternary(1) && valid_ternary(2));
    assert!(!valid_ternary(3) && !valid_ternary(255));
}

#[test]
fn random_strategies_follow_the_draws() {
    let strategies = random_strategies(3, 4, 9);
    let mut rng = SimpleRng::from_seed(9);
    for s in &strategies {
        for &v in s {
            assert_eq!(v, (rng.next_u32() % 3) as u8);
        }
    }
    assert!(random_strategies(0, 4, 9).is_empty());
    assert!(random_strategies(2, 0, 9).iter().all(|s| s.is_empty()));
}

#[test]
fn population_len_of_no_agents() {
    assert_eq!(population_strategy_len(&vec![]), None);
    assert_eq!(population_strategy_len(&vec![0, 0]), Some(0));
}

#[test]
fn descending_order_is_stable() {
    let keys = vec![3i64, 1, 3, 2];
    assert_eq!(descending_order(&keys), vec![0, 2, 3, 1]);
    assert_eq!(descending_order(&vec![]), Vec::<usize>::new());
    assert_eq!(descending_order(&vec![-4, -4, -4]), vec![0, 1, 2]);
}

#[test]
fn best_is_last_maximum_and_worst_first_minimum() {
    assert_eq!(best_index(&vec![5, 1, 5]), 2);
    assert_eq!(worst_index(&vec![1, 3, 1]), 0);
    assert_eq!(best_index(&vec![7]), 0);
}

#[test]
fn tournament_of_everyone_may_still_miss_the_best() {
    let keys = vec![4i64, 9, 1, 9];
    let mut rng = SimpleRng::from_seed(3);
    let mut check = rng.clone();
    let picks = tournament_select(&keys, 5, 10, &mut rng);
    assert_eq!(picks.len(), 5);
    for &p in &picks {
        // Replay: four contenders each (size clamped to the population).
        let mut best = (check.next_u64() as usize) % 4;
        for _ in 1..4 {
            let c = (check.next_u64() as usize) % 4;
            if keys[c] >= keys[best] {
                best = c;
            }
        }
        assert_eq!(p, best);
    }
    assert_eq!(rng.next_u32(), check.next_u32());
}

#[test]
fn tournament_with_no_picks() {
    let mut rng = SimpleRng::from_seed(3);
    assert!(tournament_select(&vec![], 0, 3, &mut rng).is_empty());
}

#[test]
fn point_mutation_with_zero_threshold_keeps_strategy() {
    let plan = MutationPlan { point_threshold: 0, crossover: CrossoverMethod::Uniform, crossover_threshold: 0 };
    let mut s = vec![0u8, 1, 2, 1];
    let mut rng = SimpleRng::from_seed(5);
    plan.point_mutate(&mut s, &mut rng);
    assert_eq!(s, vec![0, 1, 2, 1]);
}

#[test]
fn point_mutation_with_full_threshold_changes_every_value() {
    let plan = MutationPlan { point_threshold: 1u64 << 32, crossover: CrossoverMethod::Uniform, crossover_threshold: 0 };
    let before = vec![0u8, 1, 2, 1, 0, 2];
    let mut s = before.clone();
    let mut rng = SimpleRng::from_seed(11);
    plan.point_mutate(&mut s, &mut rng);
    for (a, b) in before.iter().zip(s.iter()) {
        assert_ne!(a, b);
        assert!(*b <= 2);
    }
}

#[test]
fn crossover_with_zero_threshold_copies_parents() {
    let plan = MutationPlan { point_threshold: 0, crossover: CrossoverMethod::SinglePoint, crossover_threshold: 0 };
    let a = vec![0u8, 0, 0];
    let b = vec![2u8, 2, 2];
    let mut rng = SimpleRng::from_seed(5);
    let (x, y) = plan.crossover(&a, &b, &mut rng);
    assert_eq!(x, a);
    assert_eq!(y, b);
}

#[test]
fn crossover_conserves_material() {
    for seed in 1..40u64 {
        for method in [CrossoverMethod::SinglePoint, CrossoverMethod::Uniform] {
            let plan = MutationPlan { point_threshold: 0, crossover: method, crossover_threshold: 1u64 << 32 };
            let a = vec![0u8, 1, 2, 0, 1, 2, 0];
            let b = vec![2u8, 2, 1, 1, 0, 0, 2, 1];
            let mut rng = SimpleRng::from_seed(seed);
            let (x, y) = plan.crossover(&a, &b, &mut rng);
            assert_eq!(x.len(), a.len());
            assert_eq!(y.len(), b.len());
            for i in 0..a.len() {
                assert!((x[i] == a[i] && y[i] == b[i]) || (x[i] == b[i] && y[i] == a[i]));
            }
            assert_eq!(y[7], 1);
        }
    }
}

#[test]
fn single_point_crossover_of_length_one_exchanges_nothing() {
    let plan = MutationPlan { point_threshold: 0, crossover: CrossoverMethod::SinglePoint, crossover_threshold: 1u64 << 32 };
    let mut rng = SimpleRng::from_seed(8);
    let (x, y) = plan.crossover(&vec![0u8], &vec![2u8], &mut rng);
    assert_eq!(x, vec![0]);
    assert_eq!(y, vec![2]);
}

#[test]
fn autofill_wraps_as_a_byte() {
    let mut s = vec![0u8, 254, 1, 1, 1];
    let mut rng = SimpleRng::from_seed(1);
    autofill_mutate(&mut s, 2, &mut rng);
    // step (254 - 0) mod 3 = 2; (254 + 2) as a byte is 0.
    assert_eq!(s, vec![0, 254, 0, 2, 1]);
}

#[test]
fn autofill_without_context_fills_at_random() {
    let mut s = vec![2u8, 2, 2, 2];
    let mut rng = SimpleRng::from_seed(21);
    let mut check = rng.clone();
    autofill_mutate(&mut s, 1, &mut rng);
    assert_eq!(s[0], 2);
    for i in 1..4 {
        assert_eq!(s[i], (check.next_u32() % 3) as u8);
    }
}

#[test]
fn autofill_leaves_short_or_past_the_end_alone() {
    let mut rng = SimpleRng::from_seed(21);
    let mut s = vec![1u8];
    autofill_mutate(&mut s, 0, &mut rng);
    assert_eq!(s, vec![1]);
    let mut t = vec![1u8, 2, 0];
    autofill_mutate(&mut t, 3, &mut rng);
    assert_eq!(t, vec![1, 2, 0]);
}

#[test]
fn classification_edges() {
    assert_eq!(Species::classify(&vec![]), Species::Hybrid);
    assert_eq!(Species::classify(&vec![0, 0, 1, 1]), Species::Hybrid);
    assert_eq!(Species::classify(&vec![0, 0, 5]), Species::Explorer);
    assert_eq!(count_ternary(&vec![0, 0, 5, 2, 9]), [2, 0, 1]);
}

#[test]
fn tracker_queries() {
    let mut tracker = SpeciesTracker::new();
    assert_eq!(tracker.dominant(), None);
    assert_eq!(tracker.diversity(), 0);
    assert_eq!(tracker.generations(), 0);
    assert!(!tracker.is_stable(0));
    let counts = tracker.record(&vec![vec![1u8, 1], vec![0u8, 0], vec![0u8, 1]]);
    assert_eq!(counts, (1, 1, 0, 1));
    assert_eq!(tracker.dominant(), Some(Species::Explorer));
    assert_eq!(tracker.diversity(), 3);
    tracker.record(&vec![vec![2u8, 2]]);
    assert_eq!(tracker.dominant(), Some(Species::Warrior));
    assert_eq!(tracker.generations(), 2);
    assert!(tracker.is_stable(0));
    assert!(tracker.is_stable(1));
    assert!(!tracker.is_stable(2));
    let d = SpeciesTracker::default();
    assert!(d.history.is_empty());
}

#[test]
fn plateau_counts_trailing_flat_steps() {
    assert_eq!(plateau_generations(&vec![]), 0);
    assert_eq!(plateau_generations(&vec![true, false, true, true]), 2);
    assert_eq!(plateau_generations(&vec![true, true, false]), 0);
}

#[test]
fn convergence_reasons() {
    let mut stable = SpeciesTracker::new();
    for _ in 0..3 {
        stable.record(&vec![vec![0u8]]);
    }
    let none = SpeciesTracker::new();
    let both = ConvergenceStatus::assess(&vec![true, true], 2, &stable, 2);
    assert!(both.converged);
    assert_eq!(both.reason.as_deref(), Some("Both fitness plateau and species stability"));
    let plateau = ConvergenceStatus::assess(&vec![true, true], 2, &none, 2);
    assert_eq!(plateau.reason.as_deref(), Some("Fitness plateau"));
    let species = ConvergenceStatus::assess(&vec![true], 2, &stable, 2);
    assert!(species.converged);
    assert_eq!(species.reason.as_deref(), Some("Species stabilization"));
    assert_eq!(species.plateau_generations, 1);
    let no = ConvergenceStatus::assess(&vec![true], 2, &none, 2);
    assert!(!no.converged);
    assert_eq!(no.reason, None);
}

#[test]
fn next_generation_keeps_elites_and_size() {
    let plan = MutationPlan { point_threshold: 1u64 << 31, crossover: CrossoverMethod::SinglePoint, crossover_threshold: 1u64 << 31 };
    let ranked = vec![vec![2u8, 2, 2], vec![1u8, 1, 1], vec![0u8, 0, 0], vec![0u8, 1, 2], vec![2u8, 1, 0]];
    let parents = vec![vec![2u8, 2, 2], vec![2u8, 2, 2], vec![1u8, 1, 1]];
    let mut rng = SimpleRng::from_seed(42);
    let next = plan.next_generation(&ranked, &parents, 2, &mut rng);
    assert_eq!(next.len(), 5);
    assert_eq!(next[0], ranked[0]);
    assert_eq!(next[1], ranked[1]);
    assert!(next.iter().all(|s| s.len() == 3 && s.iter().all(|&v| v <= 2)));

    let mut rng2 = SimpleRng::from_seed(42);
    let mut check = rng2.clone();
    let all_elite = plan.next_generation(&ranked, &parents, 9, &mut rng2);
    assert_eq!(all_elite, ranked);
    assert_eq!(rng2.next_u32(), check.next_u32());
}

#[test]
fn next_generation_replays_breeding_rounds() {
    let plan = MutationPlan { point_threshold: 1u64 << 30, crossover: CrossoverMethod::Uniform, crossover_threshold: 3u64 << 30 };
    let ranked = vec![vec![0u8, 0, 0, 0]; 4];
    let parents = vec![vec![0u8, 1, 2, 0], vec![2u8, 2, 1, 1], vec![1u8, 0, 0, 2]];
    let mut rng = SimpleRng::from_seed(17);
    let mut check = rng.clone();
    let next = plan.next_generation(&ranked, &parents, 1, &mut rng);
    // Elite 1, then rounds over parents (0, 1) and (2, 0); the last second child is dropped.
    let (mut a, mut b) = plan.crossover(&parents[0], &parents[1], &mut check);
    plan.point_mutate(&mut a, &mut check);
    plan.point_mutate(&mut b, &mut check);
    let (mut c, mut d) = plan.crossover(&parents[2], &parents[0], &mut check);
    plan.point_mutate(&mut c, &mut check);
    plan.point_mutate(&mut d, &mut check);
    assert_eq!(next, vec![ranked[0].clone(), a, b, c]);
    assert_eq!(rng.next_u32(), check.next_u32());
}

#[test]
fn crossover_fits_longer_first_parent_only_without_exchange() {
    let full = 1u64 << 32;
    let rng = SimpleRng::from_seed(4);
    let no_cross = MutationPlan { point_threshold: 0, crossover: CrossoverMethod::SinglePoint, crossover_threshold: 0 };
    assert!(no_cross.crossover_fits(5, 2, &rng));
    let single = MutationPlan { point_threshold: 0, crossover: CrossoverMethod::SinglePoint, crossover_threshold: full };
    assert!(!single.crossover_fits(3, 2, &rng));
    assert!(single.crossover_fits(1, 0, &rng));
    assert!(single.crossover_fits(2, 2, &rng));
    let mut r = rng.clone();
    let (x, y) = single.crossover(&vec![1u8], &vec![], &mut r);
    assert_eq!(x, vec![1]);
    assert!(y.is_empty());
    // Uniform: fits exactly when no position past the second parent draws an exchange.
    let uniform = MutationPlan { point_threshold: 0, crossover: CrossoverMethod::Uniform, crossover_threshold: full };
    for seed in 1..30u64 {
        let rng = SimpleRng::from_seed(seed);
        let mut sim = rng.clone();
        sim.next_u32();
        let mut expected = true;
        for i in 0..6 {
            let d = sim.next_u32() as u64;
            if i >= 3 && d < HALF_DRAW {
                expected = false;
            }
        }
        assert_eq!(uniform.crossover_fits(6, 3, &rng), expected);
    }
}

#[test]
fn next_generation_fits_parents_of_one_length_and_detects_overreach() {
    let plan = MutationPlan { point_threshold: 0, crossover: CrossoverMethod::SinglePoint, crossover_threshold: 1u64 << 32 };
    let rng = SimpleRng::from_seed(6);
    let even = vec![vec![0u8, 1, 2]; 3];
    assert!(plan.next_generation_fits(5, &even, 1, &rng));
    // Round 0 crosses parents 0 and 1: the first is longer than 1 and than the second.
    let uneven = vec![vec![0u8, 1, 2], vec![1u8]];
    assert!(!plan.next_generation_fits(4, &uneven, 0, &rng));
    // Everything elite: no round, nothing to fit.
    assert!(plan.next_generation_fits(2, &uneven, 2, &rng));
    // Shorter first parents fit: rounds cross (1-long, 3-long) pairs only.
    let short_first = vec![vec![2u8], vec![0u8, 1, 2]];
    assert!(plan.next_generation_fits(3, &short_first, 0, &rng));
    let mut r = rng.clone();
    let next = plan.next_generation(&vec![vec![0u8]; 3], &short_first, 0, &mut r);
    assert_eq!(next.len(), 3);
}

#[test]
fn early_stop_after_five_generations() {
    assert_eq!(early_stop(true, 5), None);
    assert_eq!(early_stop(true, 6), Some(7));
    assert_eq!(early_stop(false, 50), None);
}

#[test]
fn convergence_with_an_empty_species_window() {
    let mut tracker = SpeciesTracker::new();
    let none = ConvergenceStatus::assess(&vec![], 3, &tracker, 0);
    assert!(!none.converged);
    tracker.record(&vec![vec![1u8]]);
    let status = ConvergenceStatus::assess(&vec![], 3, &tracker, 0);
    assert!(status.converged);
    assert_eq!(status.reason.as_deref(), Some("Species stabilization"));
}
