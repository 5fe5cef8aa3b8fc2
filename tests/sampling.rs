use sorteador::checks::{compute_trios, compute_two_pairs, count_draws};
use sorteador::sampler::Sorteador;
use sorteador::table::{ConstructionError, DistributionTable};

enum CheckMethod {
    Trio,
    TwoPairs,
}

fn simulate_with_weights(sorteador: &mut Sorteador, method: CheckMethod) -> f64 {
    let n_iterations = 1000000;
    let count = match method {
        CheckMethod::Trio => compute_trios(sorteador, n_iterations),
        CheckMethod::TwoPairs => compute_two_pairs(sorteador, n_iterations),
    };
    count as f64 / n_iterations as f64
}

fn simulate_multiple_draws(sorteador: &mut Sorteador, n_iterations: usize) -> Vec<f64> {
    let counts = count_draws(sorteador, n_iterations);
    counts.iter().map(|&c| c as f64 / n_iterations as f64).collect()
}

#[test]
fn test_honest_coin() {
    let weights = vec![1, 1];
    let mut sorteador = Sorteador::new(weights).unwrap();
    let trio_value = simulate_with_weights(&mut sorteador, CheckMethod::Trio);
    let two_pairs_value = simulate_with_weights(&mut sorteador, CheckMethod::TwoPairs);
    println!("Moeda: trio: {} pares: {}", trio_value, two_pairs_value);
    assert!((two_pairs_value - trio_value).abs() < 0.05);
}

#[test]
fn test_honest_die() {
    let weights = vec![1, 1, 1, 1, 1, 1];
    let mut sorteador = Sorteador::new(weights).unwrap();
    let trio_value = simulate_with_weights(&mut sorteador, CheckMethod::Trio);
    let two_pairs_value = simulate_with_weights(&mut sorteador, CheckMethod::TwoPairs);
    println!("Dado: trio: {} pares: {}", trio_value, two_pairs_value);
    assert!((two_pairs_value - trio_value).abs() < 0.05);
}

#[test]
fn test_consistency() {
    let weights = vec![1, 1, 1, 1, 1];
    let mut sorteador = Sorteador::new(weights).unwrap();
    let n_iterations = 100000;
    let result = simulate_multiple_draws(&mut sorteador, n_iterations);
    println!("{:?}", result);
    assert_eq!(result.len(), 5);
    for i in 0..result.len() {
        assert!((result[i] - 0.2).abs() < 0.05);
    }
}

#[test]
fn coin_frequencies_converge() {
    let mut sorteador = Sorteador::with_seed(vec![1, 1], 7).unwrap();
    let result = simulate_multiple_draws(&mut sorteador, 1000000);
    for f in result {
        assert!(f >= 0.45 && f <= 0.55);
    }
}

#[test]
fn weighted_frequencies_follow_weights() {
    let mut sorteador = Sorteador::with_seed(vec![1, 3], 11).unwrap();
    let result = simulate_multiple_draws(&mut sorteador, 100000);
    assert!((result[0] - 0.25).abs() < 0.05);
    assert!((result[1] - 0.75).abs() < 0.05);
}

#[test]
fn single_weight_is_refused() {
    assert_eq!(
        DistributionTable::construct_probabilities(vec![5]).err(),
        Some(ConstructionError::TooFewWeights)
    );
    assert!(matches!(Sorteador::new(vec![5]), Err(ConstructionError::TooFewWeights)));
    assert!(matches!(Sorteador::new(vec![]), Err(ConstructionError::TooFewWeights)));
}

#[test]
fn all_zero_weights_are_refused() {
    assert!(matches!(Sorteador::new(vec![0, 0, 0]), Err(ConstructionError::ZeroTotalWeight)));
}

#[test]
fn overflowing_total_is_refused() {
    assert!(matches!(
        Sorteador::with_seed(vec![usize::MAX, 1], 1),
        Err(ConstructionError::TotalWeightOverflow)
    ));
}

#[test]
fn cumulative_table_is_prefix_sums() {
    let t = DistributionTable::construct_probabilities(vec![1, 2, 0, 3]).unwrap();
    assert_eq!(t.cumulative(), &vec![1, 3, 3, 6]);
    assert_eq!(t.weights(), &vec![1, 2, 0, 3]);
    assert_eq!(t.len(), 4);
    let last = *t.cumulative().last().unwrap() as f64;
    let probabilities: Vec<f64> = t.cumulative().iter().map(|&c| c as f64 / last).collect();
    assert!((probabilities[3] - 1.0).abs() < 1e-9);
    for i in 1..probabilities.len() {
        assert!(probabilities[i - 1] <= probabilities[i]);
    }
}

#[test]
fn draw_equal_to_first_entry_selects_first() {
    let t = DistributionTable::construct_probabilities(vec![1, 1]).unwrap();
    assert_eq!(t.choose_value(1u64 << 63), 0);
    assert_eq!(t.choose_value(0), 0);
    assert_eq!(t.choose_value((1u64 << 63) + 1), 1);
}

#[test]
fn largest_draw_selects_last() {
    let t = DistributionTable::construct_probabilities(vec![1, 1, 1, 1]).unwrap();
    assert_eq!(t.choose_value(u64::MAX), 3);
    let t = DistributionTable::construct_probabilities(vec![1000, 1]).unwrap();
    assert_eq!(t.choose_value(u64::MAX), 1);
}

#[test]
fn ties_go_to_the_lower_index() {
    let t = DistributionTable::construct_probabilities(vec![1, 0, 1]).unwrap();
    assert_eq!(t.choose_value(1u64 << 63), 0);
    assert_eq!(t.choose_value((1u64 << 63) + 1), 2);
    let t = DistributionTable::construct_probabilities(vec![1, 0]).unwrap();
    assert_eq!(t.choose_value(u64::MAX), 0);
}

#[test]
fn search_matches_linear_scan() {
    let t = DistributionTable::construct_probabilities(vec![3, 0, 5, 1, 0, 7, 2]).unwrap();
    let c = t.cumulative().clone();
    let total = *c.last().unwrap() as u128;
    let scale: u128 = 1u128 << 64;
    let mut x: u64 = 0;
    for _ in 0..5000 {
        let expected = c
            .iter()
            .position(|&e| (x as u128) * total <= (e as u128) * scale)
            .unwrap();
        assert_eq!(t.choose_value(x), expected);
        x = x.wrapping_add(0x0034_5678_9abc_def1);
    }
}

#[test]
fn samples_stay_in_range() {
    let mut sorteador = Sorteador::with_seed(vec![2, 0, 5, 1], 3).unwrap();
    for _ in 0..10000 {
        let s = sorteador.sample();
        assert!(s < 4);
        assert_ne!(s, 1);
    }
    assert_eq!(sorteador.table().cumulative(), &vec![2, 2, 7, 8]);
}

#[test]
fn draws_vary_and_cover_every_weighted_category() {
    let mut sorteador = Sorteador::with_seed(vec![1, 1, 1], 5).unwrap();
    let counts = count_draws(&mut sorteador, 3000);
    assert_eq!(counts.iter().sum::<usize>(), 3000);
    assert!(counts.iter().all(|&c| c > 0));
}

#[test]
fn same_seed_same_draws() {
    let mut a = Sorteador::with_seed(vec![1, 2, 3, 4], 42).unwrap();
    let mut b = Sorteador::with_seed(vec![1, 2, 3, 4], 42).unwrap();
    let da: Vec<usize> = (0..200).map(|_| a.sample()).collect();
    let db: Vec<usize> = (0..200).map(|_| b.sample()).collect();
    assert_eq!(da, db);
}

#[test]
fn certain_outcome_counts_every_trial() {
    let mut sorteador = Sorteador::with_seed(vec![1, 0], 9).unwrap();
    assert_eq!(compute_trios(&mut sorteador, 1000), 1000);
    assert_eq!(compute_two_pairs(&mut sorteador, 1000), 1000);
    assert_eq!(count_draws(&mut sorteador, 50), vec![50, 0]);
}

#[test]
fn zero_iterations_count_nothing() {
    let mut sorteador = Sorteador::with_seed(vec![1, 1], 9).unwrap();
    assert_eq!(compute_trios(&mut sorteador, 0), 0);
    assert_eq!(compute_two_pairs(&mut sorteador, 0), 0);
    assert_eq!(count_draws(&mut sorteador, 0), vec![0, 0]);
}

#[test]
fn coin_trio_and_two_pairs_near_quarter() {
    let mut sorteador = Sorteador::with_seed(vec![1, 1], 13).unwrap();
    let trio = compute_trios(&mut sorteador, 100000) as f64 / 100000.0;
    let pairs = compute_two_pairs(&mut sorteador, 100000) as f64 / 100000.0;
    assert!((trio - 0.25).abs() < 0.05);
    assert!((pairs - 0.25).abs() < 0.05);
}
