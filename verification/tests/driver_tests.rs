use forest_fire::driver::{
    AvgRecord, Config, ConfigError, SeederKind, TrialRecord, calculate_avg_data,
    calculate_most_optimal_density, run_experiment, run_sweep, run_trial,
};
use rand::SeedableRng;
use rand::rngs::StdRng;

#[test]
fn config_rejects_each_bad_input_with_its_own_error() {
    assert_eq!(
        Config::new(0, 5, 10, 3, SeederKind::ExactCount),
        Err(ConfigError::NonPositiveRows)
    );
    assert_eq!(
        Config::new(5, 0, 10, 3, SeederKind::ExactCount),
        Err(ConfigError::NonPositiveCols)
    );
    assert_eq!(
        Config::new(5, 5, 0, 3, SeederKind::ExactCount),
        Err(ConfigError::NonPositiveDensityStep)
    );
    assert_eq!(
        Config::new(5, 5, 10, 0, SeederKind::ExactCount),
        Err(ConfigError::ZeroTrials)
    );
    assert_eq!(
        Config::new(usize::MAX, 2, 10, 3, SeederKind::ExactCount),
        Err(ConfigError::GridTooLarge)
    );
    let cfg = Config::new(5, 6, 10, 3, SeederKind::ExactCount).unwrap();
    assert_eq!(cfg.rows, 5);
    assert_eq!(cfg.cols, 6);
    assert_eq!(cfg.density_step, 10);
    assert_eq!(cfg.trials, 3);
}

#[test]
fn zero_density_trial_is_skipped() {
    let mut rng = StdRng::seed_from_u64(8);
    assert_eq!(run_trial(4, 4, 0, SeederKind::ExactCount, &mut rng), None);
    assert_eq!(
        run_trial(4, 4, 0, SeederKind::IndependentProbability, &mut rng),
        None
    );
}

#[test]
fn trial_burns_between_one_tree_and_the_target() {
    for seed in [1u64, 2, 3, 50] {
        let mut rng = StdRng::seed_from_u64(seed);
        let burned = run_trial(6, 6, 50, SeederKind::ExactCount, &mut rng).unwrap();
        assert!(burned >= 1);
        assert!(burned <= 18);
        let burned2 = run_trial(6, 6, 50, SeederKind::IndependentProbability, &mut rng).unwrap();
        assert!(burned2 >= 1);
        assert!(burned2 <= 18);
    }
}

#[test]
fn full_density_trial_burns_everything() {
    let mut rng = StdRng::seed_from_u64(4);
    let burned = run_trial(4, 4, 100, SeederKind::ExactCount, &mut rng).unwrap();
    assert_eq!(burned, 16);
}

#[test]
fn sweep_lays_trials_out_by_round_and_density() {
    let mut rng = StdRng::seed_from_u64(21);
    let cfg = Config::new(2, 2, 25, 2, SeederKind::ExactCount).unwrap();
    let data = run_sweep(&cfg, &mut rng);
    assert_eq!(data.len(), 8);
    let expected = [25, 50, 75, 100, 25, 50, 75, 100];
    for (j, rec) in data.iter().enumerate() {
        assert_eq!(rec.density, expected[j]);
        assert!(rec.burned >= 1);
        assert!(rec.burned <= 4);
    }
}

#[test]
fn sweep_with_step_over_100_is_empty() {
    let mut rng = StdRng::seed_from_u64(21);
    let cfg = Config::new(2, 2, 150, 2, SeederKind::ExactCount).unwrap();
    let data = run_sweep(&cfg, &mut rng);
    assert!(data.is_empty());
}

#[test]
fn averaging_groups_by_exact_density_and_sorts() {
    let data = vec![
        TrialRecord { density: 60, burned: 2 },
        TrialRecord { density: 30, burned: 5 },
        TrialRecord { density: 30, burned: 7 },
    ];
    let avg = calculate_avg_data(&data);
    assert_eq!(avg.len(), 2);
    assert_eq!(avg[0].density, 30);
    assert_eq!(avg[0].burned_sum, 12);
    assert_eq!(avg[0].trials, 2);
    assert_eq!(avg[1].density, 60);
    assert_eq!(avg[1].burned_sum, 2);
    assert_eq!(avg[1].trials, 1);
}

#[test]
fn optimal_density_maximizes_surviving_trees() {
    // 10 x 10 grid: density 10 seeds 10 trees, density 20 seeds 20.
    let avg = vec![
        AvgRecord { density: 10, burned_sum: 5, trials: 1 },
        AvgRecord { density: 20, burned_sum: 4, trials: 1 },
    ];
    let best = calculate_most_optimal_density(&(10, 10), &avg);
    assert_eq!(best.density, 20);
    assert_eq!(best.surviving_sum, 16);
    assert_eq!(best.trials, 1);
}

#[test]
fn optimal_density_tie_keeps_the_first_record() {
    // Both densities average 8 surviving trees on the 10 x 10 grid.
    let avg = vec![
        AvgRecord { density: 10, burned_sum: 2, trials: 1 },
        AvgRecord { density: 20, burned_sum: 12, trials: 1 },
    ];
    let best = calculate_most_optimal_density(&(10, 10), &avg);
    assert_eq!(best.density, 10);
    assert_eq!(best.surviving_sum, 8);
}

#[test]
fn optimal_density_averages_over_trials() {
    // Density 50 on 2 x 2 seeds 2 trees. Two trials burning 1 and 2
    // trees average half a surviving tree, beating density 100, whose
    // 4 trees always all burn.
    let avg = vec![
        AvgRecord { density: 50, burned_sum: 3, trials: 2 },
        AvgRecord { density: 100, burned_sum: 8, trials: 2 },
    ];
    let best = calculate_most_optimal_density(&(2, 2), &avg);
    assert_eq!(best.density, 50);
    assert_eq!(best.surviving_sum, 1);
    assert_eq!(best.trials, 2);
}

#[test]
fn experiment_reports_series_and_optimal_density() {
    let mut rng = StdRng::seed_from_u64(6);
    let cfg = Config::new(3, 3, 50, 2, SeederKind::ExactCount).unwrap();
    let (series, best) = run_experiment(&cfg, &mut rng);
    assert_eq!(series.len(), 2);
    assert_eq!(series[0].density, 50);
    assert_eq!(series[0].trials, 2);
    assert_eq!(series[1].density, 100);
    assert_eq!(series[1].trials, 2);
    // A fully seeded 3 x 3 grid always burns down completely.
    assert_eq!(series[1].burned_sum, 18);
    // Density 50 seeds 5 trees per trial and cannot do worse than
    // density 100's zero survivors, and on a tie the lower density
    // wins, so it is always the reported optimum.
    let best = best.unwrap();
    assert_eq!(best.density, 50);
    assert_eq!(best.trials, 2);
    assert_eq!(best.surviving_sum, 10 - series[0].burned_sum);
}

#[test]
fn experiment_with_step_over_100_has_no_optimum() {
    let mut rng = StdRng::seed_from_u64(6);
    let cfg = Config::new(3, 3, 101, 2, SeederKind::IndependentProbability).unwrap();
    let (series, best) = run_experiment(&cfg, &mut rng);
    assert!(series.is_empty());
    assert!(best.is_none());
}
