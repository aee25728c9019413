use avail_lc_sim::{ExperimentConfig, SampleStrategy, N_EXPERIMENTS};

#[test]
fn probability_is_within_unit_interval() {
    let cfg = ExperimentConfig {
        n: 4,
        dims: 2,
        n_clients: 10,
        n_censored: 5,
        n_samples: 3,
        sample_strategy: SampleStrategy::RandomPoints,
    };
    let hits = cfg.run();
    assert!(hits <= N_EXPERIMENTS);
    let prob = hits as f64 / N_EXPERIMENTS as f64;
    assert!(0.0 <= prob && prob <= 1.0);
}

#[test]
fn no_censorship_trends_to_certainty() {
    // 50 clients each drawing 20 points on an 8-cell grid: every trial is
    // all but certain to reconstruct
    let cfg = ExperimentConfig {
        n: 2,
        dims: 1,
        n_clients: 50,
        n_censored: 0,
        n_samples: 20,
        sample_strategy: SampleStrategy::RandomPoints,
    };
    let hits = cfg.run();
    assert!(hits >= 490);
}

#[test]
fn full_censorship_blocks_reconstruction_1d() {
    // with every client censored the mask keeps the target column below
    // its threshold in every trial
    let cfg = ExperimentConfig {
        n: 4,
        dims: 1,
        n_clients: 20,
        n_censored: 20,
        n_samples: 10,
        sample_strategy: SampleStrategy::RandomPoints,
    };
    assert_eq!(cfg.run(), 0);
}

#[test]
fn full_censorship_blocks_reconstruction_2d() {
    let cfg = ExperimentConfig {
        n: 4,
        dims: 2,
        n_clients: 20,
        n_censored: 20,
        n_samples: 10,
        sample_strategy: SampleStrategy::RandomPoints,
    };
    assert_eq!(cfg.run(), 0);
}

#[test]
fn zero_clients_estimate_is_zero() {
    for dims in [1, 2] {
        let cfg = ExperimentConfig {
            n: 4,
            dims,
            n_clients: 0,
            n_censored: 0,
            n_samples: 10,
            sample_strategy: SampleStrategy::RandomPoints,
        };
        assert_eq!(cfg.run(), 0);
    }
}

#[test]
fn zero_samples_estimate_is_zero() {
    for dims in [1, 2] {
        let cfg = ExperimentConfig {
            n: 4,
            dims,
            n_clients: 10,
            n_censored: 5,
            n_samples: 0,
            sample_strategy: SampleStrategy::RandomPoints,
        };
        assert_eq!(cfg.run(), 0);
    }
}

#[test]
fn box_strategy_simulation_runs() {
    let cfg = ExperimentConfig {
        n: 4,
        dims: 2,
        n_clients: 8,
        n_censored: 4,
        n_samples: 2,
        sample_strategy: SampleStrategy::Box { width: 4, height: 2 },
    };
    let hits = cfg.run();
    assert!(hits <= N_EXPERIMENTS);
}
