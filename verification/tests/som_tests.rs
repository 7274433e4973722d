use boerse::errors::CoreError;
use boerse::som::{Som, SomConfig};

const S: u64 = 1_000_000;

fn small_cfg() -> SomConfig {
    SomConfig { rows: 3, cols: 3, dim: 5, eta0: S / 2, radius0: S }
}

fn sample_rows() -> Vec<Vec<i64>> {
    vec![
        vec![1_000_000, 0, 0, 0, 0],
        vec![0, 1_000_000, 0, 0, 0],
        vec![0, 0, 1_000_000, 0, 0],
        vec![1_000_000, 0, 0, 500_000, 0],
    ]
}

#[test]
fn create_rejects_bad_config() {
    let mut cfg = small_cfg();
    cfg.rows = 0;
    assert!(matches!(Som::create(cfg, 1), Err(CoreError::InvalidInput)));
    let mut cfg2 = small_cfg();
    cfg2.eta0 = S + 1;
    assert!(matches!(Som::create(cfg2, 1), Err(CoreError::InvalidInput)));
}

#[test]
fn create_builds_full_grid_in_unit_range() {
    let som = Som::create(small_cfg(), 7).unwrap();
    assert_eq!(som.weights.len(), 9);
    for row in &som.weights {
        assert_eq!(row.len(), 5);
        for &w in row {
            assert!(0 <= w && w < 1_000_000);
        }
    }
}

#[test]
fn winner_rejects_dimension_mismatch() {
    let som = Som::create(small_cfg(), 7).unwrap();
    let v = vec![0i64; 4];
    assert!(matches!(som.winner(&v), Err(CoreError::DimensionMismatch)));
}

#[test]
fn winner_is_deterministic() {
    // Querying a frozen grid repeatedly with the same vector always
    // returns the same coordinate.
    let mut som = Som::create(small_cfg(), 7).unwrap();
    som.train(&sample_rows(), 200, 99).unwrap();
    let v = vec![900_000i64, 100_000, 0, 0, 0];
    let first = som.winner(&v).unwrap();
    for _ in 0..10 {
        assert_eq!(som.winner(&v).unwrap(), first);
    }
}

#[test]
fn train_on_empty_dataset_is_a_no_op_error() {
    let mut som = Som::create(small_cfg(), 7).unwrap();
    let before = som.weights.clone();
    let r = som.train(&vec![], 100, 1);
    assert!(matches!(r, Err(CoreError::EmptyInput)));
    assert_eq!(som.weights, before);
}

#[test]
fn train_rejects_dimension_mismatch_unchanged() {
    let mut som = Som::create(small_cfg(), 7).unwrap();
    let before = som.weights.clone();
    let bad = vec![vec![0i64; 5], vec![0i64; 6]];
    let r = som.train(&bad, 100, 1);
    assert!(matches!(r, Err(CoreError::DimensionMismatch)));
    assert_eq!(som.weights, before);
}

#[test]
fn train_is_reproducible_from_the_seed() {
    let mut a = Som::create(small_cfg(), 7).unwrap();
    let mut b = Som::create(small_cfg(), 7).unwrap();
    a.train(&sample_rows(), 500, 42).unwrap();
    b.train(&sample_rows(), 500, 42).unwrap();
    assert_eq!(a.weights, b.weights);
}

#[test]
fn train_single_neuron_single_step_reaches_the_input() {
    // With one neuron, a full learning rate (eta0 = 1.0) and a single
    // iteration, the update rule w + eta * (x - w) moves the weight
    // exactly onto the drawn input row.
    let cfg = SomConfig { rows: 1, cols: 1, dim: 5, eta0: S, radius0: S };
    let mut som = Som::create(cfg, 3).unwrap();
    let x = vec![2_000_000i64, -1_500_000, 0, 750_000, 1];
    som.train(&vec![x.clone()], 1, 11).unwrap();
    assert_eq!(som.weights[0], x);
}

#[test]
fn activation_counts_cover_every_row() {
    let cfg = SomConfig { rows: 1, cols: 1, dim: 5, eta0: S / 2, radius0: S };
    let som = Som::create(cfg, 3).unwrap();
    let counts = som.activation_response(&sample_rows()).unwrap();
    assert_eq!(counts, vec![4]);
    let mut trained = Som::create(small_cfg(), 7).unwrap();
    trained.train(&sample_rows(), 300, 5).unwrap();
    let counts2 = trained.activation_response(&sample_rows()).unwrap();
    assert_eq!(counts2.len(), 9);
    let total: u64 = counts2.iter().sum();
    assert_eq!(total, 4);
}
