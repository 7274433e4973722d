use boerse::bars::{DailyBar, OHLC};
use boerse::errors::CoreError;
use boerse::pipeline::{run_pipeline, PipelineConfig, PipelineResult};

fn bar(day: u64, open: u64, high: u64, low: u64, close: u64) -> DailyBar {
    DailyBar { day, ohlc: OHLC { open, high, low, close } }
}

fn instrument_a() -> Vec<DailyBar> {
    (1..=8u64).map(|d| bar(d, 100 + d, 110 + d, 90 + d, 100 + 2 * d)).collect()
}

fn instrument_b() -> Vec<DailyBar> {
    (1..=8u64).map(|d| bar(d, 200 + 3 * d, 230 + d, 180, 200 + d)).collect()
}

fn cfg() -> PipelineConfig {
    PipelineConfig {
        grid_rows: 3,
        grid_cols: 3,
        eta0: 500_000,
        radius0: 1_000_000,
        iters: 100,
        seed: 42,
        threshold: 1,
    }
}

#[test]
fn pipeline_end_to_end() {
    let data = vec![instrument_a(), instrument_b()];
    let p: PipelineResult = run_pipeline(&data, cfg()).unwrap();
    // 8 bars give 7 normalized entries per instrument, all on shared
    // dates, so 7 aligned rows.
    assert_eq!(p.rows.len(), 7);
    assert_eq!(p.rows[0].features.len(), 5 + 4 * 2);
    assert_eq!(p.winners.len(), 7);
    for &w in &p.winners {
        assert!(w < 9);
    }
    assert_eq!(p.averages.len(), 9);
    assert_eq!(p.activations.len(), 9);
    let total: u64 = p.activations.iter().sum();
    assert_eq!(total, 7);
    // Every winner has a cluster average.
    for &w in &p.winners {
        assert!(p.averages[w].is_some());
    }
}

#[test]
fn pipeline_is_reproducible() {
    let data = vec![instrument_a(), instrument_b()];
    let p1 = run_pipeline(&data, cfg()).unwrap();
    let p2 = run_pipeline(&data, cfg()).unwrap();
    assert_eq!(p1.som.weights, p2.som.weights);
    assert_eq!(p1.winners, p2.winners);
    match (&p1.forecast, &p2.forecast) {
        (None, None) => {},
        (Some(a), Some(b)) => {
            assert_eq!(a.estimate, b.estimate);
            assert_eq!(a.ratios, b.ratios);
        },
        _ => panic!("forecasts differ between identical runs"),
    }
}

#[test]
fn pipeline_single_aligned_row() {
    // Two bars per instrument leave a single aligned row: the winner
    // sequence has length 1, the transition table is empty, and the
    // forecaster reports "no data".
    let data = vec![
        vec![bar(1, 100, 110, 90, 100), bar(2, 105, 115, 95, 102)],
        vec![bar(1, 200, 210, 190, 200), bar(2, 205, 215, 195, 204)],
    ];
    let p = run_pipeline(&data, cfg()).unwrap();
    assert_eq!(p.rows.len(), 1);
    assert_eq!(p.winners.len(), 1);
    for s in 0..9 {
        for t in 0..9 {
            assert_eq!(p.table.get_count(s, t), 0);
        }
    }
    assert!(p.forecast.is_none());
}

#[test]
fn pipeline_without_instruments_is_empty_input() {
    assert!(matches!(run_pipeline(&vec![], cfg()), Err(CoreError::EmptyInput)));
}

#[test]
fn pipeline_disjoint_instruments_is_empty_input() {
    let a: Vec<DailyBar> = (1..=4u64).map(|d| bar(d, 100, 110, 90, 100)).collect();
    let b: Vec<DailyBar> = (11..=14u64).map(|d| bar(d, 100, 110, 90, 100)).collect();
    assert!(matches!(run_pipeline(&vec![a, b], cfg()), Err(CoreError::EmptyInput)));
}

#[test]
fn pipeline_rejects_zero_close() {
    let a = vec![bar(1, 100, 110, 90, 0), bar(2, 105, 115, 95, 102)];
    let b = vec![bar(1, 200, 210, 190, 200), bar(2, 205, 215, 195, 204)];
    assert!(matches!(run_pipeline(&vec![a, b], cfg()), Err(CoreError::InvalidInput)));
}

#[test]
fn pipeline_rejects_bad_grid() {
    let data = vec![instrument_a(), instrument_b()];
    let mut c = cfg();
    c.grid_rows = 0;
    assert!(matches!(run_pipeline(&data, c), Err(CoreError::InvalidInput)));
}
