use boerse::bars::{normalize_bar, normalize_series, denorm_ratio, DailyBar, OHLC};
use boerse::errors::CoreError;

#[test]
fn normalize_exact_values() {
    let bar = OHLC { open: 110, high: 120, low: 90, close: 100 };
    let v = normalize_bar(&bar, 100).unwrap();
    // (1.10 - 1) * 20 = 2.0, (1.20 - 1) * 20 = 4.0,
    // (0.90 - 1) * 20 = -2.0, (1.00 - 1) * 20 = 0.0, all at scale 1e6.
    assert_eq!(v, vec![2_000_000, 4_000_000, -2_000_000, 0]);
}

#[test]
fn normalize_rejects_zero_previous_close() {
    let bar = OHLC { open: 110, high: 120, low: 90, close: 100 };
    assert_eq!(normalize_bar(&bar, 0), Err(CoreError::InvalidInput));
}

#[test]
fn normalize_rejects_unrepresentable_ratio() {
    // 1001 times the previous close exceeds the ratio cap of 1000.
    let bar = OHLC { open: 100_100, high: 100_100, low: 100_100, close: 100_100 };
    assert_eq!(normalize_bar(&bar, 100), Err(CoreError::InvalidInput));
    // Exactly 1000 times the previous close is still representable.
    let bar2 = OHLC { open: 100_000, high: 100_000, low: 100_000, close: 100_000 };
    assert!(normalize_bar(&bar2, 100).is_ok());
}

#[test]
fn normalize_round_trip_recovers_ratios() {
    // De-normalizing recovers the fixed-point ratio floor(1e6 * x / lc)
    // exactly, i.e. the true ratio to within one part in 1e6.
    let cases: [(u64, u64); 5] = [(12345, 9999), (110, 100), (1, 7), (999_983, 3100), (50, 200)];
    for (x, lc) in cases {
        let bar = OHLC { open: x, high: x, low: x, close: x };
        let v = normalize_bar(&bar, lc).unwrap();
        let recovered = denorm_ratio(v[0]);
        let expected = ((1_000_000u128 * x as u128) / lc as u128) as u64;
        assert_eq!(recovered, expected);
    }
}

#[test]
fn normalize_series_pairs_with_previous_close() {
    let bars = vec![
        DailyBar { day: 1, ohlc: OHLC { open: 95, high: 105, low: 90, close: 100 } },
        DailyBar { day: 2, ohlc: OHLC { open: 110, high: 120, low: 90, close: 100 } },
        DailyBar { day: 3, ohlc: OHLC { open: 100, high: 200, low: 50, close: 100 } },
    ];
    let s = normalize_series(&bars).unwrap();
    // The first bar only supplies a previous close.
    assert_eq!(s.len(), 2);
    assert_eq!(s[0].day, 2);
    assert_eq!(s[0].vals, vec![2_000_000, 4_000_000, -2_000_000, 0]);
    assert_eq!(s[1].day, 3);
    assert_eq!(s[1].vals, vec![0, 20_000_000, -10_000_000, 0]);
}

#[test]
fn normalize_series_short_inputs() {
    assert_eq!(normalize_series(&vec![]).unwrap().len(), 0);
    let one = vec![DailyBar { day: 1, ohlc: OHLC { open: 1, high: 1, low: 1, close: 1 } }];
    assert_eq!(normalize_series(&one).unwrap().len(), 0);
}

#[test]
fn normalize_series_rejects_zero_close() {
    let bars = vec![
        DailyBar { day: 1, ohlc: OHLC { open: 95, high: 105, low: 90, close: 0 } },
        DailyBar { day: 2, ohlc: OHLC { open: 110, high: 120, low: 90, close: 100 } },
    ];
    assert!(matches!(normalize_series(&bars), Err(CoreError::InvalidInput)));
}
