use boerse::align::{align_series, AlignedRow};
use boerse::bars::SeriesPoint;
use boerse::calendar::one_hot;
use boerse::errors::CoreError;

const S: i64 = 1_000_000;

fn point(day: u64, vals: [i64; 4]) -> SeriesPoint {
    SeriesPoint { day, vals: vals.to_vec() }
}

#[test]
fn one_hot_weekdays() {
    // Day 1 (the first day of year 1) is a Monday.
    assert_eq!(one_hot(1), vec![S, 0, 0, 0, 0]);
    assert_eq!(one_hot(2), vec![0, S, 0, 0, 0]);
    assert_eq!(one_hot(5), vec![0, 0, 0, 0, S]);
}

#[test]
fn one_hot_weekend_is_zero() {
    // Saturday and Sunday both map to the all-zero vector.
    assert_eq!(one_hot(6), vec![0, 0, 0, 0, 0]);
    assert_eq!(one_hot(7), vec![0, 0, 0, 0, 0]);
    assert_eq!(one_hot(8), vec![S, 0, 0, 0, 0]);
}

#[test]
fn align_disjoint_dates_is_empty() {
    // Pairwise-disjoint date sets: the aligned dataset is empty.
    let a = vec![point(1, [1, 2, 3, 4]), point(2, [5, 6, 7, 8])];
    let b = vec![point(3, [9, 10, 11, 12]), point(4, [13, 14, 15, 16])];
    let rows = align_series(&vec![a, b]).unwrap();
    assert_eq!(rows.len(), 0);
}

#[test]
fn align_identical_dates_keeps_every_row() {
    // Series sharing exactly the same gap-free date range align
    // completely: the row count equals that range's length.
    let a = vec![point(10, [1, 1, 1, 1]), point(11, [2, 2, 2, 2]), point(12, [3, 3, 3, 3])];
    let b = vec![point(10, [4, 4, 4, 4]), point(11, [5, 5, 5, 5]), point(12, [6, 6, 6, 6])];
    let rows = align_series(&vec![a, b]).unwrap();
    assert_eq!(rows.len(), 3);
    // Dates come out ascending, and each feature vector is the weekday
    // one-hot followed by both instruments' 4-vectors.
    assert_eq!(rows[0].day, 10);
    assert_eq!(rows[1].day, 11);
    assert_eq!(rows[2].day, 12);
    let mut expected = one_hot(11);
    expected.extend_from_slice(&[2, 2, 2, 2]);
    expected.extend_from_slice(&[5, 5, 5, 5]);
    assert_eq!(rows[1].features, expected);
    assert_eq!(rows[0].features.len(), 5 + 4 * 2);
}

#[test]
fn align_keeps_only_shared_dates() {
    let a = vec![point(1, [1, 1, 1, 1]), point(2, [2, 2, 2, 2]), point(3, [3, 3, 3, 3])];
    let b = vec![point(2, [9, 9, 9, 9]), point(3, [8, 8, 8, 8]), point(4, [7, 7, 7, 7])];
    let rows = align_series(&vec![a, b]).unwrap();
    assert_eq!(rows.len(), 2);
    assert_eq!(rows[0].day, 2);
    assert_eq!(rows[1].day, 3);
}

#[test]
fn align_duplicate_date_later_entry_wins() {
    // A duplicated date within a series is overwritten by the
    // later-loaded entry, without error.
    let a = vec![point(5, [1, 1, 1, 1]), point(5, [2, 2, 2, 2])];
    let b = vec![point(5, [3, 3, 3, 3])];
    let rows: Vec<AlignedRow> = align_series(&vec![a, b]).unwrap();
    assert_eq!(rows.len(), 1);
    let mut expected = one_hot(5);
    expected.extend_from_slice(&[2, 2, 2, 2]);
    expected.extend_from_slice(&[3, 3, 3, 3]);
    assert_eq!(rows[0].features, expected);
}

#[test]
fn align_no_series_is_an_error() {
    assert!(matches!(align_series(&vec![]), Err(CoreError::EmptyInput)));
}
