use boerse::align::AlignedRow;
use boerse::cluster::cluster_averages;
use boerse::forecast::forecast_next;
use boerse::markov::build_transitions;

const S: i64 = 1_000_000;

#[test]
fn transition_counts_match_observed_pairs() {
    let ws: Vec<usize> = vec![0, 1, 0, 1];
    let tbl = build_transitions(&ws, 3);
    assert_eq!(tbl.get_count(0, 1), 2);
    assert_eq!(tbl.get_count(1, 0), 1);
    assert_eq!(tbl.get_count(0, 0), 0);
    assert_eq!(tbl.get_count(2, 1), 0);
}

#[test]
fn transition_counts_are_conserved() {
    // For every source s, the counts out of s sum to the number of
    // times s appears as a predecessor in the winner sequence.
    let ws: Vec<usize> = vec![0, 1, 2, 0, 1, 0, 0, 2, 1];
    let n: usize = 3;
    let tbl = build_transitions(&ws, n);
    for s in 0..n {
        let mut out_sum: u64 = 0;
        for t in 0..n {
            out_sum += tbl.get_count(s, t);
        }
        let preds = ws[..ws.len() - 1].iter().filter(|&&w| w == s).count() as u64;
        assert_eq!(out_sum, preds);
    }
}

#[test]
fn single_winner_gives_empty_table() {
    let ws: Vec<usize> = vec![4];
    let tbl = build_transitions(&ws, 9);
    for s in 0..9 {
        for t in 0..9 {
            assert_eq!(tbl.get_count(s, t), 0);
        }
    }
}

#[test]
fn cluster_average_is_component_floor_mean() {
    let rows = vec![
        AlignedRow { day: 1, features: vec![0, 0, 0, 0, 0, 10, -3] },
        AlignedRow { day: 2, features: vec![0, 0, 0, 0, 0, 13, -4] },
    ];
    let ws: Vec<usize> = vec![3, 3];
    let avgs = cluster_averages(&rows, &ws, 4, 7);
    assert_eq!(avgs.len(), 4);
    // Neurons that won no row are absent.
    assert!(avgs[0].is_none());
    assert!(avgs[1].is_none());
    assert!(avgs[2].is_none());
    // The mean rounds down: (10 + 13) / 2 = 11, (-3 + -4) / 2 = -4.
    let a = avgs[3].as_ref().unwrap();
    assert_eq!(a[..], [0, 0, 0, 0, 0, 11, -4]);
}

#[test]
fn forecast_weighted_mean_exact() {
    // Two qualifying targets with counts 3 and 5 and cluster averages
    // [1, 2] and [3, 4] (in the ratio components) give the forecast
    // [(3*1 + 5*3) / 8, (3*2 + 5*4) / 8] = [2.25, 3.25].
    let ws: Vec<usize> = vec![0, 1, 0, 1, 0, 1, 0, 2, 0, 2, 0, 2, 0, 2, 0, 2, 0];
    let tbl = build_transitions(&ws, 9);
    assert_eq!(tbl.get_count(0, 1), 3);
    assert_eq!(tbl.get_count(0, 2), 5);
    let mut avgs: Vec<Option<Vec<i64>>> = vec![None; 9];
    avgs[1] = Some(vec![0, 0, 0, 0, 0, 1 * S, 2 * S]);
    avgs[2] = Some(vec![0, 0, 0, 0, 0, 3 * S, 4 * S]);
    let f = forecast_next(&tbl, &avgs, 0, 1, 7).unwrap();
    assert_eq!(f.estimate[5], 2_250_000);
    assert_eq!(f.estimate[6], 3_250_000);
    assert_eq!(f.estimate[..5], [0, 0, 0, 0, 0]);
    // De-normalized ratios: v / 20 + 1 in fixed point.
    assert_eq!(f.ratios.len(), 2);
    assert_eq!(f.ratios[0], 1_112_500);
    assert_eq!(f.ratios[1], 1_162_500);
}

#[test]
fn forecast_excludes_counts_at_the_threshold() {
    // A transition observed exactly once is discarded as noise even if
    // it is the only outgoing transition: the forecast is "no data".
    let ws: Vec<usize> = vec![0, 1, 0];
    let tbl = build_transitions(&ws, 4);
    assert_eq!(tbl.get_count(0, 1), 1);
    let mut avgs: Vec<Option<Vec<i64>>> = vec![None; 4];
    avgs[1] = Some(vec![0, 0, 0, 0, 0, S, S]);
    avgs[0] = Some(vec![0, 0, 0, 0, 0, S, S]);
    assert!(forecast_next(&tbl, &avgs, 0, 1, 7).is_none());
}

#[test]
fn forecast_without_outgoing_transitions_is_no_data() {
    let ws: Vec<usize> = vec![5];
    let tbl = build_transitions(&ws, 9);
    let avgs: Vec<Option<Vec<i64>>> = vec![None; 9];
    assert!(forecast_next(&tbl, &avgs, 5, 1, 7).is_none());
}

#[test]
fn forecast_skips_targets_without_averages() {
    // A target with a large enough count but no cluster average
    // contributes nothing; if no target qualifies the result is
    // "no data".
    let ws: Vec<usize> = vec![0, 1, 0, 1, 0];
    let tbl = build_transitions(&ws, 4);
    assert_eq!(tbl.get_count(0, 1), 2);
    let avgs: Vec<Option<Vec<i64>>> = vec![None; 4];
    assert!(forecast_next(&tbl, &avgs, 0, 1, 7).is_none());
}
