use vstd::prelude::*;

use crate::align::{
    align_model, align_series, lemma_align_increasing, lemma_align_rows_shape, rows_model,
    AlignedRow,
};
use crate::bars::{norm_val, normalize_series, series_ok, DailyBar, SeriesPoint};
use crate::cluster::{
    cluster_averages, features_view, sel_sum, win_count, winner_sequence,
};
use crate::errors::CoreError;
use crate::fixp::{in_feat_bounds, SCALE};
use crate::forecast::{forecast_next, Forecast};
use crate::markov::{
    build_transitions, lemma_pred_count_le, pair_count, pred_count, TransitionTable,
};
use crate::som::{
    act_count, config_ok, init_grid, mat_view, train_upto, Som, SomConfig,
};

verus! {

/// Parameters of one pipeline run: the grid shape, the initial
/// learning rate and radius (fixed point), the number of training
/// iterations, the seed of the pseudo-random source (which makes runs
/// reproducible), and the forecaster's noise-rejection threshold
/// (counts must exceed it; 1 is the documented default).
#[derive(Clone, Copy, Debug, PartialEq, Eq, Structural)]
pub struct PipelineConfig {
    pub grid_rows: usize,
    pub grid_cols: usize,
    pub eta0: u64,
    pub radius0: u64,
    pub iters: u64,
    pub seed: u64,
    pub threshold: u64,
}

/// Everything one batch run produces: the aligned dataset, the trained
/// grid, the winner sequence, the cluster averages, the transition
/// table, the diagnostic activation counts, and the forecast.
pub struct PipelineResult {
    pub rows: Vec<AlignedRow>,
    pub som: Som,
    pub winners: Vec<usize>,
    pub averages: Vec<Option<Vec<i64>>>,
    pub table: TransitionTable,
    pub activations: Vec<u64>,
    pub forecast: Option<Forecast>,
}

/// The sequence s is exactly the normalized series of the bar
/// sequence: one entry per bar after the first, carrying that bar's
/// date and its 4-vector normalized against the predecessor's close.
pub open spec fn norm_series_matches(bars: Seq<DailyBar>, s: Seq<SeriesPoint>) -> bool {
    &&& s.len() == if bars.len() == 0 {
        0int
    } else {
        bars.len() - 1
    }
    &&& forall|i: int|
        0 <= i < s.len() ==> {
            &&& (#[trigger] s[i]).day == bars[i + 1].day
            &&& s[i].vals@.len() == 4
            &&& s[i].vals@[0] == norm_val(bars[i + 1].ohlc.open as int, bars[i].ohlc.close as int)
            &&& s[i].vals@[1] == norm_val(bars[i + 1].ohlc.high as int, bars[i].ohlc.close as int)
            &&& s[i].vals@[2] == norm_val(bars[i + 1].ohlc.low as int, bars[i].ohlc.close as int)
            &&& s[i].vals@[3] == norm_val(bars[i + 1].ohlc.close as int, bars[i].ohlc.close as int)
        }
}

/// The configuration is accepted for N instruments: grid and schedule
/// parameters in range, and the feature dimension 5 + 4 * N
/// representable.
pub open spec fn pipeline_config_ok(cfg: PipelineConfig, n: int) -> bool {
    &&& 1 <= cfg.grid_rows <= 1000
    &&& 1 <= cfg.grid_cols <= 1000
    &&& 1 <= cfg.eta0 <= SCALE
    &&& cfg.radius0 <= 1_000_000_000
    &&& 5 + 4 * n <= 1_000_000
}

/// What a successful run guarantees, stage by stage: the rows are the
/// inner join of the normalized instrument series; the grid is the
/// seeded initial grid after exactly `iters` training steps on those
/// rows; the winners, cluster averages, transition counts, activation
/// counts and forecast are each the documented function of the stage
/// before.
pub open spec fn pipeline_ok(
    instruments: Seq<Vec<DailyBar>>,
    cfg: PipelineConfig,
    p: PipelineResult,
) -> bool {
    let n: int = instruments.len() as int;
    let dim: int = 5 + 4 * n;
    let n_states = cfg.grid_rows * cfg.grid_cols;
    let som_cfg = SomConfig {
        rows: cfg.grid_rows,
        cols: cfg.grid_cols,
        dim: dim as usize,
        eta0: cfg.eta0,
        radius0: cfg.radius0,
    };
    let feats = features_view(p.rows@);
    let total = p.rows@.len() as int;
    &&& (exists|series: Seq<Vec<SeriesPoint>>|
        #![trigger align_model(series)]
        {
            &&& series.len() == n
            &&& (forall|j: int|
                0 <= j < n ==> norm_series_matches(instruments[j]@, (#[trigger] series[j])@))
            &&& rows_model(p.rows@) == align_model(series)
        })
    &&& total > 0
    &&& forall|i: int|
        0 <= i < total ==> (#[trigger] p.rows@[i]).features@.len() == dim && in_feat_bounds(
            p.rows@[i].features@,
        )
    &&& forall|a: int, b: int| 0 <= a < b < total ==> p.rows@[a].day < p.rows@[b].day
    &&& p.som.wf()
    &&& p.som.rows == cfg.grid_rows
    &&& p.som.cols == cfg.grid_cols
    &&& p.som.dim == dim
    &&& mat_view(p.som.weights@) == train_upto(
        init_grid(som_cfg, cfg.seed),
        cfg.grid_cols as int,
        feats,
        cfg.eta0,
        cfg.radius0,
        cfg.iters,
        cfg.seed,
        cfg.iters as int,
    )
    &&& p.winners@.len() == total
    &&& forall|i: int|
        0 <= i < total ==> (#[trigger] p.winners@[i]) as int == p.som.spec_winner_idx(
            p.rows@[i].features@,
        ) && p.winners@[i] < n_states
    &&& p.averages@.len() == n_states
    &&& forall|u: int|
        0 <= u < n_states ==> ((#[trigger] p.averages@[u]) is None <==> win_count(
            p.winners@,
            u,
            total,
        ) == 0)
    &&& forall|u: int|
        0 <= u < n_states && (#[trigger] p.averages@[u]) is Some ==> {
            &&& p.averages@[u]->Some_0@.len() == dim
            &&& in_feat_bounds(p.averages@[u]->Some_0@)
            &&& forall|k: int|
                0 <= k < dim ==> p.averages@[u]->Some_0@[k] == sel_sum(
                    feats,
                    p.winners@,
                    u,
                    k,
                    total,
                ) / win_count(p.winners@, u, total)
        }
    &&& p.table.wf()
    &&& p.table.n_states == n_states
    &&& forall|s: int, t: int|
        0 <= s < n_states && 0 <= t < n_states ==> p.table.count(s, t) == pair_count(
            p.winners@,
            s,
            t,
            total,
        )
    &&& forall|s: int|
        0 <= s < n_states ==> p.table.total_from(s) == pred_count(p.winners@, s, total)
    &&& p.activations@.len() == n_states
    &&& forall|q: int|
        0 <= q < n_states ==> p.activations@[q] == act_count(
            mat_view(p.som.weights@),
            feats,
            q,
            total,
        )
    &&& ({
        let w_last = p.winners@[total - 1] as int;
        let entries = p.table.rows@[w_last]@;
        let qual = crate::forecast::wcnt(entries, p.averages@, cfg.threshold, entries.len() as int);
        match p.forecast {
            None => qual == 0,
            Some(f) => {
                &&& qual > 0
                &&& f.estimate@.len() == dim
                &&& in_feat_bounds(f.estimate@)
                &&& forall|k: int|
                    0 <= k < dim ==> f.estimate@[k] == crate::forecast::wsum(
                        entries,
                        p.averages@,
                        cfg.threshold,
                        k,
                        entries.len() as int,
                    ) / qual
                &&& f.ratios@.len() == dim - 5
                &&& forall|k: int|
                    0 <= k < dim - 5 ==> f.ratios@[k] == crate::bars::denorm_val(
                        f.estimate@[k + 5] as int,
                    )
            },
        }
    })
}

/// Runs the whole analytical pipeline as one batch: normalizes every
/// instrument's bars, inner-joins the series on date, trains the
/// self-organizing map on the aligned feature matrix, derives the
/// winner sequence, the cluster averages, the Markov transition table
/// and the activation diagnostics, and produces the count-weighted
/// forecast out of the most recent winner.
///
/// Fails with `EmptyInput` when no instrument is supplied or when the
/// date intersection is empty; with `InvalidInput` when some bar is
/// not representable against its predecessor's close or the
/// configuration is rejected.  Succeeds on every other input.
#[verifier::loop_isolation(false)]
pub fn run_pipeline(instruments: &Vec<Vec<DailyBar>>, cfg: PipelineConfig) -> (r: Result<
    PipelineResult,
    CoreError,
>)
    requires
        forall|j: int, a: int, b: int|
            0 <= j < instruments@.len() && 0 <= a < b < (#[trigger] instruments@[j])@.len()
                ==> ((#[trigger] instruments@[j]@[a]).day <= (#[trigger] instruments@[j]@[b]).day),
        cfg.iters <= 1_000_000_000,
    ensures
        match r {
            Ok(p) => {
                &&& instruments@.len() > 0
                &&& forall|j: int|
                    0 <= j < instruments@.len() ==> series_ok((#[trigger] instruments@[j])@)
                &&& pipeline_config_ok(cfg, instruments@.len() as int)
                &&& pipeline_ok(instruments@, cfg, p)
            },
            Err(e) => {
                ||| (e == CoreError::EmptyInput && instruments@.len() == 0)
                ||| (e == CoreError::InvalidInput && instruments@.len() > 0 && exists|j: int|
                    0 <= j < instruments@.len() && !series_ok((#[trigger] instruments@[j])@))
                ||| (e == CoreError::InvalidInput && instruments@.len() > 0 && (forall|j: int|
                    0 <= j < instruments@.len() ==> series_ok((#[trigger] instruments@[j])@))
                    && !pipeline_config_ok(cfg, instruments@.len() as int))
                ||| (e == CoreError::EmptyInput && instruments@.len() > 0 && (forall|j: int|
                    0 <= j < instruments@.len() ==> series_ok((#[trigger] instruments@[j])@))
                    && pipeline_config_ok(cfg, instruments@.len() as int) && (exists|
                    series: Seq<Vec<SeriesPoint>>,
                |
                    #![trigger align_model(series)]
                    {
                        &&& series.len() == instruments@.len()
                        &&& (forall|j: int|
                            0 <= j < instruments@.len() ==> norm_series_matches(
                                instruments@[j]@,
                                (#[trigger] series[j])@,
                            ))
                        &&& align_model(series).len() == 0
                    }))
            },
        },
{
    let n = instruments.len();
    if n == 0 {
        return Err(CoreError::EmptyInput);
    }
    // Normalize every instrument's series.
    let mut series: Vec<Vec<SeriesPoint>> = Vec::new();
    let mut j: usize = 0;
    while j < n
        invariant
            j <= n,
            series@.len() == j,
            forall|t: int| 0 <= t < j ==> series_ok((#[trigger] instruments@[t])@),
            forall|t: int|
                0 <= t < j ==> norm_series_matches(instruments@[t]@, (#[trigger] series@[t])@),
            forall|t: int| 0 <= t < j ==> crate::bars::series_wf((#[trigger] series@[t])@),
        decreases n - j,
    {
        match normalize_series(&instruments[j]) {
            Ok(s) => {
                proof {
                    assert(crate::bars::bars_sorted(instruments@[j as int]@));
                }
                series.push(s);
            },
            Err(_) => {
                return Err(CoreError::InvalidInput);
            },
        }
        j = j + 1;
    }
    // Check the configuration (the dimension grows with the number of
    // instruments and must stay representable).
    if n > 249_998 {
        proof {
            assert(5 + 4 * (n as int) > 1_000_000);
        }
        return Err(CoreError::InvalidInput);
    }
    let dim: usize = 5 + 4 * n;
    let som_cfg = SomConfig {
        rows: cfg.grid_rows,
        cols: cfg.grid_cols,
        dim,
        eta0: cfg.eta0,
        radius0: cfg.radius0,
    };
    let mut som = match Som::create(som_cfg, cfg.seed) {
        Ok(s) => s,
        Err(_) => {
            proof {
                assert(!pipeline_config_ok(cfg, n as int));
            }
            return Err(CoreError::InvalidInput);
        },
    };
    proof {
        assert(config_ok(som_cfg));
        assert(pipeline_config_ok(cfg, n as int));
    }
    // Align the normalized series on date.
    let rows = match align_series(&series) {
        Ok(rs) => rs,
        Err(_) => {
            proof {
                assert(false);
            }
            return Err(CoreError::EmptyInput);
        },
    };
    proof {
        lemma_align_rows_shape(series@, series@[0]@.len() as int);
        lemma_align_increasing(series@);
        assert(rows_model(rows@).len() == rows@.len());
        assert forall|i: int| 0 <= i < rows@.len() implies (#[trigger] rows@[i]).features@.len()
            == dim && in_feat_bounds(rows@[i].features@) by {
            assert(rows_model(rows@)[i].1 == rows@[i].features@);
            assert(align_model(series@)[i].1.len() == 5 + 4 * series@.len());
        }
        assert forall|a: int, b: int| 0 <= a < b < rows@.len() implies rows@[a].day
            < rows@[b].day by {
            assert(rows_model(rows@)[a].0 == rows@[a].day);
            assert(rows_model(rows@)[b].0 == rows@[b].day);
            assert(align_model(series@)[a].0 < align_model(series@)[b].0);
        }
    }
    if rows.len() == 0 {
        return Err(CoreError::EmptyInput);
    }
    // Build the feature matrix and train.
    let mut feats: Vec<Vec<i64>> = Vec::new();
    let mut i: usize = 0;
    while i < rows.len()
        invariant
            i <= rows@.len(),
            feats@.len() == i,
            forall|t: int| 0 <= t < i ==> (#[trigger] feats@[t])@ == rows@[t].features@,
        decreases rows@.len() - i,
    {
        let mut fv: Vec<i64> = Vec::new();
        let rf = &rows[i].features;
        let mut k: usize = 0;
        while k < rf.len()
            invariant
                k <= rf@.len(),
                rf@ == rows@[i as int].features@,
                i < rows@.len(),
                fv@ == rf@.subrange(0, k as int),
            decreases rf@.len() - k,
        {
            fv.push(rf[k]);
            proof {
                assert(fv@ =~= rf@.subrange(0, k + 1));
            }
            k = k + 1;
        }
        proof {
            assert(fv@ =~= rows@[i as int].features@);
        }
        feats.push(fv);
        i = i + 1;
    }
    proof {
        assert(mat_view(feats@) =~= features_view(rows@));
    }
    let train_res = som.train(&feats, cfg.iters, cfg.seed);
    proof {
        assert(train_res is Ok);
    }
    // Winner sequence, cluster averages, transitions, diagnostics.
    let winners_res = winner_sequence(&som, &rows);
    proof {
        assert(winners_res is Ok);
    }
    let winners = match winners_res {
        Ok(ws) => ws,
        Err(_) => {
            return Err(CoreError::DimensionMismatch);
        },
    };
    proof {
        vstd::arithmetic::mul::lemma_mul_upper_bound(
            som.rows as int,
            1000,
            som.cols as int,
            1000,
        );
        vstd::arithmetic::mul::lemma_mul_strictly_positive(som.rows as int, som.cols as int);
    }
    let n_states = som.rows * som.cols;
    let averages = cluster_averages(&rows, &winners, n_states, dim);
    let table = build_transitions(&winners, n_states);
    let act_res = som.activation_response(&feats);
    proof {
        assert(act_res is Ok);
    }
    let activations = match act_res {
        Ok(a) => a,
        Err(_) => {
            return Err(CoreError::DimensionMismatch);
        },
    };
    // Forecast out of the most recent winner.
    let w_last = winners[winners.len() - 1];
    proof {
        lemma_pred_count_le(winners@, w_last as int, winners@.len() as int);
        assert(table.total_from(w_last as int) <= u64::MAX);
    }
    let fc = forecast_next(&table, &averages, w_last, cfg.threshold, dim);
    let p = PipelineResult { rows, som, winners, averages, table, activations, forecast: fc };
    proof {
        assert(pipeline_ok(instruments@, cfg, p)) by {
            assert(series@.len() == n && (forall|j2: int|
                0 <= j2 < n ==> norm_series_matches(
                    instruments@[j2]@,
                    (#[trigger] series@[j2])@,
                )) && rows_model(p.rows@) == align_model(series@));
        }
    }
    Ok(p)
}

} // verus!
