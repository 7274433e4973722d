use vstd::prelude::*;

use crate::align::AlignedRow;
use crate::errors::CoreError;
use crate::fixp::{in_feat_bounds, FEAT_MAX, FEAT_MIN};
use crate::som::Som;

verus! {

/// The feature matrix view of the aligned dataset.
pub open spec fn features_view(rows: Seq<AlignedRow>) -> Seq<Seq<i64>> {
    Seq::new(rows.len(), |i: int| rows[i].features@)
}

/// Maps every aligned row, in chronological order, to the row-major
/// index of its winner neuron on the (frozen) grid: exactly one winner
/// per row, same order and length as the dataset.  Fails with
/// `DimensionMismatch` exactly when some row's feature vector length
/// differs from the grid's dimension.
#[verifier::loop_isolation(false)]
pub fn winner_sequence(som: &Som, rows: &Vec<AlignedRow>) -> (r: Result<Vec<usize>, CoreError>)
    requires
        som.wf(),
        forall|i: int| 0 <= i < rows@.len() ==> in_feat_bounds((#[trigger] rows@[i]).features@),
    ensures
        match r {
            Ok(ws) => {
                &&& forall|i: int|
                    0 <= i < rows@.len() ==> (#[trigger] rows@[i]).features@.len() == som.dim
                &&& ws@.len() == rows@.len()
                &&& forall|i: int|
                    0 <= i < ws@.len() ==> (#[trigger] ws@[i]) as int == som.spec_winner_idx(
                        rows@[i].features@,
                    ) && ws@[i] < som.weights@.len()
            },
            Err(e) => e == CoreError::DimensionMismatch && exists|i: int|
                0 <= i < rows@.len() && (#[trigger] rows@[i]).features@.len() != som.dim,
        },
{
    let mut c: usize = 0;
    while c < rows.len()
        invariant
            c <= rows@.len(),
            forall|i: int| 0 <= i < c ==> (#[trigger] rows@[i]).features@.len() == som.dim,
        decreases rows@.len() - c,
    {
        if rows[c].features.len() != som.dim {
            return Err(CoreError::DimensionMismatch);
        }
        c = c + 1;
    }
    let mut ws: Vec<usize> = Vec::new();
    let mut i: usize = 0;
    while i < rows.len()
        invariant
            i <= rows@.len(),
            ws@.len() == i,
            forall|j: int|
                0 <= j < i ==> (#[trigger] ws@[j]) as int == som.spec_winner_idx(
                    rows@[j].features@,
                ) && ws@[j] < som.weights@.len(),
        decreases rows@.len() - i,
    {
        let w = som.winner_idx(&rows[i].features);
        ws.push(w);
        i = i + 1;
    }
    Ok(ws)
}

/// Count of the first `upto` rows whose winner is neuron u.
pub open spec fn win_count(ws: Seq<usize>, u: int, upto: int) -> int
    decreases upto,
{
    if upto <= 0 {
        0
    } else {
        win_count(ws, u, upto - 1) + if ws[upto - 1] == u {
            1int
        } else {
            0int
        }
    }
}

/// Sum of feature component k over the first `upto` rows whose winner
/// is neuron u.
pub open spec fn sel_sum(feats: Seq<Seq<i64>>, ws: Seq<usize>, u: int, k: int, upto: int) -> int
    decreases upto,
{
    if upto <= 0 {
        0
    } else {
        sel_sum(feats, ws, u, k, upto - 1) + if ws[upto - 1] == u {
            feats[upto - 1][k] as int
        } else {
            0int
        }
    }
}

/// Groups the aligned rows by their winner neuron and computes, for
/// every neuron that won at least one row, the per-component arithmetic
/// mean (rounded down) of the grouped feature vectors.  Neurons with no
/// rows are absent (`None`); a mean vector is never empty or invented.
#[verifier::loop_isolation(false)]
pub fn cluster_averages(
    rows: &Vec<AlignedRow>,
    ws: &Vec<usize>,
    n_states: usize,
    dim: usize,
) -> (r: Vec<Option<Vec<i64>>>)
    requires
        ws@.len() == rows@.len(),
        forall|i: int| 0 <= i < ws@.len() ==> (#[trigger] ws@[i]) < n_states,
        forall|i: int|
            0 <= i < rows@.len() ==> (#[trigger] rows@[i]).features@.len() == dim
                && in_feat_bounds(rows@[i].features@),
        1 <= dim <= 1_000_000,
    ensures
        r@.len() == n_states,
        forall|u: int|
            0 <= u < n_states ==> ((#[trigger] r@[u]) is None <==> win_count(
                ws@,
                u,
                ws@.len() as int,
            ) == 0),
        forall|u: int|
            0 <= u < n_states && r@[u] is Some ==> {
                &&& (#[trigger] r@[u])->Some_0@.len() == dim
                &&& in_feat_bounds(r@[u]->Some_0@)
                &&& forall|k: int|
                    0 <= k < dim ==> r@[u]->Some_0@[k] == sel_sum(
                        features_view(rows@),
                        ws@,
                        u,
                        k,
                        ws@.len() as int,
                    ) / win_count(ws@, u, ws@.len() as int)
            },
{
    let ghost feats = features_view(rows@);
    let ghost total = ws@.len() as int;
    let mut result: Vec<Option<Vec<i64>>> = Vec::new();
    let mut u: usize = 0;
    while u < n_states
        invariant
            u <= n_states,
            result@.len() == u,
            forall|v: int|
                0 <= v < u ==> ((#[trigger] result@[v]) is None <==> win_count(ws@, v, total)
                    == 0),
            forall|v: int|
                0 <= v < u && result@[v] is Some ==> {
                    &&& (#[trigger] result@[v])->Some_0@.len() == dim
                    &&& in_feat_bounds(result@[v]->Some_0@)
                    &&& forall|k: int|
                        0 <= k < dim ==> result@[v]->Some_0@[k] == sel_sum(feats, ws@, v, k, total)
                            / win_count(ws@, v, total)
                },
        decreases n_states - u,
    {
        let mut sums: Vec<i128> = Vec::new();
        let mut z: usize = 0;
        while z < dim
            invariant
                z <= dim,
                sums@.len() == z,
                forall|k: int| 0 <= k < z ==> sums@[k] == 0,
            decreases dim - z,
        {
            sums.push(0);
            z = z + 1;
        }
        let mut cnt: u64 = 0;
        let mut i: usize = 0;
        while i < rows.len()
            invariant
                i <= rows@.len(),
                u < n_states,
                sums@.len() == dim,
                cnt == win_count(ws@, u as int, i as int),
                cnt <= i,
                forall|k: int|
                    0 <= k < dim ==> sums@[k] == sel_sum(feats, ws@, u as int, k, i as int),
                forall|k: int|
                    0 <= k < dim ==> (cnt as int) * FEAT_MIN <= #[trigger] sums@[k] <= (
                    cnt as int) * FEAT_MAX,
            decreases rows@.len() - i,
        {
            if ws[i] == u {
                let feats_i = &rows[i].features;
                let mut k: usize = 0;
                while k < dim
                    invariant
                        k <= dim,
                        i < rows@.len(),
                        u < n_states,
                        ws@[i as int] == u,
                        sums@.len() == dim,
                        cnt == win_count(ws@, u as int, i as int),
                        cnt <= i,
                        feats_i@ == rows@[i as int].features@,
                        forall|q: int|
                            0 <= q < k ==> sums@[q] == sel_sum(feats, ws@, u as int, q, i as int)
                                + feats[i as int][q],
                        forall|q: int|
                            k <= q < dim ==> sums@[q] == sel_sum(feats, ws@, u as int, q, i as int),
                        forall|q: int|
                            0 <= q < k ==> (cnt as int + 1) * FEAT_MIN <= #[trigger] sums@[q] <= (
                            cnt as int + 1) * FEAT_MAX,
                        forall|q: int|
                            k <= q < dim ==> (cnt as int) * FEAT_MIN <= #[trigger] sums@[q] <= (
                            cnt as int) * FEAT_MAX,
                    decreases dim - k,
                {
                    let x = feats_i[k];
                    proof {
                        assert(FEAT_MIN <= rows@[i as int].features@[k as int] <= FEAT_MAX);
                        assert((cnt as int + 1) * FEAT_MIN == (cnt as int) * FEAT_MIN + FEAT_MIN);
                        assert((cnt as int + 1) * FEAT_MAX == (cnt as int) * FEAT_MAX + FEAT_MAX);
                    }
                    let cur = sums[k];
                    sums.set(k, cur + (x as i128));
                    k = k + 1;
                }
                cnt = cnt + 1;
            }
            proof {
                assert(forall|k: int|
                    0 <= k < dim ==> sums@[k] == sel_sum(feats, ws@, u as int, k, i + 1));
            }
            i = i + 1;
        }
        if cnt == 0 {
            result.push(None);
        } else {
            let mut avg: Vec<i64> = Vec::new();
            let mut k: usize = 0;
            while k < dim
                invariant
                    k <= dim,
                    u < n_states,
                    sums@.len() == dim,
                    cnt >= 1,
                    cnt == win_count(ws@, u as int, total),
                    forall|q: int| 0 <= q < dim ==> sums@[q] == sel_sum(feats, ws@, u as int, q, total),
                    forall|q: int|
                        0 <= q < dim ==> (cnt as int) * FEAT_MIN <= #[trigger] sums@[q] <= (
                        cnt as int) * FEAT_MAX,
                    avg@.len() == k,
                    forall|q: int|
                        0 <= q < k ==> avg@[q] == sel_sum(feats, ws@, u as int, q, total)
                            / win_count(ws@, u as int, total),
                    forall|q: int| 0 <= q < k ==> FEAT_MIN <= #[trigger] avg@[q] <= FEAT_MAX,
                decreases dim - k,
            {
                let s = sums[k];
                proof {
                    let ci = cnt as int;
                    let sv = sums@[k as int] as int;
                    vstd::arithmetic::div_mod::lemma_hoist_over_denominator(
                        sv,
                        20_000_000int,
                        cnt as nat,
                    );
                    vstd::arithmetic::div_mod::lemma_div_is_ordered(ci * FEAT_MIN, sv, ci);
                    vstd::arithmetic::div_mod::lemma_div_is_ordered(sv, ci * FEAT_MAX, ci);
                    vstd::arithmetic::div_mod::lemma_div_multiples_vanish(FEAT_MIN as int, ci);
                    vstd::arithmetic::div_mod::lemma_div_multiples_vanish(FEAT_MAX as int, ci);
                }
                let t: i128 = s + (cnt as i128) * 20_000_000i128;
                let q: u128 = (t as u128) / (cnt as u128);
                let a: i64 = ((q as i128) - 20_000_000i128) as i64;
                avg.push(a);
                k = k + 1;
            }
            result.push(Some(avg));
        }
        u = u + 1;
    }
    result
}

} // verus!
