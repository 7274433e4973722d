use vstd::prelude::*;

use crate::bars::{denorm_ratio, denorm_val};
use crate::fixp::{in_feat_bounds, FEAT_MAX, FEAT_MIN};
use crate::markov::{row_sum_upto, lemma_row_sum_mono, lemma_row_sum_total, TransitionTable};

verus! {

/// The forecaster's result: the count-weighted mean feature vector of
/// the qualifying targets, and the de-normalized OHLC-ratio portion of
/// that mean (the components after the 5 calendar components, each
/// divided by the normalization gain and shifted back to a ratio
/// against the previous close).  The calendar portion of the mean is
/// informational only and is not de-normalized.
#[derive(Clone, Debug)]
pub struct Forecast {
    pub estimate: Vec<i64>,
    pub ratios: Vec<u64>,
}

/// An outgoing transition qualifies for the forecast: its count
/// exceeds the noise-rejection threshold and a cluster average exists
/// for its target.
pub open spec fn qualifies(
    e: (usize, u64),
    avgs: Seq<Option<Vec<i64>>>,
    threshold: u64,
) -> bool {
    e.1 > threshold && e.0 < avgs.len() && avgs[e.0 as int] is Some
}

/// Sum of the counts of the qualifying entries among the first `upto`.
pub open spec fn wcnt(
    entries: Seq<(usize, u64)>,
    avgs: Seq<Option<Vec<i64>>>,
    threshold: u64,
    upto: int,
) -> int
    decreases upto,
{
    if upto <= 0 {
        0
    } else {
        wcnt(entries, avgs, threshold, upto - 1) + if qualifies(
            entries[upto - 1],
            avgs,
            threshold,
        ) {
            entries[upto - 1].1 as int
        } else {
            0int
        }
    }
}

/// Count-weighted sum of component k of the qualifying targets'
/// cluster averages, among the first `upto` entries.
pub open spec fn wsum(
    entries: Seq<(usize, u64)>,
    avgs: Seq<Option<Vec<i64>>>,
    threshold: u64,
    k: int,
    upto: int,
) -> int
    decreases upto,
{
    if upto <= 0 {
        0
    } else {
        wsum(entries, avgs, threshold, k, upto - 1) + if qualifies(
            entries[upto - 1],
            avgs,
            threshold,
        ) {
            (entries[upto - 1].1 as int) * (avgs[entries[upto - 1].0 as int]->Some_0@[k] as int)
        } else {
            0int
        }
    }
}

proof fn lemma_wcnt_le(
    entries: Seq<(usize, u64)>,
    avgs: Seq<Option<Vec<i64>>>,
    threshold: u64,
    upto: int,
)
    requires
        0 <= upto,
    ensures
        0 <= wcnt(entries, avgs, threshold, upto) <= row_sum_upto(entries, upto),
    decreases upto,
{
    if upto > 0 {
        lemma_wcnt_le(entries, avgs, threshold, upto - 1);
    }
}

/// Produces the count-weighted forecast out of the most recent winner
/// `w_last`: every outgoing transition whose count exceeds the
/// threshold and whose target has a cluster average contributes that
/// average, weighted by the count; the estimate is the weighted mean
/// (rounded down per component).  Returns `None` ("no data", never a
/// zero vector) exactly when no outgoing transition qualifies — in
/// particular when the source has no outgoing transitions at all, or
/// when every count is at or below the threshold.
#[verifier::loop_isolation(false)]
pub fn forecast_next(
    table: &TransitionTable,
    avgs: &Vec<Option<Vec<i64>>>,
    w_last: usize,
    threshold: u64,
    dim: usize,
) -> (r: Option<Forecast>)
    requires
        table.wf(),
        w_last < table.n_states,
        avgs@.len() == table.n_states,
        table.total_from(w_last as int) <= u64::MAX,
        forall|u: int|
            0 <= u < avgs@.len() && (#[trigger] avgs@[u]) is Some ==> avgs@[u]->Some_0@.len()
                == dim && in_feat_bounds(avgs@[u]->Some_0@),
        5 <= dim <= 1_000_000,
    ensures
        ({
            let entries = table.rows@[w_last as int]@;
            let total = wcnt(entries, avgs@, threshold, entries.len() as int);
            match r {
                None => total == 0,
                Some(f) => {
                    &&& total > 0
                    &&& f.estimate@.len() == dim
                    &&& in_feat_bounds(f.estimate@)
                    &&& forall|k: int|
                        0 <= k < dim ==> f.estimate@[k] == wsum(
                            entries,
                            avgs@,
                            threshold,
                            k,
                            entries.len() as int,
                        ) / total
                    &&& f.ratios@.len() == dim - 5
                    &&& forall|k: int|
                        0 <= k < dim - 5 ==> f.ratios@[k] == denorm_val(f.estimate@[k + 5] as int)
                },
            }
        }),
{
    let entries = &table.rows[w_last];
    let ghost ev = entries@;
    let ghost av = avgs@;
    proof {
        lemma_row_sum_total(ev);
    }
    let mut num: Vec<u128> = Vec::new();
    let mut z: usize = 0;
    while z < dim
        invariant
            z <= dim,
            num@.len() == z,
            forall|k: int| 0 <= k < z ==> num@[k] == 0,
        decreases dim - z,
    {
        num.push(0);
        z = z + 1;
    }
    let mut total: u64 = 0;
    let mut j: usize = 0;
    while j < entries.len()
        invariant
            j <= ev.len(),
            num@.len() == dim,
            total == wcnt(ev, av, threshold, j as int),
            forall|k: int|
                0 <= k < dim ==> num@[k] == wsum(ev, av, threshold, k, j as int) + 20_000_000 * (
                total as int),
            forall|k: int|
                0 <= k < dim ==> (total as int) * FEAT_MIN <= #[trigger] wsum(
                    ev,
                    av,
                    threshold,
                    k,
                    j as int,
                ) <= (total as int) * FEAT_MAX,
        decreases ev.len() - j,
    {
        let (tgt, cnt) = entries[j];
        proof {
            lemma_wcnt_le(ev, av, threshold, j + 1);
            lemma_row_sum_mono(ev, j + 1, ev.len() as int);
            assert(ev[j as int].0 < table.n_states);
        }
        if cnt > threshold {
            if avgs[tgt].is_some() {
                proof {
                    assert(qualifies(ev[j as int], av, threshold));
                }
                let avec_opt = &avgs[tgt];
                let avec = avec_opt.as_ref().unwrap();
                let mut k: usize = 0;
                while k < dim
                    invariant
                        k <= dim,
                        j < ev.len(),
                        num@.len() == dim,
                        qualifies(ev[j as int], av, threshold),
                        tgt == ev[j as int].0,
                        cnt == ev[j as int].1,
                        avec@ == av[tgt as int]->Some_0@,
                        avec@.len() == dim,
                        in_feat_bounds(avec@),
                        total == wcnt(ev, av, threshold, j as int),
                        total + cnt <= u64::MAX,
                        forall|q: int|
                            0 <= q < k ==> num@[q] == wsum(ev, av, threshold, q, j + 1)
                                + 20_000_000 * (total as int + cnt as int),
                        forall|q: int|
                            k <= q < dim ==> num@[q] == wsum(ev, av, threshold, q, j as int)
                                + 20_000_000 * (total as int),
                        forall|q: int|
                            0 <= q < k ==> (total as int + cnt as int) * FEAT_MIN <= #[trigger] wsum(
                                ev,
                                av,
                                threshold,
                                q,
                                j + 1,
                            ) <= (total as int + cnt as int) * FEAT_MAX,
                        forall|q: int|
                            k <= q < dim ==> (total as int) * FEAT_MIN <= #[trigger] wsum(
                                ev,
                                av,
                                threshold,
                                q,
                                j as int,
                            ) <= (total as int) * FEAT_MAX,
                    decreases dim - k,
                {
                    let x = avec[k];
                    proof {
                        assert(FEAT_MIN <= avec@[k as int] <= FEAT_MAX);
                        let ci = cnt as int;
                        let xi = x as int;
                        vstd::arithmetic::mul::lemma_mul_is_distributive_add(
                            ci,
                            xi,
                            20_000_000int,
                        );
                        vstd::arithmetic::mul::lemma_mul_inequality(FEAT_MIN as int, xi, ci);
                        vstd::arithmetic::mul::lemma_mul_inequality(xi, FEAT_MAX as int, ci);
                        vstd::arithmetic::mul::lemma_mul_is_commutative(ci, xi);
                        vstd::arithmetic::mul::lemma_mul_is_commutative(ci, FEAT_MIN as int);
                        vstd::arithmetic::mul::lemma_mul_is_commutative(ci, FEAT_MAX as int);
                        assert((total as int + ci) * FEAT_MIN == (total as int) * FEAT_MIN + ci
                            * FEAT_MIN);
                        assert((total as int + ci) * FEAT_MAX == (total as int) * FEAT_MAX + ci
                            * FEAT_MAX);
                        assert(0 <= (x + 20_000_000) as u128 * (cnt as u128) <= 20_020_000_000u128
                            * 0xffff_ffff_ffff_ffffu128) by {
                            vstd::arithmetic::mul::lemma_mul_upper_bound(
                                (x + 20_000_000) as int,
                                20_020_000_000int,
                                cnt as int,
                                0xffff_ffff_ffff_ffffint,
                            );
                            vstd::arithmetic::mul::lemma_mul_nonnegative(
                                (x + 20_000_000) as int,
                                cnt as int,
                            );
                        }
                        assert(num@[k as int] <= (total as int) * 20_020_000_000 + 20_000_000 * (
                        total as int)) by {
                            vstd::arithmetic::mul::lemma_mul_inequality(
                                (total as int) * FEAT_MIN,
                                wsum(ev, av, threshold, k as int, j as int),
                                1int,
                            );
                            vstd::arithmetic::mul::lemma_mul_inequality(
                                FEAT_MIN as int,
                                0int,
                                total as int,
                            );
                            vstd::arithmetic::mul::lemma_mul_is_commutative(
                                total as int,
                                FEAT_MIN as int,
                            );
                            vstd::arithmetic::mul::lemma_mul_is_commutative(
                                total as int,
                                FEAT_MAX as int,
                            );
                            vstd::arithmetic::mul::lemma_mul_inequality(
                                FEAT_MAX as int,
                                20_020_000_000int,
                                total as int,
                            );
                        }
                    }
                    let term: u128 = ((x + 20_000_000i64) as u128) * (cnt as u128);
                    let cur = num[k];
                    num.set(k, cur + term);
                    proof {
                        let ci = cnt as int;
                        let xi = x as int;
                        assert(wsum(ev, av, threshold, k as int, j + 1) == wsum(
                            ev,
                            av,
                            threshold,
                            k as int,
                            j as int,
                        ) + ci * xi);
                        assert(term == ci * xi + ci * 20_000_000) by {
                            vstd::arithmetic::mul::lemma_mul_is_distributive_add(
                                ci,
                                xi,
                                20_000_000int,
                            );
                            vstd::arithmetic::mul::lemma_mul_is_commutative(
                                ci,
                                (xi + 20_000_000) as int,
                            );
                        }
                    }
                    k = k + 1;
                }
                total = total + cnt;
            } else {
                proof {
                    assert(!qualifies(ev[j as int], av, threshold));
                    assert(forall|q: int|
                        0 <= q < dim ==> wsum(ev, av, threshold, q, j + 1) == wsum(
                            ev,
                            av,
                            threshold,
                            q,
                            j as int,
                        ));
                }
            }
        } else {
            proof {
                assert(!qualifies(ev[j as int], av, threshold));
                assert(forall|q: int|
                    0 <= q < dim ==> wsum(ev, av, threshold, q, j + 1) == wsum(
                        ev,
                        av,
                        threshold,
                        q,
                        j as int,
                    ));
            }
        }
        proof {
            assert(total == wcnt(ev, av, threshold, j + 1));
            assert forall|q: int| 0 <= q < dim implies num@[q] == #[trigger] wsum(
                ev,
                av,
                threshold,
                q,
                j + 1,
            ) + 20_000_000 * (total as int) by {}
            assert forall|q: int| 0 <= q < dim implies (total as int) * FEAT_MIN <= #[trigger] wsum(
                ev,
                av,
                threshold,
                q,
                j + 1,
            ) <= (total as int) * FEAT_MAX by {}
        }
        j = j + 1;
    }
    if total == 0 {
        return None;
    }
    let ghost full = ev.len() as int;
    let mut estimate: Vec<i64> = Vec::new();
    let mut k: usize = 0;
    while k < dim
        invariant
            k <= dim,
            num@.len() == dim,
            1 <= total,
            total == wcnt(ev, av, threshold, full),
            forall|q: int|
                0 <= q < dim ==> num@[q] == wsum(ev, av, threshold, q, full) + 20_000_000 * (
                total as int),
            forall|q: int|
                0 <= q < dim ==> (total as int) * FEAT_MIN <= #[trigger] wsum(
                    ev,
                    av,
                    threshold,
                    q,
                    full,
                ) <= (total as int) * FEAT_MAX,
            estimate@.len() == k,
            forall|q: int|
                0 <= q < k ==> estimate@[q] == wsum(ev, av, threshold, q, full) / (total as int),
            forall|q: int| 0 <= q < k ==> FEAT_MIN <= #[trigger] estimate@[q] <= FEAT_MAX,
        decreases dim - k,
    {
        proof {
            let ti = total as int;
            let sv = wsum(ev, av, threshold, k as int, full);
            vstd::arithmetic::div_mod::lemma_hoist_over_denominator(
                sv,
                20_000_000int,
                total as nat,
            );
            vstd::arithmetic::div_mod::lemma_div_is_ordered(ti * FEAT_MIN, sv, ti);
            vstd::arithmetic::div_mod::lemma_div_is_ordered(sv, ti * FEAT_MAX, ti);
            vstd::arithmetic::div_mod::lemma_div_multiples_vanish(FEAT_MIN as int, ti);
            vstd::arithmetic::div_mod::lemma_div_multiples_vanish(FEAT_MAX as int, ti);
        }
        let q: u128 = num[k] / (total as u128);
        let a: i64 = ((q as i128) - 20_000_000i128) as i64;
        estimate.push(a);
        k = k + 1;
    }
    let mut ratios: Vec<u64> = Vec::new();
    let mut k2: usize = 5;
    while k2 < dim
        invariant
            5 <= k2 <= dim,
            estimate@.len() == dim,
            forall|q: int| 0 <= q < dim ==> FEAT_MIN <= #[trigger] estimate@[q] <= FEAT_MAX,
            ratios@.len() == k2 - 5,
            forall|q: int|
                0 <= q < k2 - 5 ==> ratios@[q] == denorm_val(estimate@[q + 5] as int),
        decreases dim - k2,
    {
        let rv = denorm_ratio(estimate[k2]);
        ratios.push(rv);
        k2 = k2 + 1;
    }
    Some(Forecast { estimate, ratios })
}

} // verus!
