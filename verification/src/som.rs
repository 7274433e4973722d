use vstd::prelude::*;

use crate::errors::CoreError;
use crate::fixp::{in_feat_bounds, FEAT_MAX, FEAT_MIN, SCALE};

verus! {

/// Grid dimensions and training schedule parameters of a
/// self-organizing map.
///
/// `eta0` is the initial learning rate and `radius0` the initial
/// neighborhood radius, both in fixed point (SCALE = 1.0).  Sensible
/// defaults are `eta0 = SCALE / 2` (0.5) and `radius0 = SCALE` (1.0);
/// both schedules decay linearly to zero over the configured number of
/// training iterations and depend on nothing but the iteration index.
#[derive(Clone, Copy, Debug, PartialEq, Eq, Structural)]
pub struct SomConfig {
    pub rows: usize,
    pub cols: usize,
    pub dim: usize,
    pub eta0: u64,
    pub radius0: u64,
}

/// The configuration is accepted: a non-empty grid of at most
/// 1000 x 1000 neurons, a dimension between 1 and 1_000_000, a learning
/// rate in (0, 1] and a radius of at most 1000 grid cells.
pub open spec fn config_ok(c: SomConfig) -> bool {
    &&& 1 <= c.rows <= 1000
    &&& 1 <= c.cols <= 1000
    &&& 1 <= c.dim <= 1_000_000
    &&& 1 <= c.eta0 <= SCALE
    &&& c.radius0 <= 1_000_000_000
}

/// The sequence-of-sequences view of a weight or data matrix.
pub open spec fn mat_view(w: Seq<Vec<i64>>) -> Seq<Seq<i64>> {
    Seq::new(w.len(), |n: int| w[n]@)
}

/// Squared Euclidean distance between two equal-length vectors.
pub open spec fn dist_sq(a: Seq<i64>, b: Seq<i64>) -> int
    recommends
        a.len() == b.len(),
    decreases a.len(),
{
    if a.len() == 0 {
        0
    } else {
        let k = a.len() - 1;
        dist_sq(a.drop_last(), b.drop_last()) + (a[k] - b[k]) * (a[k] - b[k])
    }
}

/// Index of the winner among the first `upto` neurons: the neuron of
/// minimum squared distance to v, ties broken by the lowest row-major
/// index.
pub open spec fn best_in(g: Seq<Seq<i64>>, v: Seq<i64>, upto: int) -> int
    decreases upto,
{
    if upto <= 1 {
        0
    } else {
        let p = best_in(g, v, upto - 1);
        if dist_sq(g[upto - 1], v) < dist_sq(g[p], v) {
            upto - 1
        } else {
            p
        }
    }
}

/// The winner is a minimum-distance neuron, and every neuron with a
/// lower index is at strictly greater distance (lowest-index
/// tie-break).
pub proof fn lemma_best_in_minimal(g: Seq<Seq<i64>>, v: Seq<i64>, upto: int)
    requires
        1 <= upto,
    ensures
        0 <= best_in(g, v, upto) < upto,
        forall|n: int|
            0 <= n < upto ==> dist_sq(g[best_in(g, v, upto)], v) <= dist_sq(#[trigger] g[n], v),
        forall|n: int|
            0 <= n < best_in(g, v, upto) ==> dist_sq(#[trigger] g[n], v) > dist_sq(
                g[best_in(g, v, upto)],
                v,
            ),
    decreases upto,
{
    if upto > 1 {
        lemma_best_in_minimal(g, v, upto - 1);
    }
}

/// One step of the linear congruential pseudo-random generator that
/// drives reproducible training (multiplier and increment from Knuth's
/// MMIX generator).
pub open spec fn lcg(s: u64) -> u64 {
    ((((s as nat) * 6364136223846793005 + 1442695040888963407) % 0x1_0000_0000_0000_0000)) as u64
}

/// State of the generator after t steps from the given seed.
pub open spec fn rng_at(seed: u64, t: nat) -> u64
    decreases t,
{
    if t == 0 {
        seed
    } else {
        lcg(rng_at(seed, (t - 1) as nat))
    }
}

fn lcg_step(s: u64) -> (r: u64)
    ensures
        r == lcg(s),
{
    let p: u128 = (s as u128) * 6364136223846793005u128 + 1442695040888963407u128;
    (p % 0x1_0000_0000_0000_0000u128) as u64
}

/// The initial weight grid drawn from the seed: component k of neuron n
/// is the (n * dim + k + 1)-th generator state reduced to [0, SCALE).
pub open spec fn init_grid(cfg: SomConfig, seed: u64) -> Seq<Seq<i64>> {
    Seq::new(
        (cfg.rows * cfg.cols) as nat,
        |n: int|
            Seq::new(
                cfg.dim as nat,
                |k: int| ((rng_at(seed, (n * cfg.dim + k + 1) as nat) % (SCALE as u64)) as i64),
            ),
    )
}

/// A self-organizing map: a rows x cols grid of neurons, each owning a
/// weight vector of the configured dimension, plus the training
/// schedule parameters.  Weights are mutated only by training and are
/// read-only afterwards.
pub struct Som {
    pub rows: usize,
    pub cols: usize,
    pub dim: usize,
    pub eta0: u64,
    pub radius0: u64,
    pub weights: Vec<Vec<i64>>,
}

impl Som {
    /// Well-formedness: accepted configuration, a full row-major weight
    /// matrix, and every weight within the representable feature range.
    pub open spec fn wf(self) -> bool {
        &&& 1 <= self.rows <= 1000
        &&& 1 <= self.cols <= 1000
        &&& 1 <= self.dim <= 1_000_000
        &&& 1 <= self.eta0 <= SCALE
        &&& self.radius0 <= 1_000_000_000
        &&& self.weights@.len() == self.rows * self.cols
        &&& forall|n: int|
            0 <= n < self.weights@.len() ==> (#[trigger] self.weights@[n])@.len() == self.dim
        &&& forall|n: int|
            0 <= n < self.weights@.len() ==> in_feat_bounds((#[trigger] self.weights@[n])@)
    }

    /// The row-major index of the winner neuron for query vector v.
    pub open spec fn spec_winner_idx(self, v: Seq<i64>) -> int {
        best_in(mat_view(self.weights@), v, self.weights@.len() as int)
    }

    /// Creates a grid with seed-derived initial weights.  Fails with
    /// `InvalidInput` exactly when the configuration is rejected.
    #[verifier::rlimit(60)]
    pub fn create(cfg: SomConfig, seed: u64) -> (r: Result<Som, CoreError>)
        ensures
            match r {
                Ok(s) => {
                    &&& config_ok(cfg)
                    &&& s.wf()
                    &&& s.rows == cfg.rows
                    &&& s.cols == cfg.cols
                    &&& s.dim == cfg.dim
                    &&& s.eta0 == cfg.eta0
                    &&& s.radius0 == cfg.radius0
                    &&& mat_view(s.weights@) == init_grid(cfg, seed)
                },
                Err(e) => !config_ok(cfg) && e == CoreError::InvalidInput,
            },
    {
        if !(1 <= cfg.rows && cfg.rows <= 1000 && 1 <= cfg.cols && cfg.cols <= 1000 && 1 <= cfg.dim
            && cfg.dim <= 1_000_000 && 1 <= cfg.eta0 && cfg.eta0 <= 1_000_000u64 && cfg.radius0
            <= 1_000_000_000u64) {
            return Err(CoreError::InvalidInput);
        }
        proof {
            vstd::arithmetic::mul::lemma_mul_upper_bound(
                cfg.rows as int,
                1000,
                cfg.cols as int,
                1000,
            );
            vstd::arithmetic::mul::lemma_mul_strictly_positive(
                cfg.rows as int,
                cfg.cols as int,
            );
        }
        let n_total = cfg.rows * cfg.cols;
        let mut weights: Vec<Vec<i64>> = Vec::new();
        let mut state: u64 = seed;
        let mut n: usize = 0;
        while n < n_total
            invariant
                n <= n_total,
                n_total == cfg.rows * cfg.cols,
                cfg.rows <= 1000 && cfg.cols <= 1000 && 1 <= cfg.dim <= 1_000_000,
                weights@.len() == n,
                state == rng_at(seed, (n * cfg.dim) as nat),
                forall|m: int|
                    0 <= m < n ==> (#[trigger] weights@[m])@ == init_grid(cfg, seed)[m],
            decreases n_total - n,
        {
            let mut row: Vec<i64> = Vec::new();
            let mut k: usize = 0;
            while k < cfg.dim
                invariant
                    k <= cfg.dim,
                    n < n_total,
                    n_total == cfg.rows * cfg.cols,
                    cfg.rows <= 1000 && cfg.cols <= 1000 && 1 <= cfg.dim <= 1_000_000,
                    row@.len() == k,
                    state == rng_at(seed, (n * cfg.dim + k) as nat),
                    forall|q: int|
                        0 <= q < k ==> row@[q] == (rng_at(seed, (n * cfg.dim + q + 1) as nat) % (
                        SCALE as u64)) as i64,
                decreases cfg.dim - k,
            {
                state = lcg_step(state);
                let w: i64 = (state % 1_000_000u64) as i64;
                row.push(w);
                k = k + 1;
            }
            proof {
                assert(row@ =~= init_grid(cfg, seed)[n as int]);
                assert((n + 1) * cfg.dim == n * cfg.dim + cfg.dim) by (nonlinear_arith);
            }
            weights.push(row);
            n = n + 1;
        }
        let s = Som {
            rows: cfg.rows,
            cols: cfg.cols,
            dim: cfg.dim,
            eta0: cfg.eta0,
            radius0: cfg.radius0,
            weights,
        };
        proof {
            assert(mat_view(s.weights@) =~= init_grid(cfg, seed));
            assert forall|m: int| 0 <= m < s.weights@.len() implies in_feat_bounds(
                (#[trigger] s.weights@[m])@,
            ) by {
                assert(s.weights@[m]@ == init_grid(cfg, seed)[m]);
                assert forall|q: int| 0 <= q < s.weights@[m]@.len() implies FEAT_MIN
                    <= #[trigger] s.weights@[m]@[q] <= FEAT_MAX by {
                    assert(s.weights@[m]@[q] == (rng_at(seed, (m * cfg.dim + q + 1) as nat) % (
                    SCALE as u64)) as i64);
                }
            }
        }
        Ok(s)
    }
}

/// Learning rate at iteration t of a run of `iters` iterations:
/// eta0 * (iters - t) / iters in fixed point.  It decays linearly and
/// monotonically to zero and depends only on the iteration index.
pub open spec fn eta_at(eta0: u64, iters: u64, t: int) -> int {
    (eta0 * (iters - t)) / (iters as int)
}

/// Neighborhood radius at iteration t: radius0 * (iters - t) / iters in
/// fixed point, shrinking linearly over the run.
pub open spec fn radius_at(radius0: u64, iters: u64, t: int) -> int {
    (radius0 * (iters - t)) / (iters as int)
}

/// Both schedules decay monotonically: the learning rate and the
/// neighborhood radius at a later iteration never exceed their value
/// at an earlier one, and both stay between 0 and their initial value.
pub proof fn lemma_schedule_monotone(c0: u64, iters: u64, t1: int, t2: int)
    requires
        0 <= t1 <= t2 < iters,
    ensures
        0 <= eta_at(c0, iters, t2) <= eta_at(c0, iters, t1) <= c0,
        0 <= radius_at(c0, iters, t2) <= radius_at(c0, iters, t1) <= c0,
{
    let ii = iters as int;
    let ci = c0 as int;
    vstd::arithmetic::mul::lemma_mul_inequality(ii - t2, ii - t1, ci);
    vstd::arithmetic::mul::lemma_mul_inequality(ii - t1, ii, ci);
    vstd::arithmetic::mul::lemma_mul_is_commutative(ii - t2, ci);
    vstd::arithmetic::mul::lemma_mul_is_commutative(ii - t1, ci);
    vstd::arithmetic::mul::lemma_mul_is_commutative(ii, ci);
    vstd::arithmetic::mul::lemma_mul_nonnegative(ci, ii - t2);
    vstd::arithmetic::div_mod::lemma_div_is_ordered(ci * (ii - t2), ci * (ii - t1), ii);
    vstd::arithmetic::div_mod::lemma_div_is_ordered(ci * (ii - t1), ci * ii, ii);
    vstd::arithmetic::div_mod::lemma_div_multiples_vanish(ci, ii);
    vstd::arithmetic::div_mod::lemma_div_pos_is_pos(ci * (ii - t2), ii);
    assert((ii * ci) / ii == ci);
    assert(ci * ii == ii * ci) by {
        vstd::arithmetic::mul::lemma_mul_is_commutative(ci, ii);
    }
}

/// Neuron n lies within the neighborhood of winner w: the squared grid
/// distance of their coordinates is at most the squared radius (both
/// sides in fixed point).
pub open spec fn in_hood(n: int, w: int, cols: int, rad: int) -> bool {
    let di = n / cols - w / cols;
    let dj = n % cols - w % cols;
    (di * di + dj * dj) * (SCALE * SCALE) <= rad * rad
}

/// The competitive-learning update of one weight component: the weight
/// moves toward the input by the fraction eta / SCALE of their
/// difference, rounded toward the weight.
pub open spec fn blend1(wv: i64, xv: i64, eta: int) -> int {
    if xv >= wv {
        wv + (eta * (xv - wv)) / (SCALE as int)
    } else {
        wv - (eta * (wv - xv)) / (SCALE as int)
    }
}

/// Component-wise competitive-learning update of one weight vector.
pub open spec fn blend_row(w: Seq<i64>, x: Seq<i64>, eta: int) -> Seq<i64> {
    Seq::new(w.len(), |k: int| blend1(w[k], x[k], eta) as i64)
}

/// One training step on the whole grid: the winner for input x is
/// determined, and every neuron within the current neighborhood radius
/// of the winner is pulled toward x by the current learning rate.
pub open spec fn step_grid(g: Seq<Seq<i64>>, cols: int, x: Seq<i64>, eta: int, rad: int) -> Seq<
    Seq<i64>,
> {
    let w = best_in(g, x, g.len() as int);
    Seq::new(
        g.len(),
        |n: int|
            if in_hood(n, w, cols, rad) {
                blend_row(g[n], x, eta)
            } else {
                g[n]
            },
    )
}

/// The grid after the first t training iterations: at iteration t the
/// generator state is advanced once, a row is drawn uniformly (with
/// replacement) by reducing that state modulo the dataset size, and the
/// grid takes one step toward that row.
pub open spec fn train_upto(
    g0: Seq<Seq<i64>>,
    cols: int,
    data: Seq<Seq<i64>>,
    eta0: u64,
    radius0: u64,
    iters: u64,
    seed: u64,
    t: int,
) -> Seq<Seq<i64>>
    decreases t,
{
    if t <= 0 {
        g0
    } else {
        let g = train_upto(g0, cols, data, eta0, radius0, iters, seed, t - 1);
        let idx = (rng_at(seed, t as nat) as int) % (data.len() as int);
        step_grid(g, cols, data[idx], eta_at(eta0, iters, t - 1), radius_at(radius0, iters, t - 1))
    }
}

/// Count of dataset rows among the first `upto` whose winner is neuron n.
pub open spec fn act_count(g: Seq<Seq<i64>>, rows: Seq<Seq<i64>>, n: int, upto: int) -> int
    decreases upto,
{
    if upto <= 0 {
        0
    } else {
        act_count(g, rows, n, upto - 1) + if best_in(g, rows[upto - 1], g.len() as int) == n {
            1int
        } else {
            0int
        }
    }
}

proof fn lemma_sq_bounds(x: int, r: int)
    by (nonlinear_arith)
    requires
        -r <= x <= r,
        0 <= r,
    ensures
        0 <= x * x <= r * r,
{
}

proof fn lemma_abs_sq(x: int, a: int)
    by (nonlinear_arith)
    requires
        a == x || a == -x,
    ensures
        a * a == x * x,
{
}

proof fn lemma_blend1_bounds(wv: i64, xv: i64, eta: int)
    requires
        0 <= eta <= SCALE,
    ensures
        xv >= wv ==> wv <= blend1(wv, xv, eta) <= xv,
        xv < wv ==> xv <= blend1(wv, xv, eta) <= wv,
{
    let si = SCALE as int;
    if xv >= wv {
        let d = xv - wv;
        vstd::arithmetic::mul::lemma_mul_inequality(eta, si, d);
        vstd::arithmetic::mul::lemma_mul_nonnegative(eta, d);
        vstd::arithmetic::div_mod::lemma_div_is_ordered(eta * d, si * d, si);
        vstd::arithmetic::div_mod::lemma_div_multiples_vanish(d, si);
        vstd::arithmetic::div_mod::lemma_div_pos_is_pos(eta * d, si);
    } else {
        let d = wv - xv;
        vstd::arithmetic::mul::lemma_mul_inequality(eta, si, d);
        vstd::arithmetic::mul::lemma_mul_nonnegative(eta, d);
        vstd::arithmetic::div_mod::lemma_div_is_ordered(eta * d, si * d, si);
        vstd::arithmetic::div_mod::lemma_div_multiples_vanish(d, si);
        vstd::arithmetic::div_mod::lemma_div_pos_is_pos(eta * d, si);
    }
}

/// Component-wise competitive-learning update of one weight vector.
/// Each updated component stays between the old weight and the input,
/// so the feature bounds are preserved.
fn blend_row_exec(w: &Vec<i64>, x: &Vec<i64>, eta: u64) -> (r: Vec<i64>)
    requires
        w@.len() == x@.len(),
        in_feat_bounds(w@),
        in_feat_bounds(x@),
        eta <= 1_000_000,
    ensures
        r@ == blend_row(w@, x@, eta as int),
        r@.len() == w@.len(),
        in_feat_bounds(r@),
{
    let mut r: Vec<i64> = Vec::new();
    let mut k: usize = 0;
    while k < w.len()
        invariant
            k <= w@.len(),
            w@.len() == x@.len(),
            in_feat_bounds(w@),
            in_feat_bounds(x@),
            eta <= 1_000_000,
            r@.len() == k,
            forall|q: int| 0 <= q < k ==> r@[q] == blend_row(w@, x@, eta as int)[q],
            forall|q: int| 0 <= q < k ==> FEAT_MIN <= #[trigger] r@[q] <= FEAT_MAX,
        decreases w@.len() - k,
    {
        let wv = w[k];
        let xv = x[k];
        proof {
            assert(FEAT_MIN <= w@[k as int] <= FEAT_MAX);
            assert(FEAT_MIN <= x@[k as int] <= FEAT_MAX);
            lemma_blend1_bounds(wv, xv, eta as int);
        }
        let nv: i64 = if xv >= wv {
            let d = (xv - wv) as u64;
            let step = (((eta as u128) * (d as u128)) / 1_000_000u128) as u64;
            proof {
                assert(step as int == ((eta as int) * ((xv - wv) as int)) / (SCALE as int));
                assert(wv + step == blend1(wv, xv, eta as int));
            }
            wv + (step as i64)
        } else {
            let d = (wv - xv) as u64;
            let step = (((eta as u128) * (d as u128)) / 1_000_000u128) as u64;
            proof {
                assert(step as int == ((eta as int) * ((wv - xv) as int)) / (SCALE as int));
                assert(wv - step == blend1(wv, xv, eta as int));
            }
            wv - (step as i64)
        };
        r.push(nv);
        k = k + 1;
    }
    proof {
        assert(r@ =~= blend_row(w@, x@, eta as int));
    }
    r
}

/// Squared distance of two bounded equal-length vectors, exactly.
fn dist_sq_exec(a: &Vec<i64>, b: &Vec<i64>) -> (r: u128)
    requires
        a@.len() == b@.len(),
        a@.len() <= 1_000_000,
        in_feat_bounds(a@),
        in_feat_bounds(b@),
    ensures
        r == dist_sq(a@, b@),
{
    let mut acc: u128 = 0;
    let mut k: usize = 0;
    while k < a.len()
        invariant
            k <= a@.len(),
            a@.len() == b@.len() <= 1_000_000,
            in_feat_bounds(a@),
            in_feat_bounds(b@),
            acc == dist_sq(a@.subrange(0, k as int), b@.subrange(0, k as int)),
            acc <= (k as int) * 400_800_400_000_000_000_000,
        decreases a@.len() - k,
    {
        let av = a[k];
        let bv = b[k];
        proof {
            assert(FEAT_MIN <= a@[k as int] <= FEAT_MAX);
            assert(FEAT_MIN <= b@[k as int] <= FEAT_MAX);
        }
        let d: i64 = if av >= bv {
            av - bv
        } else {
            bv - av
        };
        let du = d as u128;
        proof {
            lemma_sq_bounds(d as int, 20_020_000_000int);
        }
        let d2 = du * du;
        proof {
            lemma_abs_sq(av - bv, d as int);
            assert(d2 == (av - bv) * (av - bv));
            assert(a@.subrange(0, k + 1).drop_last() =~= a@.subrange(0, k as int));
            assert(b@.subrange(0, k + 1).drop_last() =~= b@.subrange(0, k as int));
            assert(a@.subrange(0, k + 1).last() == a@[k as int]);
            assert(dist_sq(a@.subrange(0, k + 1), b@.subrange(0, k + 1)) == acc + d2);
        }
        acc = acc + d2;
        k = k + 1;
    }
    proof {
        assert(a@.subrange(0, a@.len() as int) =~= a@);
        assert(b@.subrange(0, b@.len() as int) =~= b@);
    }
    acc
}

impl Som {
    /// Row-major index of the winner neuron: minimum squared Euclidean
    /// distance, ties broken by the lowest index.
    pub fn winner_idx(&self, v: &Vec<i64>) -> (r: usize)
        requires
            self.wf(),
            v@.len() == self.dim,
            in_feat_bounds(v@),
        ensures
            r as int == self.spec_winner_idx(v@),
            r < self.weights@.len(),
            forall|n: int|
                0 <= n < self.weights@.len() ==> dist_sq(self.weights@[r as int]@, v@) <= dist_sq(
                    (#[trigger] self.weights@[n])@,
                    v@,
                ),
            forall|n: int|
                0 <= n < r ==> dist_sq((#[trigger] self.weights@[n])@, v@) > dist_sq(
                    self.weights@[r as int]@,
                    v@,
                ),
    {
        let ghost g = mat_view(self.weights@);
        proof {
            vstd::arithmetic::mul::lemma_mul_strictly_positive(
                self.rows as int,
                self.cols as int,
            );
            assert(self.weights@[0]@.len() == self.dim);
            lemma_best_in_minimal(g, v@, g.len() as int);
            assert(forall|n: int| 0 <= n < g.len() ==> g[n] == (#[trigger] self.weights@[n])@);
        }
        let mut best: usize = 0;
        let mut best_d: u128 = dist_sq_exec(&self.weights[0], v);
        let mut n: usize = 1;
        while n < self.weights.len()
            invariant
                self.wf(),
                v@.len() == self.dim,
                in_feat_bounds(v@),
                g == mat_view(self.weights@),
                1 <= n <= self.weights@.len(),
                best < n,
                best as int == best_in(g, v@, n as int),
                best_d == dist_sq(g[best as int], v@),
            decreases self.weights@.len() - n,
        {
            let d = dist_sq_exec(&self.weights[n], v);
            if d < best_d {
                best = n;
                best_d = d;
            }
            n = n + 1;
        }
        best
    }

    /// Grid coordinate (row, column) of the winner neuron for query
    /// vector v, using the same distance and tie-break rule as
    /// training.  Read-only: callable any number of times after
    /// training without side effects.  Fails with `DimensionMismatch`
    /// exactly when v's length differs from the configured dimension.
    pub fn winner(&self, v: &Vec<i64>) -> (r: Result<(usize, usize), CoreError>)
        requires
            self.wf(),
            in_feat_bounds(v@),
        ensures
            match r {
                Ok(c) => {
                    &&& v@.len() == self.dim
                    &&& c.0 as int == self.spec_winner_idx(v@) / (self.cols as int)
                    &&& c.1 as int == self.spec_winner_idx(v@) % (self.cols as int)
                    &&& c.0 * self.cols + c.1 == self.spec_winner_idx(v@)
                    &&& c.0 < self.rows
                    &&& c.1 < self.cols
                    &&& forall|n: int|
                        0 <= n < self.weights@.len() ==> dist_sq(
                            self.weights@[self.spec_winner_idx(v@)]@,
                            v@,
                        ) <= dist_sq((#[trigger] self.weights@[n])@, v@)
                },
                Err(e) => v@.len() != self.dim && e == CoreError::DimensionMismatch,
            },
    {
        if v.len() != self.dim {
            return Err(CoreError::DimensionMismatch);
        }
        let wi = self.winner_idx(v);
        proof {
            vstd::arithmetic::mul::lemma_mul_is_commutative(self.cols as int, self.rows as int);
            vstd::arithmetic::div_mod::lemma_multiply_divide_lt(
                wi as int,
                self.cols as int,
                self.rows as int,
            );
            vstd::arithmetic::div_mod::lemma_mod_division_less_than_divisor(
                wi as int,
                self.cols as int,
            );
            vstd::arithmetic::div_mod::lemma_mod_bound(wi as int, self.cols as int);
            vstd::arithmetic::div_mod::lemma_fundamental_div_mod(wi as int, self.cols as int);
            vstd::arithmetic::mul::lemma_mul_is_commutative(
                self.cols as int,
                wi as int / (self.cols as int),
            );
        }
        Ok((wi / self.cols, wi % self.cols))
    }

    /// Query determinism: the winner coordinate of a frozen grid is a
    /// function of the grid and the query vector alone, so any two
    /// calls of `winner` on the same grid with the same vector return
    /// the same coordinate.  The hypotheses are exactly what `winner`
    /// ensures of two successful calls.
    pub proof fn lemma_winner_deterministic(
        self,
        v: Seq<i64>,
        c1: (usize, usize),
        c2: (usize, usize),
    )
        requires
            c1.0 as int == self.spec_winner_idx(v) / (self.cols as int),
            c1.1 as int == self.spec_winner_idx(v) % (self.cols as int),
            c2.0 as int == self.spec_winner_idx(v) / (self.cols as int),
            c2.1 as int == self.spec_winner_idx(v) % (self.cols as int),
        ensures
            c1 == c2,
    {
    }

    /// One training step: pulls the winner's neighborhood toward the
    /// input row x with the given learning rate and radius.
    #[verifier::loop_isolation(false)]
    fn train_one(&mut self, x: &Vec<i64>, eta: u64, rad: u64)
        requires
            old(self).wf(),
            x@.len() == old(self).dim,
            in_feat_bounds(x@),
            eta <= 1_000_000,
            rad <= 1_000_000_000,
        ensures
            final(self).wf(),
            final(self).rows == old(self).rows,
            final(self).cols == old(self).cols,
            final(self).dim == old(self).dim,
            final(self).eta0 == old(self).eta0,
            final(self).radius0 == old(self).radius0,
            mat_view(final(self).weights@) == step_grid(
                mat_view(old(self).weights@),
                old(self).cols as int,
                x@,
                eta as int,
                rad as int,
            ),
    {
        let ghost g0 = mat_view(self.weights@);
        let wi = self.winner_idx(x);
        proof {
            assert(wi as int == best_in(g0, x@, g0.len() as int));
            vstd::arithmetic::mul::lemma_mul_is_commutative(self.cols as int, self.rows as int);
            vstd::arithmetic::div_mod::lemma_multiply_divide_lt(
                wi as int,
                self.cols as int,
                self.rows as int,
            );
            vstd::arithmetic::div_mod::lemma_mod_bound(wi as int, self.cols as int);
        }
        let wr = wi / self.cols;
        let wc = wi % self.cols;
        let n_len = self.weights.len();
        let mut n: usize = 0;
        while n < n_len
            invariant
                n <= n_len,
                self.rows == old(self).rows,
                self.cols == old(self).cols,
                self.dim == old(self).dim,
                self.eta0 == old(self).eta0,
                self.radius0 == old(self).radius0,
                self.weights@.len() == g0.len(),
                forall|m: int|
                    0 <= m < n ==> mat_view(self.weights@)[m] == step_grid(
                        g0,
                        old(self).cols as int,
                        x@,
                        eta as int,
                        rad as int,
                    )[m],
                forall|m: int| n <= m < g0.len() ==> (#[trigger] self.weights@[m])@ == g0[m],
                forall|m: int|
                    0 <= m < g0.len() ==> (#[trigger] self.weights@[m])@.len() == self.dim
                        && in_feat_bounds(self.weights@[m]@),
                wi as int == best_in(g0, x@, g0.len() as int),
            decreases n_len - n,
        {
            let ghost w_pre = self.weights@;
            proof {
                vstd::arithmetic::div_mod::lemma_multiply_divide_lt(
                    n as int,
                    self.cols as int,
                    self.rows as int,
                );
                vstd::arithmetic::div_mod::lemma_mod_bound(n as int, self.cols as int);
            }
            let i = n / self.cols;
            let j = n % self.cols;
            let di64: u64 = if i >= wr {
                (i - wr) as u64
            } else {
                (wr - i) as u64
            };
            let dj64: u64 = if j >= wc {
                (j - wc) as u64
            } else {
                (wc - j) as u64
            };
            proof {
                lemma_sq_bounds(di64 as int, 1000int);
                lemma_sq_bounds(dj64 as int, 1000int);
            }
            let d2: u64 = di64 * di64 + dj64 * dj64;
            let lhs: u128 = (d2 as u128) * 1_000_000_000_000u128;
            proof {
                vstd::arithmetic::mul::lemma_mul_upper_bound(
                    rad as int,
                    1_000_000_000,
                    rad as int,
                    1_000_000_000,
                );
            }
            let rhs: u128 = (rad as u128) * (rad as u128);
            proof {
                lemma_abs_sq(i as int - wr as int, di64 as int);
                lemma_abs_sq(j as int - wc as int, dj64 as int);
                assert(SCALE * SCALE == 1_000_000_000_000);
                assert((lhs <= rhs) == in_hood(
                    n as int,
                    wi as int,
                    self.cols as int,
                    rad as int,
                ));
            }
            if lhs <= rhs {
                let nr = blend_row_exec(&self.weights[n], x, eta);
                self.weights.set(n, nr);
            }
            proof {
                let sg = step_grid(g0, old(self).cols as int, x@, eta as int, rad as int);
                if in_hood(n as int, wi as int, self.cols as int, rad as int) {
                    assert(sg[n as int] == blend_row(g0[n as int], x@, eta as int));
                    assert(mat_view(self.weights@)[n as int] == blend_row(
                        g0[n as int],
                        x@,
                        eta as int,
                    ));
                } else {
                    assert(sg[n as int] == g0[n as int]);
                }
                assert forall|m: int| 0 <= m < n + 1 implies mat_view(self.weights@)[m]
                    == sg[m] by {
                    if m < n {
                        assert(self.weights@[m]@ == w_pre[m]@);
                        assert(mat_view(w_pre)[m] == sg[m]);
                    }
                }
            }
            n = n + 1;
        }
        proof {
            assert(mat_view(self.weights@) =~= step_grid(
                g0,
                old(self).cols as int,
                x@,
                eta as int,
                rad as int,
            ));
        }
    }

    /// Trains the grid: for each of `iters` iterations, draws one row
    /// of the dataset (uniformly at random with replacement, from the
    /// seeded generator, so runs are reproducible), finds the winner
    /// for that row, and pulls the winner's shrinking neighborhood
    /// toward the row with the decaying learning rate.  Fails with
    /// `EmptyInput` on an empty dataset and with `DimensionMismatch`
    /// when some row's length differs from the configured dimension;
    /// in both cases the grid is returned unchanged.
    #[verifier::loop_isolation(false)]
    pub fn train(&mut self, data: &Vec<Vec<i64>>, iters: u64, seed: u64) -> (r: Result<
        (),
        CoreError,
    >)
        requires
            old(self).wf(),
            iters <= 1_000_000_000,
            forall|i: int| 0 <= i < data@.len() ==> in_feat_bounds((#[trigger] data@[i])@),
        ensures
            final(self).wf(),
            final(self).rows == old(self).rows,
            final(self).cols == old(self).cols,
            final(self).dim == old(self).dim,
            final(self).eta0 == old(self).eta0,
            final(self).radius0 == old(self).radius0,
            match r {
                Ok(u) => {
                    &&& data@.len() > 0
                    &&& forall|i: int|
                        0 <= i < data@.len() ==> (#[trigger] data@[i])@.len() == old(self).dim
                    &&& mat_view(final(self).weights@) == train_upto(
                        mat_view(old(self).weights@),
                        old(self).cols as int,
                        mat_view(data@),
                        old(self).eta0,
                        old(self).radius0,
                        iters,
                        seed,
                        iters as int,
                    )
                },
                Err(e) => {
                    &&& *final(self) == *old(self)
                    &&& (e == CoreError::EmptyInput && data@.len() == 0) || (e
                        == CoreError::DimensionMismatch && data@.len() > 0 && exists|i: int|
                        0 <= i < data@.len() && (#[trigger] data@[i])@.len() != old(self).dim)
                },
            },
    {
        if data.len() == 0 {
            return Err(CoreError::EmptyInput);
        }
        let mut c: usize = 0;
        while c < data.len()
            invariant
                c <= data@.len(),
                forall|i: int| 0 <= i < c ==> (#[trigger] data@[i])@.len() == self.dim,
            decreases data@.len() - c,
        {
            if data[c].len() != self.dim {
                return Err(CoreError::DimensionMismatch);
            }
            c = c + 1;
        }
        let ghost g0 = mat_view(self.weights@);
        let ghost dv = mat_view(data@);
        let mut state: u64 = seed;
        let mut t: u64 = 0;
        while t < iters
            invariant
                t <= iters,
                state == rng_at(seed, t as nat),
                self.wf(),
                self.rows == old(self).rows,
                self.cols == old(self).cols,
                self.dim == old(self).dim,
                self.eta0 == old(self).eta0,
                self.radius0 == old(self).radius0,
                mat_view(self.weights@) == train_upto(
                    g0,
                    old(self).cols as int,
                    dv,
                    old(self).eta0,
                    old(self).radius0,
                    iters,
                    seed,
                    t as int,
                ),
            decreases iters - t,
        {
            state = lcg_step(state);
            let idx = (state % (data.len() as u64)) as usize;
            proof {
                assert(state % (data.len() as u64) < data.len() as u64);
                vstd::arithmetic::mul::lemma_mul_upper_bound(
                    self.eta0 as int,
                    1_000_000,
                    (iters - t) as int,
                    1_000_000_000,
                );
                vstd::arithmetic::mul::lemma_mul_upper_bound(
                    self.radius0 as int,
                    1_000_000_000,
                    (iters - t) as int,
                    1_000_000_000,
                );
                vstd::arithmetic::mul::lemma_mul_upper_bound(
                    self.eta0 as int,
                    1_000_000,
                    iters as int,
                    1_000_000_000,
                );
                vstd::arithmetic::mul::lemma_mul_upper_bound(
                    self.radius0 as int,
                    1_000_000_000,
                    iters as int,
                    1_000_000_000,
                );
                vstd::arithmetic::mul::lemma_mul_inequality(
                    (iters - t) as int,
                    iters as int,
                    self.eta0 as int,
                );
                vstd::arithmetic::mul::lemma_mul_is_commutative((iters - t) as int, self.eta0 as int);
                vstd::arithmetic::mul::lemma_mul_is_commutative(iters as int, self.eta0 as int);
                vstd::arithmetic::div_mod::lemma_div_is_ordered(
                    (self.eta0 * (iters - t)) as int,
                    (self.eta0 * iters) as int,
                    iters as int,
                );
                vstd::arithmetic::div_mod::lemma_div_multiples_vanish(
                    self.eta0 as int,
                    iters as int,
                );
                vstd::arithmetic::div_mod::lemma_div_pos_is_pos(
                    (self.eta0 * (iters - t)) as int,
                    iters as int,
                );
                vstd::arithmetic::mul::lemma_mul_inequality(
                    (iters - t) as int,
                    iters as int,
                    self.radius0 as int,
                );
                vstd::arithmetic::mul::lemma_mul_is_commutative(
                    (iters - t) as int,
                    self.radius0 as int,
                );
                vstd::arithmetic::mul::lemma_mul_is_commutative(iters as int, self.radius0 as int);
                vstd::arithmetic::div_mod::lemma_div_is_ordered(
                    (self.radius0 * (iters - t)) as int,
                    (self.radius0 * iters) as int,
                    iters as int,
                );
                vstd::arithmetic::div_mod::lemma_div_multiples_vanish(
                    self.radius0 as int,
                    iters as int,
                );
                vstd::arithmetic::div_mod::lemma_div_pos_is_pos(
                    (self.radius0 * (iters - t)) as int,
                    iters as int,
                );
            }
            let eta = (self.eta0 * (iters - t)) / iters;
            let rad = (self.radius0 * (iters - t)) / iters;
            self.train_one(&data[idx], eta, rad);
            t = t + 1;
        }
        Ok(())
    }

    /// Diagnostic activation response, recomputed from the current
    /// grid: for every neuron (row-major), the count of dataset rows
    /// for which that neuron is the winner.  Fails with
    /// `DimensionMismatch` exactly when some row's length differs from
    /// the configured dimension.
    #[verifier::loop_isolation(false)]
    pub fn activation_response(&self, data: &Vec<Vec<i64>>) -> (r: Result<Vec<u64>, CoreError>)
        requires
            self.wf(),
            forall|i: int| 0 <= i < data@.len() ==> in_feat_bounds((#[trigger] data@[i])@),
        ensures
            match r {
                Ok(c) => {
                    &&& forall|i: int|
                        0 <= i < data@.len() ==> (#[trigger] data@[i])@.len() == self.dim
                    &&& c@.len() == self.weights@.len()
                    &&& forall|n: int|
                        0 <= n < c@.len() ==> c@[n] == act_count(
                            mat_view(self.weights@),
                            mat_view(data@),
                            n,
                            data@.len() as int,
                        )
                },
                Err(e) => e == CoreError::DimensionMismatch && exists|i: int|
                    0 <= i < data@.len() && (#[trigger] data@[i])@.len() != self.dim,
            },
    {
        let mut c: usize = 0;
        while c < data.len()
            invariant
                c <= data@.len(),
                forall|i: int| 0 <= i < c ==> (#[trigger] data@[i])@.len() == self.dim,
            decreases data@.len() - c,
        {
            if data[c].len() != self.dim {
                return Err(CoreError::DimensionMismatch);
            }
            c = c + 1;
        }
        let ghost g = mat_view(self.weights@);
        let ghost dv = mat_view(data@);
        let n_len = self.weights.len();
        let mut counts: Vec<u64> = Vec::new();
        let mut z: usize = 0;
        while z < n_len
            invariant
                z <= n_len,
                counts@.len() == z,
                forall|n: int| 0 <= n < z ==> counts@[n] == 0,
            decreases n_len - z,
        {
            counts.push(0);
            z = z + 1;
        }
        let mut i: usize = 0;
        while i < data.len()
            invariant
                i <= data@.len(),
                counts@.len() == self.weights@.len(),
                forall|n: int|
                    0 <= n < counts@.len() ==> counts@[n] == act_count(g, dv, n, i as int)
                        && counts@[n] <= i,
            decreases data@.len() - i,
        {
            let wi = self.winner_idx(&data[i]);
            let cur = counts[wi];
            counts.set(wi, cur + 1);
            i = i + 1;
        }
        Ok(counts)
    }
}

} // verus!
