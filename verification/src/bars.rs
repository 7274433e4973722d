use vstd::prelude::*;

use crate::errors::CoreError;
use crate::fixp::{in_feat_bounds, FACTOR, FEAT_MAX, FEAT_MIN, RATIO_CAP, SCALE};

verus! {

/// One daily price bar of one instrument.  Prices are fixed-point
/// integers in an arbitrary currency unit chosen by the data loader
/// (the same unit for every bar of a run).
#[derive(Clone, Copy, Debug, PartialEq, Eq, Structural)]
pub struct OHLC {
    pub open: u64,
    pub high: u64,
    pub low: u64,
    pub close: u64,
}

/// A dated bar: the day number (day 1 = first day of year 1, a Monday)
/// and the bar itself.
#[derive(Clone, Copy, Debug, PartialEq, Eq, Structural)]
pub struct DailyBar {
    pub day: u64,
    pub ohlc: OHLC,
}

/// One entry of a normalized per-instrument series: the day and the
/// 4-element normalized feature sub-vector of that day's bar.
#[derive(Clone, Debug)]
pub struct SeriesPoint {
    pub day: u64,
    pub vals: Vec<i64>,
}

/// The normalized value of price x against previous close lc:
/// the fixed-point representation of (x / lc - 1) * FACTOR, rounded
/// down at scale SCALE.
pub open spec fn norm_val(x: int, lc: int) -> int
    recommends
        1 <= lc,
{
    (x * (FACTOR * SCALE)) / lc - FACTOR * SCALE
}

/// The de-normalized ratio of a normalized component n: the fixed-point
/// representation of n / FACTOR + 1, i.e. the price / previous-close
/// ratio the component stands for, rounded down at scale SCALE.
pub open spec fn denorm_val(n: int) -> int {
    (n + FACTOR * SCALE) / (FACTOR as int)
}

/// A single price is representable against this previous close.
pub open spec fn price_ok(x: int, lc: int) -> bool {
    1 <= lc && x <= lc * RATIO_CAP
}

/// The whole bar is representable against this previous close.
pub open spec fn bar_ok(b: OHLC, lc: u64) -> bool {
    price_ok(b.open as int, lc as int) && price_ok(b.high as int, lc as int)
        && price_ok(b.low as int, lc as int) && price_ok(b.close as int, lc as int)
}

/// Normalizes one price against the previous close.
fn norm_component(x: u64, lc: u64) -> (r: i64)
    requires
        price_ok(x as int, lc as int),
    ensures
        r == norm_val(x as int, lc as int),
        FEAT_MIN <= r <= FEAT_MAX,
{
    let num: u128 = (x as u128) * 20_000_000u128;
    let q: u128 = num / (lc as u128);
    proof {
        let xi = x as int;
        let li = lc as int;
        let ci = RATIO_CAP as int;
        assert(FACTOR * SCALE == 20_000_000);
        vstd::arithmetic::mul::lemma_mul_inequality(xi, li * ci, 20_000_000int);
        vstd::arithmetic::mul::lemma_mul_is_associative(li, ci, 20_000_000int);
        assert((li * ci) * 20_000_000 == li * 20_000_000_000);
        vstd::arithmetic::div_mod::lemma_div_is_ordered(
            xi * 20_000_000,
            li * 20_000_000_000,
            li,
        );
        vstd::arithmetic::div_mod::lemma_div_multiples_vanish(20_000_000_000, li);
        assert((li * 20_000_000_000) / li == 20_000_000_000);
        vstd::arithmetic::div_mod::lemma_div_pos_is_pos(xi * 20_000_000, li);
        vstd::arithmetic::mul::lemma_mul_nonnegative(xi, 20_000_000);
        assert(q == (xi * 20_000_000) / li);
        assert(0 <= q <= 20_000_000_000);
    }
    (q as i64) - 20_000_000i64
}

/// Normalizes a bar against the previous day's close.  Fails with
/// `InvalidInput` exactly when the previous close is zero or a price of
/// the bar exceeds `RATIO_CAP` times the previous close (and is thus
/// not representable in the feature range).  On success the result is
/// the 4-element vector [open, high, low, close], each normalized.
pub fn normalize_bar(bar: &OHLC, last_close: u64) -> (r: Result<Vec<i64>, CoreError>)
    ensures
        match r {
            Ok(v) => {
                &&& bar_ok(*bar, last_close)
                &&& v@.len() == 4
                &&& v@[0] == norm_val(bar.open as int, last_close as int)
                &&& v@[1] == norm_val(bar.high as int, last_close as int)
                &&& v@[2] == norm_val(bar.low as int, last_close as int)
                &&& v@[3] == norm_val(bar.close as int, last_close as int)
                &&& in_feat_bounds(v@)
            },
            Err(e) => !bar_ok(*bar, last_close) && e == CoreError::InvalidInput,
        },
{
    if last_close == 0 {
        return Err(CoreError::InvalidInput);
    }
    let cap: u128 = (last_close as u128) * 1000u128;
    if (bar.open as u128) > cap || (bar.high as u128) > cap || (bar.low as u128) > cap
        || (bar.close as u128) > cap {
        return Err(CoreError::InvalidInput);
    }
    let mut v: Vec<i64> = Vec::new();
    v.push(norm_component(bar.open, last_close));
    v.push(norm_component(bar.high, last_close));
    v.push(norm_component(bar.low, last_close));
    v.push(norm_component(bar.close, last_close));
    proof {
        assert forall|k: int| 0 <= k < v@.len() implies FEAT_MIN <= #[trigger] v@[k]
            <= FEAT_MAX by {
        }
    }
    Ok(v)
}

/// Days are non-decreasing along the series.
pub open spec fn sorted_by_day(s: Seq<SeriesPoint>) -> bool {
    forall|i: int, j: int| 0 <= i < j < s.len() ==> s[i].day <= s[j].day
}

/// A well-formed normalized series: non-decreasing days, and every
/// entry a 4-element vector within the feature range.
pub open spec fn series_wf(s: Seq<SeriesPoint>) -> bool {
    &&& sorted_by_day(s)
    &&& forall|i: int|
        0 <= i < s.len() ==> (#[trigger] s[i].vals)@.len() == 4 && in_feat_bounds(s[i].vals@)
}

/// Every bar after the first is representable against its predecessor's
/// close.
pub open spec fn series_ok(bars: Seq<DailyBar>) -> bool {
    forall|i: int| 1 <= i < bars.len() ==> bar_ok((#[trigger] bars[i]).ohlc, bars[i - 1].ohlc.close)
}

/// Days are non-decreasing along the raw bar series.
pub open spec fn bars_sorted(bars: Seq<DailyBar>) -> bool {
    forall|i: int, j: int| 0 <= i < j < bars.len() ==> bars[i].day <= bars[j].day
}

/// Normalizes a whole per-instrument bar series.  Every bar after the
/// first is normalized against its predecessor's close; the first bar
/// only supplies a previous close and yields no entry, so the result
/// has one entry fewer than the input (and none for an empty input).
/// Fails with `InvalidInput` exactly when some bar is not representable
/// against its predecessor's close (including a zero previous close).
pub fn normalize_series(bars: &Vec<DailyBar>) -> (r: Result<Vec<SeriesPoint>, CoreError>)
    ensures
        match r {
            Ok(s) => {
                &&& series_ok(bars@)
                &&& s@.len() == if bars@.len() == 0 { 0int } else { bars@.len() - 1 }
                &&& forall|i: int|
                    0 <= i < s@.len() ==> {
                        &&& (#[trigger] s@[i]).day == bars@[i + 1].day
                        &&& s@[i].vals@.len() == 4
                        &&& in_feat_bounds(s@[i].vals@)
                        &&& s@[i].vals@[0] == norm_val(
                            bars@[i + 1].ohlc.open as int,
                            bars@[i].ohlc.close as int,
                        )
                        &&& s@[i].vals@[1] == norm_val(
                            bars@[i + 1].ohlc.high as int,
                            bars@[i].ohlc.close as int,
                        )
                        &&& s@[i].vals@[2] == norm_val(
                            bars@[i + 1].ohlc.low as int,
                            bars@[i].ohlc.close as int,
                        )
                        &&& s@[i].vals@[3] == norm_val(
                            bars@[i + 1].ohlc.close as int,
                            bars@[i].ohlc.close as int,
                        )
                    }
                &&& (bars_sorted(bars@) ==> series_wf(s@))
            },
            Err(e) => !series_ok(bars@) && e == CoreError::InvalidInput,
        },
{
    let mut s: Vec<SeriesPoint> = Vec::new();
    if bars.len() == 0 {
        return Ok(s);
    }
    let mut i: usize = 1;
    while i < bars.len()
        invariant
            1 <= i <= bars@.len(),
            s@.len() == i - 1,
            forall|j: int|
                0 <= j < s@.len() ==> {
                    &&& (#[trigger] s@[j]).day == bars@[j + 1].day
                    &&& s@[j].vals@.len() == 4
                    &&& in_feat_bounds(s@[j].vals@)
                    &&& s@[j].vals@[0] == norm_val(
                        bars@[j + 1].ohlc.open as int,
                        bars@[j].ohlc.close as int,
                    )
                    &&& s@[j].vals@[1] == norm_val(
                        bars@[j + 1].ohlc.high as int,
                        bars@[j].ohlc.close as int,
                    )
                    &&& s@[j].vals@[2] == norm_val(
                        bars@[j + 1].ohlc.low as int,
                        bars@[j].ohlc.close as int,
                    )
                    &&& s@[j].vals@[3] == norm_val(
                        bars@[j + 1].ohlc.close as int,
                        bars@[j].ohlc.close as int,
                    )
                },
            forall|j: int| 1 <= j < i ==> bar_ok((#[trigger] bars@[j]).ohlc, bars@[j - 1].ohlc.close),
        decreases bars@.len() - i,
    {
        let prev_close = bars[i - 1].ohlc.close;
        match normalize_bar(&bars[i].ohlc, prev_close) {
            Ok(vals) => {
                s.push(SeriesPoint { day: bars[i].day, vals });
            },
            Err(_) => {
                return Err(CoreError::InvalidInput);
            },
        }
        i = i + 1;
    }
    proof {
        if bars_sorted(bars@) {
            assert forall|a: int, b: int| 0 <= a < b < s@.len() implies s@[a].day
                <= s@[b].day by {
                assert(bars@[a + 1].day <= bars@[b + 1].day);
            }
        }
    }
    Ok(s)
}

/// De-normalizes one component of a normalized (or averaged) feature
/// vector back to a price ratio: divide by FACTOR and add 1, in fixed
/// point.  The result is the fixed-point ratio, always non-negative.
pub fn denorm_ratio(n: i64) -> (r: u64)
    requires
        FEAT_MIN <= n <= FEAT_MAX,
    ensures
        r == denorm_val(n as int),
{
    let shifted: u64 = (n + 20_000_000i64) as u64;
    let q: u64 = shifted / 20;
    proof {
        assert(FACTOR * SCALE == 20_000_000);
        assert(q == (n + 20_000_000) / 20);
    }
    q
}

/// Normalization round-trip: de-normalizing the normalized value of a
/// price x against a positive previous close lc recovers exactly the
/// fixed-point ratio (SCALE * x) / lc, i.e. the true ratio x / lc
/// rounded down at scale SCALE.  The second conclusion bounds that
/// rounding: the recovered ratio r satisfies r * lc <= SCALE * x <
/// (r + 1) * lc, so the original ratio is recovered to within one part
/// in SCALE.
pub proof fn lemma_norm_round_trip(x: u64, lc: u64)
    requires
        1 <= lc,
    ensures
        denorm_val(norm_val(x as int, lc as int)) == (SCALE * x) / (lc as int),
        ((SCALE * x) / (lc as int)) * lc <= SCALE * x,
        SCALE * x < ((SCALE * x) / (lc as int) + 1) * lc,
{
    let xi = x as int;
    let li = lc as int;
    let fi = FACTOR as int;
    let si = SCALE as int;
    let fs = fi * si;
    assert(norm_val(xi, li) + fs == (xi * fs) / li);
    assert(denorm_val(norm_val(xi, li)) == ((xi * fs) / li) / fi);
    vstd::arithmetic::mul::lemma_mul_nonnegative(xi, fs);
    vstd::arithmetic::div_mod::lemma_div_denominator(xi * fs, li, fi);
    assert(((xi * fs) / li) / fi == (xi * fs) / (li * fi));
    assert(xi * fs == fi * (si * xi)) by {
        vstd::arithmetic::mul::lemma_mul_is_associative(fi, si, xi);
        vstd::arithmetic::mul::lemma_mul_is_commutative(xi, fs);
    }
    assert(li * fi == fi * li) by {
        vstd::arithmetic::mul::lemma_mul_is_commutative(li, fi);
    }
    vstd::arithmetic::mul::lemma_mul_nonnegative(si, xi);
    vstd::arithmetic::div_mod::lemma_div_multiples_vanish_quotient(fi, si * xi, li);
    assert((fi * (si * xi)) / (fi * li) == (si * xi) / li);
    assert(si * xi == SCALE * x);
    vstd::arithmetic::div_mod::lemma_fundamental_div_mod(si * xi, li);
    vstd::arithmetic::div_mod::lemma_mod_division_less_than_divisor(si * xi, li);
    let q = (si * xi) / li;
    let r = (si * xi) % li;
    assert(si * xi == li * q + r);
    assert(0 <= r < li);
    assert(q * li == li * q) by {
        vstd::arithmetic::mul::lemma_mul_is_commutative(q, li);
    }
    assert((q + 1) * li == q * li + li) by {
        vstd::arithmetic::mul::lemma_mul_is_distributive_add_other_way(li, q, 1);
    }
}

} // verus!
