use vstd::prelude::*;

use crate::bars::{series_wf, SeriesPoint};
use crate::calendar::{one_hot, one_hot_seq};
use crate::errors::CoreError;
use crate::fixp::{in_feat_bounds, FEAT_MAX, FEAT_MIN, SCALE};

verus! {

/// One row of the aligned dataset: a date present in every instrument's
/// series, and the combined feature vector of that date (weekday one-hot
/// followed by each instrument's normalized 4-vector).
#[derive(Clone, Debug)]
pub struct AlignedRow {
    pub day: u64,
    pub features: Vec<i64>,
}

/// The series holds at least one entry for this day.
pub open spec fn has_day(s: Seq<SeriesPoint>, d: u64) -> bool {
    exists|i: int| 0 <= i < s.len() && s[i].day == d
}

/// Index of the last entry of the series with this day, or -1 when the
/// day is absent.  Where a series holds duplicate entries for one date,
/// the later-loaded entry overwrites the earlier one, so lookups go
/// through the last match.
pub open spec fn last_idx(s: Seq<SeriesPoint>, d: u64) -> int
    decreases s.len(),
{
    if s.len() == 0 {
        -1
    } else if s[s.len() - 1].day == d {
        s.len() - 1
    } else {
        last_idx(s.drop_last(), d)
    }
}

/// No later entry of the series repeats the day of entry i.
pub open spec fn is_last_of(s: Seq<SeriesPoint>, i: int) -> bool {
    forall|j: int| i < j < s.len() ==> s[j].day != s[i].day
}

/// Entry i of the base series produces an aligned row: it is the last
/// entry of its day in the base series, and every series has that day.
pub open spec fn keep(all: Seq<Vec<SeriesPoint>>, i: int) -> bool
    recommends
        all.len() >= 1,
        0 <= i < all[0]@.len(),
{
    is_last_of(all[0]@, i) && forall|j: int|
        0 <= j < all.len() ==> has_day((#[trigger] all[j])@, all[0]@[i].day)
}

/// Concatenation of the (last-match) 4-vectors of series 0 .. j for day d.
pub open spec fn row_head(all: Seq<Vec<SeriesPoint>>, d: u64, j: int) -> Seq<i64>
    decreases j,
{
    if j <= 0 {
        Seq::empty()
    } else {
        row_head(all, d, j - 1) + all[j - 1]@[last_idx(all[j - 1]@, d)].vals@
    }
}

/// The combined feature vector of day d: the weekday one-hot encoding
/// followed by every instrument's normalized 4-vector for that day.
pub open spec fn row_features(all: Seq<Vec<SeriesPoint>>, d: u64) -> Seq<i64> {
    one_hot_seq(d as int) + row_head(all, d, all.len() as int)
}

/// The aligned dataset built from the first `upto` entries of the base
/// series, as a sequence of (day, feature vector) pairs.
pub open spec fn align_upto(all: Seq<Vec<SeriesPoint>>, upto: int) -> Seq<(u64, Seq<i64>)>
    decreases upto,
{
    if upto <= 0 {
        Seq::empty()
    } else {
        let pre = align_upto(all, upto - 1);
        if keep(all, upto - 1) {
            pre.push((all[0]@[upto - 1].day, row_features(all, all[0]@[upto - 1].day)))
        } else {
            pre
        }
    }
}

/// The full aligned dataset of the given series.
pub open spec fn align_model(all: Seq<Vec<SeriesPoint>>) -> Seq<(u64, Seq<i64>)>
    recommends
        all.len() >= 1,
{
    align_upto(all, all[0]@.len() as int)
}

/// The (day, feature vector) view of a sequence of aligned rows.
pub open spec fn rows_model(rows: Seq<AlignedRow>) -> Seq<(u64, Seq<i64>)> {
    Seq::new(rows.len(), |i: int| ((rows[i].day, rows[i].features@)))
}

proof fn lemma_last_idx_at(s: Seq<SeriesPoint>, d: u64, i: int)
    requires
        0 <= i < s.len(),
        s[i].day == d,
        forall|j: int| i < j < s.len() ==> s[j].day != d,
    ensures
        last_idx(s, d) == i,
    decreases s.len(),
{
    if i == s.len() - 1 {
    } else {
        assert(s[s.len() - 1].day != d);
        assert(forall|j: int| 0 <= j < s.len() - 1 ==> s.drop_last()[j] == s[j]);
        lemma_last_idx_at(s.drop_last(), d, i);
    }
}

pub proof fn lemma_last_idx_props(s: Seq<SeriesPoint>, d: u64)
    requires
        has_day(s, d),
    ensures
        0 <= last_idx(s, d) < s.len(),
        s[last_idx(s, d)].day == d,
    decreases s.len(),
{
    if s[s.len() - 1].day == d {
    } else {
        let i = choose|i: int| 0 <= i < s.len() && s[i].day == d;
        assert(s.drop_last()[i] == s[i]);
        lemma_last_idx_props(s.drop_last(), d);
    }
}

proof fn lemma_align_upto_none(all: Seq<Vec<SeriesPoint>>, upto: int)
    requires
        all.len() >= 2,
        forall|a: int, b: int, d: u64|
            0 <= a < b < all.len() ==> !(#[trigger] has_day(all[a]@, d) && #[trigger] has_day(
                all[b]@,
                d,
            )),
        0 <= upto <= all[0]@.len(),
    ensures
        align_upto(all, upto).len() == 0,
    decreases upto,
{
    if upto > 0 {
        lemma_align_upto_none(all, upto - 1);
        if keep(all, upto - 1) {
            let d = all[0]@[upto - 1].day;
            assert(has_day(all[0]@, d)) by {
                assert(all[0]@[upto - 1].day == d);
            }
            assert(has_day(all[1]@, d));
            assert(false);
        }
    }
}

/// Disjoint date sets give an empty aligned dataset: when no date is
/// shared by any two of the (at least two) series, the inner join
/// retains nothing.
pub proof fn lemma_align_disjoint(all: Seq<Vec<SeriesPoint>>)
    requires
        all.len() >= 2,
        forall|a: int, b: int, d: u64|
            0 <= a < b < all.len() ==> !(#[trigger] has_day(all[a]@, d) && #[trigger] has_day(
                all[b]@,
                d,
            )),
    ensures
        align_model(all).len() == 0,
{
    lemma_align_upto_none(all, all[0]@.len() as int);
}

/// All series carry exactly the same days, each strictly increasing.
pub open spec fn same_strict_days(all: Seq<Vec<SeriesPoint>>) -> bool {
    &&& forall|i: int, j: int|
        0 <= i < j < all[0]@.len() ==> all[0]@[i].day < all[0]@[j].day
    &&& forall|t: int| 0 <= t < all.len() ==> (#[trigger] all[t])@.len() == all[0]@.len()
    &&& forall|t: int, i: int|
        0 <= t < all.len() && 0 <= i < all[0]@.len() ==> (#[trigger] all[t]@[i]).day
            == all[0]@[i].day
}

proof fn lemma_align_upto_full(all: Seq<Vec<SeriesPoint>>, upto: int)
    requires
        all.len() >= 1,
        same_strict_days(all),
        0 <= upto <= all[0]@.len(),
    ensures
        align_upto(all, upto).len() == upto,
    decreases upto,
{
    if upto > 0 {
        lemma_align_upto_full(all, upto - 1);
        let i = upto - 1;
        let d = all[0]@[i].day;
        assert(is_last_of(all[0]@, i));
        assert forall|t: int| 0 <= t < all.len() implies has_day(
            (#[trigger] all[t])@,
            d,
        ) by {
            assert(all[t]@[i].day == d);
        }
        assert(keep(all, i));
    }
}

/// Series sharing exactly the same (gap-free, strictly increasing) day
/// sequence align completely: the aligned row count equals that common
/// length.
pub proof fn lemma_align_full(all: Seq<Vec<SeriesPoint>>)
    requires
        all.len() >= 1,
        same_strict_days(all),
    ensures
        align_model(all).len() == all[0]@.len(),
{
    lemma_align_upto_full(all, all[0]@.len() as int);
}

proof fn lemma_row_head_shape(all: Seq<Vec<SeriesPoint>>, d: u64, j: int)
    requires
        forall|t: int| 0 <= t < all.len() ==> series_wf((#[trigger] all[t])@),
        forall|t: int| 0 <= t < all.len() ==> has_day((#[trigger] all[t])@, d),
        0 <= j <= all.len(),
    ensures
        row_head(all, d, j).len() == 4 * j,
        forall|k: int|
            0 <= k < 4 * j ==> FEAT_MIN <= #[trigger] row_head(all, d, j)[k] <= FEAT_MAX,
    decreases j,
{
    if j > 0 {
        lemma_row_head_shape(all, d, j - 1);
        lemma_last_idx_props(all[j - 1]@, d);
        let li = last_idx(all[j - 1]@, d);
        assert(all[j - 1]@[li].vals@.len() == 4);
        assert(in_feat_bounds(all[j - 1]@[li].vals@));
        assert forall|k: int| 0 <= k < 4 * j implies FEAT_MIN <= #[trigger] row_head(all, d, j)[k]
            <= FEAT_MAX by {
            if k < 4 * (j - 1) {
            } else {
                assert(row_head(all, d, j)[k] == all[j - 1]@[li].vals@[k - 4 * (j - 1)]);
            }
        }
    }
}

/// Shape of the aligned rows: every feature vector has dimension
/// 5 + 4 * N (N the number of instruments) and every component lies in
/// the representable feature range.
pub proof fn lemma_align_rows_shape(all: Seq<Vec<SeriesPoint>>, upto: int)
    requires
        all.len() >= 1,
        forall|t: int| 0 <= t < all.len() ==> series_wf((#[trigger] all[t])@),
        0 <= upto <= all[0]@.len(),
    ensures
        forall|k: int|
            0 <= k < align_upto(all, upto).len() ==> (#[trigger] align_upto(all, upto)[k]).1.len()
                == 5 + 4 * all.len(),
        forall|k: int|
            0 <= k < align_upto(all, upto).len() ==> in_feat_bounds(
                (#[trigger] align_upto(all, upto)[k]).1,
            ),
        align_upto(all, upto).len() <= upto,
    decreases upto,
{
    if upto > 0 {
        lemma_align_rows_shape(all, upto - 1);
        if keep(all, upto - 1) {
            let d = all[0]@[upto - 1].day;
            lemma_row_head_shape(all, d, all.len() as int);
            let rf = row_features(all, d);
            assert(one_hot_seq(d as int).len() == 5);
            assert(rf.len() == 5 + 4 * all.len());
            assert forall|k: int| 0 <= k < rf.len() implies FEAT_MIN <= #[trigger] rf[k]
                <= FEAT_MAX by {
                if k < 5 {
                    assert(rf[k] == one_hot_seq(d as int)[k]);
                    assert(0 <= SCALE <= FEAT_MAX);
                } else {
                    assert(rf[k] == row_head(all, d, all.len() as int)[k - 5]);
                }
            }
            assert(in_feat_bounds(rf));
        }
    }
}

proof fn lemma_align_upto_incr(all: Seq<Vec<SeriesPoint>>, upto: int)
    requires
        all.len() >= 1,
        forall|i: int, j: int| 0 <= i < j < all[0]@.len() ==> all[0]@[i].day <= all[0]@[j].day,
        0 <= upto <= all[0]@.len(),
    ensures
        forall|a: int, b: int|
            0 <= a < b < align_upto(all, upto).len() ==> (#[trigger] align_upto(all, upto)[a]).0
                < (#[trigger] align_upto(all, upto)[b]).0,
        align_upto(all, upto).len() > 0 ==> exists|li: int|
            {
                &&& 0 <= li < upto
                &&& #[trigger] keep(all, li)
                &&& align_upto(all, upto).last().0 == all[0]@[li].day
                &&& forall|j: int| li < j < upto ==> !keep(all, j)
            },
    decreases upto,
{
    if upto > 0 {
        lemma_align_upto_incr(all, upto - 1);
        let pre = align_upto(all, upto - 1);
        let cur = align_upto(all, upto);
        if keep(all, upto - 1) {
            let d = all[0]@[upto - 1].day;
            if pre.len() > 0 {
                let li = choose|li: int|
                    {
                        &&& 0 <= li < upto - 1
                        &&& #[trigger] keep(all, li)
                        &&& pre.last().0 == all[0]@[li].day
                        &&& forall|j: int| li < j < upto - 1 ==> !keep(all, j)
                    };
                assert(all[0]@[li].day <= d);
                assert(is_last_of(all[0]@, li));
                assert(all[0]@[upto - 1].day != all[0]@[li].day);
                assert(pre.last().0 < d);
                assert forall|a: int, b: int| 0 <= a < b < cur.len() implies (
                #[trigger] cur[a]).0 < (#[trigger] cur[b]).0 by {
                    if b < cur.len() - 1 {
                        assert(cur[a] == pre[a] && cur[b] == pre[b]);
                    } else {
                        assert(cur[b].0 == d);
                        if a < pre.len() - 1 {
                            assert(pre[a].0 < pre.last().0);
                        }
                    }
                }
            }
            assert(cur.last().0 == d);
            assert(0 <= upto - 1 < upto && keep(all, upto - 1) && cur.last().0 == all[0]@[upto
                - 1].day && (forall|j: int| upto - 1 < j < upto ==> !keep(all, j)));
        } else {
            if cur.len() > 0 {
                let li = choose|li: int|
                    {
                        &&& 0 <= li < upto - 1
                        &&& #[trigger] keep(all, li)
                        &&& pre.last().0 == all[0]@[li].day
                        &&& forall|j: int| li < j < upto - 1 ==> !keep(all, j)
                    };
                assert(0 <= li < upto && keep(all, li) && cur.last().0 == all[0]@[li].day && (
                forall|j: int| li < j < upto ==> !keep(all, j)));
            }
        }
    }
}

proof fn lemma_last_idx_increasing(s: Seq<SeriesPoint>, d1: u64, d2: u64)
    requires
        forall|i: int, j: int| 0 <= i < j < s.len() ==> s[i].day <= s[j].day,
        has_day(s, d1),
        has_day(s, d2),
        d1 < d2,
    ensures
        last_idx(s, d1) < last_idx(s, d2),
{
    lemma_last_idx_props(s, d1);
    lemma_last_idx_props(s, d2);
    let i1 = last_idx(s, d1);
    let i2 = last_idx(s, d2);
    if i1 > i2 {
        assert(s[i2].day <= s[i1].day);
        assert(false);
    }
}

proof fn lemma_align_upto_bounded(all: Seq<Vec<SeriesPoint>>, j: int, upto: int)
    requires
        all.len() >= 1,
        forall|a: int, b: int| 0 <= a < b < all[0]@.len() ==> all[0]@[a].day <= all[0]@[b].day,
        0 <= j < all.len(),
        forall|a: int, b: int| 0 <= a < b < all[j]@.len() ==> all[j]@[a].day <= all[j]@[b].day,
        0 <= upto <= all[0]@.len(),
    ensures
        align_upto(all, upto).len() > 0 ==> {
            let cur = align_upto(all, upto);
            &&& has_day(all[j]@, cur.last().0)
            &&& cur.len() <= last_idx(all[j]@, cur.last().0) + 1
        },
    decreases upto,
{
    lemma_align_upto_incr(all, upto);
    if upto > 0 {
        lemma_align_upto_bounded(all, j, upto - 1);
        let pre = align_upto(all, upto - 1);
        let cur = align_upto(all, upto);
        if keep(all, upto - 1) {
            let d = all[0]@[upto - 1].day;
            assert(has_day(all[j]@, d));
            lemma_last_idx_props(all[j]@, d);
            if pre.len() > 0 {
                lemma_align_upto_incr(all, upto - 1);
                let li = choose|li: int|
                    {
                        &&& 0 <= li < upto - 1
                        &&& #[trigger] keep(all, li)
                        &&& pre.last().0 == all[0]@[li].day
                        &&& forall|j2: int| li < j2 < upto - 1 ==> !keep(all, j2)
                    };
                let dp = all[0]@[li].day;
                assert(has_day(all[j]@, dp));
                assert(dp <= d);
                assert(is_last_of(all[0]@, li));
                assert(all[0]@[upto - 1].day != dp);
                lemma_last_idx_increasing(all[j]@, dp, d);
            }
        }
    }
}

/// The aligned dataset is never longer than any instrument's series:
/// its length is at most the minimum of the per-instrument lengths.
pub proof fn lemma_align_len_bounded(all: Seq<Vec<SeriesPoint>>, j: int)
    requires
        all.len() >= 1,
        forall|a: int, b: int| 0 <= a < b < all[0]@.len() ==> all[0]@[a].day <= all[0]@[b].day,
        0 <= j < all.len(),
        forall|a: int, b: int| 0 <= a < b < all[j]@.len() ==> all[j]@[a].day <= all[j]@[b].day,
    ensures
        align_model(all).len() <= all[j]@.len(),
{
    lemma_align_upto_bounded(all, j, all[0]@.len() as int);
    let m = align_model(all);
    if m.len() > 0 {
        lemma_last_idx_props(all[j]@, m.last().0);
    }
}

/// Aligned rows come out strictly ascending by date: the aligned
/// dataset has no duplicate dates and preserves chronological order.
pub proof fn lemma_align_increasing(all: Seq<Vec<SeriesPoint>>)
    requires
        all.len() >= 1,
        forall|i: int, j: int| 0 <= i < j < all[0]@.len() ==> all[0]@[i].day <= all[0]@[j].day,
    ensures
        forall|a: int, b: int|
            0 <= a < b < align_model(all).len() ==> (#[trigger] align_model(all)[a]).0
                < (#[trigger] align_model(all)[b]).0,
{
    lemma_align_upto_incr(all, all[0]@.len() as int);
}

/// Looks up the last entry of the series with the given day.
fn find_last(s: &Vec<SeriesPoint>, d: u64) -> (r: Option<usize>)
    ensures
        match r {
            Some(i) => i < s@.len() && i as int == last_idx(s@, d) && s@[i as int].day == d,
            None => !has_day(s@, d),
        },
{
    let mut k: usize = s.len();
    while k > 0
        invariant
            k <= s@.len(),
            forall|j: int| k <= j < s@.len() ==> s@[j].day != d,
        decreases k,
    {
        if s[k - 1].day == d {
            proof {
                lemma_last_idx_at(s@, d, k - 1);
            }
            return Some(k - 1);
        }
        k = k - 1;
    }
    None
}

/// Inner-joins the normalized per-instrument series on date.  Retains
/// exactly the dates present in every series (taking, per series, the
/// last-loaded entry of a duplicated date), and for each retained date
/// concatenates the weekday one-hot encoding with every instrument's
/// normalized 4-vector.  Rows come out ascending by date because the
/// input series are date-ordered.  Fails with `EmptyInput` exactly when
/// no series at all is supplied.
#[verifier::loop_isolation(false)]
pub fn align_series(all: &Vec<Vec<SeriesPoint>>) -> (r: Result<Vec<AlignedRow>, CoreError>)
    requires
        forall|j: int| 0 <= j < all@.len() ==> series_wf((#[trigger] all@[j])@),
    ensures
        match r {
            Ok(rows) => all@.len() >= 1 && rows_model(rows@) == align_model(all@),
            Err(e) => all@.len() == 0 && e == CoreError::EmptyInput,
        },
{
    if all.len() == 0 {
        return Err(CoreError::EmptyInput);
    }
    let ghost allv = all@;
    let base_len = all[0].len();
    let mut rows: Vec<AlignedRow> = Vec::new();
    let mut i: usize = 0;
    while i < base_len
        invariant
            i <= base_len,
            rows_model(rows@) == align_upto(allv, i as int),
        decreases base_len - i,
    {
        let d = all[0][i].day;
        let is_last = i + 1 == base_len || all[0][i + 1].day != d;
        proof {
            if is_last {
                assert forall|j: int| i < j < base_len implies allv[0]@[j].day != d by {
                    if j == i + 1 {
                    } else {
                        assert(allv[0]@[i + 1].day <= allv[0]@[j].day);
                        assert(allv[0]@[i as int].day <= allv[0]@[i + 1].day);
                    }
                }
                assert(is_last_of(allv[0]@, i as int));
            } else {
                assert(allv[0]@[i + 1].day == allv[0]@[i as int].day);
                assert(!is_last_of(allv[0]@, i as int));
            }
        }
        let mut all_have = true;
        let mut j: usize = 1;
        while j < all.len()
            invariant
                1 <= j <= allv.len(),
                all_have <==> (forall|t: int| 1 <= t < j ==> has_day((#[trigger] allv[t])@, d)),
            decreases allv.len() - j,
        {
            if find_last(&all[j], d).is_none() {
                all_have = false;
            }
            j = j + 1;
        }
        proof {
            if all_have {
                assert(has_day(allv[0]@, d));
                assert(forall|t: int| 0 <= t < allv.len() ==> has_day((#[trigger] allv[t])@, d));
            }
        }
        if is_last && all_have {
            proof {
                assert(keep(allv, i as int));
            }
            let mut feats = one_hot(d);
            let mut j2: usize = 0;
            while j2 < all.len()
                invariant
                    j2 <= allv.len(),
                    feats@ == one_hot_seq(d as int) + row_head(allv, d, j2 as int),
                decreases allv.len() - j2,
            {
                let found = find_last(&all[j2], d);
                proof {
                    assert(has_day(allv[j2 as int]@, d));
                    assert(found.is_some());
                }
                let li = found.unwrap();
                let vals = &all[j2][li].vals;
                let ghost feats0 = feats@;
                let mut k: usize = 0;
                while k < vals.len()
                    invariant
                        k <= vals@.len(),
                        feats@ == feats0 + vals@.subrange(0, k as int),
                    decreases vals@.len() - k,
                {
                    feats.push(vals[k]);
                    proof {
                        assert(feats@ =~= feats0 + vals@.subrange(0, k + 1));
                    }
                    k = k + 1;
                }
                proof {
                    assert(vals@.subrange(0, vals@.len() as int) =~= vals@);
                    assert(feats@ =~= one_hot_seq(d as int) + row_head(allv, d, j2 + 1));
                }
                j2 = j2 + 1;
            }
            let ghost old_rows = rows@;
            rows.push(AlignedRow { day: d, features: feats });
            proof {
                assert(feats@ =~= row_features(allv, d));
                assert(rows_model(rows@) =~= align_upto(allv, i + 1));
            }
        } else {
            proof {
                assert(!keep(allv, i as int));
                assert(rows_model(rows@) =~= align_upto(allv, i + 1));
            }
        }
        i = i + 1;
    }
    proof {
        assert(rows_model(rows@) == align_model(allv));
    }
    Ok(rows)
}

} // verus!
