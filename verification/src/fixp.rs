use vstd::prelude::*;

verus! {

/// Fixed-point scale: the real number v is represented by the integer
/// round(v * SCALE).  A one-hot calendar feature carries the value SCALE
/// (that is, 1.0), and a normalized price move of +10% carries the value
/// 2 * SCALE (that is, (1.10 - 1) * 20 = 2.0).
pub const SCALE: i64 = 1_000_000;

/// Gain applied to the normalized price ratios, so that typical daily
/// moves land in the same order of magnitude as the one-hot calendar
/// features and no single feature dominates Euclidean distance.
pub const FACTOR: i64 = 20;

/// Largest price / previous-close ratio that a normalized component can
/// represent without overflowing the feature range below.
pub const RATIO_CAP: u64 = 1000;

/// Smallest value a feature component can take: -FACTOR * SCALE,
/// reached when a price is zero (ratio 0, normalized to -20.0).
pub const FEAT_MIN: i64 = -20_000_000;

/// Largest value a feature component can take: FACTOR * SCALE * RATIO_CAP.
pub const FEAT_MAX: i64 = 20_000_000_000;

/// Every component of the vector lies in the representable feature range.
pub open spec fn in_feat_bounds(v: Seq<i64>) -> bool {
    forall|k: int| 0 <= k < v.len() ==> FEAT_MIN <= #[trigger] v[k] <= FEAT_MAX
}

} // verus!
