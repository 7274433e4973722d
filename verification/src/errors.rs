use vstd::prelude::*;

verus! {

/// Error taxonomy of the analytical core.
///
/// Every failure is reported explicitly to the caller; the only "soft"
/// outcome in the library is the forecaster's "no data" result, which is
/// a valid terminal state and not an error.
#[derive(Clone, Copy, Debug, PartialEq, Eq, Structural)]
pub enum CoreError {
    /// A non-positive previous close, or a bar whose prices cannot be
    /// represented at the fixed-point scale, or a rejected configuration.
    InvalidInput,
    /// A query or training vector whose length differs from the grid's
    /// configured dimension.
    DimensionMismatch,
    /// Training or alignment invoked on an empty dataset.
    EmptyInput,
}

} // verus!
