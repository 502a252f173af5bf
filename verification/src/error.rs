use vstd::prelude::*;

verus! {

/// Errors reported by the incremental estimators.
#[derive(Debug, Clone, Copy, PartialEq, Eq, Structural)]
pub enum IncrementalError {
    /// The batch has `actual` feature columns while the model was fixed to `expected`.
    DimensionMismatch { expected: usize, actual: usize },
    /// The batch holds no rows, or the model has not been fitted yet.
    EmptyBatch,
    /// A NaN or infinite value was found in the input.
    NonFiniteInput,
    /// The number of targets differs from the number of feature rows.
    TargetDimensionMismatch { target_len: usize, feature_rows: usize },
}

} // verus!
