use vstd::prelude::*;
use crate::error::IncrementalError;

verus! {

/// The outcome of checking a batch before it is used.
///
/// The checks run in a fixed order and the first failing one decides the
/// error: no rows, then (when targets are given) a target count that differs
/// from the row count, then non-finite input, then (when the model already
/// has a feature count) a column count that differs from it.
pub open spec fn batch_check(
    n_rows: usize,
    n_cols: usize,
    n_targets: Option<usize>,
    all_finite: bool,
    expected_features: Option<usize>,
) -> Result<(), IncrementalError> {
    if n_rows == 0 {
        Err(IncrementalError::EmptyBatch)
    } else if n_targets is Some && n_targets->0 != n_rows {
        Err(IncrementalError::TargetDimensionMismatch {
            target_len: n_targets->0,
            feature_rows: n_rows,
        })
    } else if !all_finite {
        Err(IncrementalError::NonFiniteInput)
    } else if expected_features is Some && expected_features->0 != n_cols {
        Err(IncrementalError::DimensionMismatch { expected: expected_features->0, actual: n_cols })
    } else {
        Ok(())
    }
}

/// Checks the shape and finiteness summary of a batch; see [`batch_check`].
pub fn check_batch(
    n_rows: usize,
    n_cols: usize,
    n_targets: Option<usize>,
    all_finite: bool,
    expected_features: Option<usize>,
) -> (r: Result<(), IncrementalError>)
    ensures
        r == batch_check(n_rows, n_cols, n_targets, all_finite, expected_features),
        r is Ok <==> {
            &&& n_rows > 0
            &&& (n_targets matches Some(t) ==> t == n_rows)
            &&& all_finite
            &&& (expected_features matches Some(f) ==> f == n_cols)
        },
        n_targets matches Some(t) ==> (n_rows > 0 && t != n_rows ==> r == Err::<
            (),
            IncrementalError,
        >(IncrementalError::TargetDimensionMismatch { target_len: t, feature_rows: n_rows })),
{
    if n_rows == 0 {
        return Err(IncrementalError::EmptyBatch);
    }
    if let Some(t) = n_targets {
        if t != n_rows {
            return Err(IncrementalError::TargetDimensionMismatch { target_len: t, feature_rows: n_rows });
        }
    }
    if !all_finite {
        return Err(IncrementalError::NonFiniteInput);
    }
    if let Some(e) = expected_features {
        if e != n_cols {
            return Err(IncrementalError::DimensionMismatch { expected: e, actual: n_cols });
        }
    }
    Ok(())
}

/// The outcome of checking a batch to be run through a fitted model.
///
/// In order: no rows, non-finite input, a model that has not been fitted,
/// a column count that differs from the fitted one.
pub open spec fn fitted_batch_check(
    n_rows: usize,
    n_cols: usize,
    all_finite: bool,
    features: Option<usize>,
) -> Result<(), IncrementalError> {
    match batch_check(n_rows, n_cols, None, all_finite, features) {
        Err(e) => Err(e),
        Ok(_) => if features is None {
            Err(IncrementalError::EmptyBatch)
        } else {
            Ok(())
        },
    }
}

/// A batch is accepted exactly when it has rows, exactly one target per row
/// (when targets are given), only finite values and, once the model has a
/// feature count, exactly that many columns. A non-empty batch with another
/// number of targets than rows is refused with both counts, and an empty
/// batch is refused as empty.
pub proof fn lemma_batch_accepted_iff(
    n_rows: usize,
    n_cols: usize,
    n_targets: Option<usize>,
    all_finite: bool,
    expected_features: Option<usize>,
)
    ensures
        batch_check(n_rows, n_cols, n_targets, all_finite, expected_features) is Ok <==> {
            &&& n_rows > 0
            &&& (n_targets matches Some(t) ==> t == n_rows)
            &&& all_finite
            &&& (expected_features matches Some(f) ==> f == n_cols)
        },
        n_rows == 0 ==> batch_check(n_rows, n_cols, n_targets, all_finite, expected_features)
            == Err::<(), IncrementalError>(IncrementalError::EmptyBatch),
        n_targets matches Some(t) ==> (n_rows > 0 && t != n_rows ==> batch_check(
            n_rows,
            n_cols,
            n_targets,
            all_finite,
            expected_features,
        ) == Err::<(), IncrementalError>(
            IncrementalError::TargetDimensionMismatch { target_len: t, feature_rows: n_rows },
        )),
{
}

/// A batch is run through a model exactly when the model is fitted, the
/// batch has rows, only finite values and as many columns as the model has
/// features. A non-empty finite batch with another column count than a
/// fitted model's is refused with both counts.
pub proof fn lemma_fitted_batch_accepted_iff(
    n_rows: usize,
    n_cols: usize,
    all_finite: bool,
    features: Option<usize>,
)
    ensures
        fitted_batch_check(n_rows, n_cols, all_finite, features) is Ok <==> n_rows > 0
            && all_finite && features == Some(n_cols),
        features matches Some(f) ==> (n_rows > 0 && all_finite && n_cols != f
            ==> fitted_batch_check(n_rows, n_cols, all_finite, features) == Err::<
            (),
            IncrementalError,
        >(IncrementalError::DimensionMismatch { expected: f, actual: n_cols })),
{
}

} // verus!
