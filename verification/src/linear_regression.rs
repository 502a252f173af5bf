//! Bookkeeping of the incremental linear regression: the feature count
//! fixed by the first batch (the weights are created lazily, zero-filled,
//! on that batch) and the step counter that indexes the learning-rate
//! schedule.

use vstd::prelude::*;
use crate::error::IncrementalError;
use crate::validation::batch_check;
use crate::validation::check_batch;

verus! {

/// How predictions are formed for an accepted batch.
#[derive(Debug, Clone, Copy, PartialEq, Eq, Structural)]
pub enum PredictionPlan {
    /// The model has not been fitted: every prediction is zero.
    Zeros,
    /// The fitted weights and bias give the predictions.
    Linear,
}

/// The outcome of checking a batch to be predicted: the checks of
/// [`batch_check`] without targets; an unfitted model predicts zeros.
pub open spec fn regression_prediction(
    n_rows: usize,
    n_cols: usize,
    all_finite: bool,
    features: Option<usize>,
) -> Result<PredictionPlan, IncrementalError> {
    match batch_check(n_rows, n_cols, None, all_finite, features) {
        Err(e) => Err(e),
        Ok(_) => Ok(if features is None { PredictionPlan::Zeros } else { PredictionPlan::Linear }),
    }
}

/// Shape and step count of a linear regression model.
#[derive(Debug)]
pub struct RegressionState {
    n_features: Option<usize>,
    step_count: usize,
}

impl RegressionState {
    /// The feature count fixed by the first accepted batch.
    pub closed spec fn features(&self) -> Option<usize> {
        self.n_features
    }

    /// The number of accepted batches.
    pub closed spec fn steps(&self) -> nat {
        self.step_count as nat
    }

    pub fn new() -> (s: Self)
        ensures
            s.features() is None,
            s.steps() == 0,
    {
        RegressionState { n_features: None, step_count: 0 }
    }

    /// Checks a batch to be fitted. When it is accepted the result is the
    /// step index that selects the learning rate, the feature count is fixed
    /// (on the first batch) and the step counter advances; a rejected batch
    /// leaves the state unchanged.
    pub fn begin_fit(&mut self, n_rows: usize, n_cols: usize, n_targets: usize, all_finite: bool) -> (r:
        Result<usize, IncrementalError>)
        requires
            batch_check(n_rows, n_cols, Some(n_targets), all_finite, old(self).features()) is Ok
                ==> old(self).steps() < usize::MAX,
        ensures
            (match batch_check(n_rows, n_cols, Some(n_targets), all_finite, old(self).features()) {
                Err(e) => r == Err::<usize, IncrementalError>(e) && *final(self) == *old(self),
                Ok(_) => {
                    &&& r == Ok::<usize, IncrementalError>(old(self).steps() as usize)
                    &&& final(self).features() == Some(n_cols)
                    &&& final(self).steps() == old(self).steps() + 1
                },
            }),
            r is Ok ==> n_rows > 0 && n_targets == n_rows && all_finite,
            n_rows > 0 && n_targets != n_rows ==> r == Err::<usize, IncrementalError>(
                IncrementalError::TargetDimensionMismatch { target_len: n_targets, feature_rows: n_rows },
            ) && *final(self) == *old(self),
    {
        check_batch(n_rows, n_cols, Some(n_targets), all_finite, self.n_features)?;
        self.n_features = Some(n_cols);
        let step = self.step_count;
        self.step_count = step + 1;
        Ok(step)
    }

    /// Checks a batch to be predicted; see [`regression_prediction`].
    pub fn plan_prediction(&self, n_rows: usize, n_cols: usize, all_finite: bool) -> (r: Result<
        PredictionPlan,
        IncrementalError,
    >)
        ensures
            r == regression_prediction(n_rows, n_cols, all_finite, self.features()),
            r is Ok ==> n_rows > 0 && all_finite && (self.features() matches Some(f) ==> f == n_cols),
            self.features() matches Some(f) ==> (n_rows > 0 && all_finite && n_cols != f ==> r
                == Err::<PredictionPlan, IncrementalError>(
                IncrementalError::DimensionMismatch { expected: f, actual: n_cols },
            )),
    {
        check_batch(n_rows, n_cols, None, all_finite, self.n_features)?;
        match self.n_features {
            None => Ok(PredictionPlan::Zeros),
            Some(_) => Ok(PredictionPlan::Linear),
        }
    }

    /// The feature count fixed by the first accepted batch.
    pub fn n_features(&self) -> (r: Option<usize>)
        ensures
            r == self.features(),
    {
        self.n_features
    }

    /// The number of accepted batches.
    pub fn step_count(&self) -> (r: usize)
        ensures
            r == self.steps(),
    {
        self.step_count
    }
}

} // verus!
