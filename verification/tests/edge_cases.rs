use incremental_rs::linear_regression::RegressionState;
use incremental_rs::logistic_regression::ClassRegistry;
use incremental_rs::IncrementalError;

fn finite(values: &[f64]) -> bool {
    values.iter().all(|v| v.is_finite())
}

#[test]
fn test_empty_batch_handling() {
    // 0 x 2 feature matrix, no targets.
    let empty_x: Vec<f64> = Vec::new();
    let empty_y: Vec<f64> = Vec::new();
    let all_finite = finite(&empty_x) && finite(&empty_y);

    let mut linreg = RegressionState::new();

    assert_eq!(
        linreg.begin_fit(0, 2, empty_y.len(), all_finite),
        Err(IncrementalError::EmptyBatch)
    );
    assert_eq!(
        linreg.plan_prediction(0, 2, finite(&empty_x)),
        Err(IncrementalError::EmptyBatch)
    );
}

#[test]
fn test_non_finite_input_rejection() {
    let mut linreg = RegressionState::new();

    let nan_x = vec![f64::NAN, 1.0];
    let valid_y = vec![1.0];

    assert_eq!(
        linreg.begin_fit(1, 2, valid_y.len(), finite(&nan_x) && finite(&valid_y)),
        Err(IncrementalError::NonFiniteInput)
    );
    // The rejected batch leaves the model untouched.
    assert_eq!(linreg.n_features(), None);
    assert_eq!(linreg.step_count(), 0);
}

#[test]
fn test_dimension_mismatch_across_batches() {
    let mut logreg = ClassRegistry::new();

    let batch1_x = vec![1.0, 2.0, 3.0, 4.0];
    let batch1_y: Vec<usize> = vec![0, 1];
    assert!(logreg.begin_fit_labels(2, 2, finite(&batch1_x), &batch1_y).is_ok());

    let batch2_x = vec![1.0, 2.0, 3.0, 4.0, 5.0, 6.0];
    let batch2_y: Vec<usize> = vec![0, 1];
    let r = logreg.begin_fit_labels(2, 3, finite(&batch2_x), &batch2_y);
    assert_eq!(
        r.err(),
        Some(IncrementalError::DimensionMismatch {
            expected: 2,
            actual: 3
        })
    );
}

#[test]
fn test_single_sample_batch() {
    let mut linreg = RegressionState::new();

    let single_x = vec![1.0, 2.0];
    let single_y = vec![5.0];

    assert!(linreg
        .begin_fit(1, 2, single_y.len(), finite(&single_x) && finite(&single_y))
        .is_ok());
}
