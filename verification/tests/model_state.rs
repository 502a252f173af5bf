use incremental_rs::linear_regression::{PredictionPlan, RegressionState};
use incremental_rs::logistic_regression::{
    CapacityChange, ClassOneModel, ClassRegistry, MulticlassStrategy,
};
use incremental_rs::minibatch_kmeans::{pick_seeds, ClusterState};
use incremental_rs::naive_bayes::ClassTally;
use incremental_rs::validation::check_batch;
use incremental_rs::IncrementalError;

#[test]
fn check_batch_reports_each_error_in_order() {
    assert_eq!(check_batch(0, 2, Some(3), false, Some(5)), Err(IncrementalError::EmptyBatch));
    assert_eq!(
        check_batch(2, 2, Some(3), false, Some(5)),
        Err(IncrementalError::TargetDimensionMismatch { target_len: 3, feature_rows: 2 })
    );
    assert_eq!(check_batch(2, 2, Some(2), false, Some(5)), Err(IncrementalError::NonFiniteInput));
    assert_eq!(
        check_batch(2, 2, Some(2), true, Some(5)),
        Err(IncrementalError::DimensionMismatch { expected: 5, actual: 2 })
    );
    assert_eq!(check_batch(2, 2, Some(2), true, Some(2)), Ok(()));
    assert_eq!(check_batch(2, 7, None, true, None), Ok(()));
}

#[test]
fn linear_state_fixes_features_and_counts_steps() {
    let mut s = RegressionState::new();
    assert_eq!(s.plan_prediction(3, 2, true), Ok(PredictionPlan::Zeros));
    assert_eq!(s.begin_fit(2, 2, 2, true), Ok(0));
    assert_eq!(s.begin_fit(2, 2, 2, true), Ok(1));
    assert_eq!(
        s.begin_fit(2, 2, 3, true),
        Err(IncrementalError::TargetDimensionMismatch { target_len: 3, feature_rows: 2 })
    );
    assert_eq!(s.step_count(), 2);
    assert_eq!(s.n_features(), Some(2));
    assert_eq!(s.plan_prediction(3, 2, true), Ok(PredictionPlan::Linear));
    assert_eq!(
        s.plan_prediction(3, 4, true),
        Err(IncrementalError::DimensionMismatch { expected: 2, actual: 4 })
    );
    assert_eq!(s.plan_prediction(3, 2, false), Err(IncrementalError::NonFiniteInput));
}

#[test]
fn class_registry_grows_with_new_labels() {
    let mut r = ClassRegistry::new();
    assert_eq!(r.ensure_class_capacity(2, 3), CapacityChange::Allocate { rows: 3, cols: 3 });
    assert_eq!(r.ensure_class_capacity(5, 3), CapacityChange::Grow { rows: 6 });
    assert_eq!(r.ensure_class_capacity(1, 3), CapacityChange::Unchanged);
    assert_eq!(r.ensure_class_capacity(2, 3), CapacityChange::Unchanged);
    assert_eq!(r.seen_classes(), vec![1, 2, 5]);
    assert_eq!(r.n_rows(), 6);
    // Row 1 exists (untrained until class 1 is seen).
    assert_eq!(r.class_one_model(), ClassOneModel::Row);
}

#[test]
fn class_registry_fit_plan() {
    let mut r = ClassRegistry::new();
    assert_eq!(r.plan_prediction(1, 2, true), Err(IncrementalError::EmptyBatch));
    let plan = r.begin_fit_labels(3, 2, true, &vec![4, 0, 4]).unwrap();
    assert_eq!(plan.step, 0);
    assert_eq!(plan.rows, 5);
    assert_eq!(plan.cols, 2);
    assert_eq!(plan.classes, vec![0, 4]);
    let plan = r.begin_fit_labels(1, 2, true, &vec![1]).unwrap();
    assert_eq!(plan.step, 1);
    assert_eq!(plan.rows, 5);
    assert_eq!(plan.classes, vec![0, 1, 4]);
    // A rejected batch changes nothing.
    assert_eq!(
        r.begin_fit_labels(1, 2, false, &vec![9]).err(),
        Some(IncrementalError::NonFiniteInput)
    );
    assert_eq!(r.seen_classes(), vec![0, 1, 4]);
    assert_eq!(r.step_count(), 2);
    assert_eq!(r.plan_prediction(1, 2, true), Ok(()));
}

#[test]
fn class_one_model_is_untrained_when_only_class_zero_was_seen() {
    let mut r = ClassRegistry::new();
    assert!(r.begin_fit_labels(2, 1, true, &vec![0, 0]).is_ok());
    assert_eq!(r.n_rows(), 1);
    assert_eq!(r.class_one_model(), ClassOneModel::Untrained);
    assert!(r.begin_fit_labels(1, 1, true, &vec![1]).is_ok());
    assert_eq!(r.class_one_model(), ClassOneModel::Row);
}

#[test]
fn multiclass_strategy_is_one_vs_rest() {
    let s = MulticlassStrategy::OneVsRest;
    assert_eq!(s.clone(), MulticlassStrategy::OneVsRest);
}

#[test]
fn class_tally_counts_classes_in_order() {
    let mut t = ClassTally::new();
    assert_eq!(t.plan_prediction(1, 2), Err(IncrementalError::EmptyBatch));
    let running = t.begin_fit(3, 2, true, &vec![7, 3, 7]).unwrap();
    assert_eq!(running, vec![1, 1, 2]);
    let running = t.begin_fit(2, 2, true, &vec![3, 9]).unwrap();
    assert_eq!(running, vec![2, 1]);
    assert_eq!(t.class_counts(), vec![(3, 2), (7, 2), (9, 1)]);
    assert_eq!(t.total_samples(), 5);
    assert_eq!(t.n_features(), Some(2));
    assert_eq!(
        t.begin_fit(1, 3, true, &vec![3]),
        Err(IncrementalError::DimensionMismatch { expected: 2, actual: 3 })
    );
    assert_eq!(t.total_samples(), 5);
    assert_eq!(t.plan_prediction(0, 2), Err(IncrementalError::EmptyBatch));
    assert_eq!(
        t.plan_prediction(4, 1),
        Err(IncrementalError::DimensionMismatch { expected: 2, actual: 1 })
    );
    assert_eq!(t.plan_prediction(4, 2), Ok(()));
}

#[test]
fn class_tally_zero_variance_batch() {
    let mut t = ClassTally::new();
    let x = vec![5.0, 5.0, 5.0, 5.0, 5.0, 5.0];
    let all_finite = x.iter().all(|v: &f64| v.is_finite());
    let running = t.begin_fit(3, 2, all_finite, &vec![0, 0, 0]).unwrap();
    assert_eq!(running, vec![1, 2, 3]);
    assert_eq!(t.class_counts(), vec![(0, 3)]);
    assert_eq!(t.plan_prediction(1, 2), Ok(()));
}

#[test]
fn cluster_state_seeds_once_and_counts_points() {
    let mut k = ClusterState::new(2);
    assert_eq!(k.plan_prediction(1, 2, true), Err(IncrementalError::EmptyBatch));
    assert_eq!(k.begin_fit(1, 2, true), Err(IncrementalError::EmptyBatch));
    assert_eq!(k.n_features(), None);
    let seeds = k.begin_fit(4, 2, true).unwrap().unwrap();
    assert_eq!(seeds.len(), 2);
    assert_ne!(seeds[0], seeds[1]);
    assert!(seeds.iter().all(|&s| s < 4));
    assert_eq!(k.n_features(), Some(2));
    assert_eq!(k.begin_fit(4, 2, true), Ok(None));
    assert_eq!(
        k.begin_fit(4, 3, true),
        Err(IncrementalError::DimensionMismatch { expected: 2, actual: 3 })
    );
    let steps = k.record_assignments(&vec![0, 1, 0, 0]);
    assert_eq!(steps, vec![1, 1, 2, 3]);
    let steps = k.record_assignments(&vec![1, 0]);
    assert_eq!(steps, vec![2, 4]);
    assert_eq!(k.assigned_points(), 6);
    assert_eq!(k.plan_prediction(2, 2, true), Ok(()));
    assert_eq!(k.plan_prediction(2, 2, false), Err(IncrementalError::NonFiniteInput));
}

#[test]
fn cluster_seeds_are_random() {
    // Seeding draws rows at random: over many draws the seeds are not
    // always the first rows of the batch.
    let mut saw_other = false;
    for _ in 0..50 {
        let mut k = ClusterState::new(3);
        let seeds = k.begin_fit(100, 1, true).unwrap().unwrap();
        let mut sorted = seeds.clone();
        sorted.sort();
        sorted.dedup();
        assert_eq!(sorted.len(), 3);
        if seeds != vec![0, 1, 2] {
            saw_other = true;
        }
    }
    assert!(saw_other);
}

#[test]
fn pick_seeds_follows_the_draws() {
    // Swaps (0,3), (1,3), (2,4) over 0..5 give 3, 0, 4, 1, 2.
    assert_eq!(pick_seeds(5, &vec![3, 3, 4]), vec![3, 0, 4]);
    assert_eq!(pick_seeds(4, &vec![0, 1]), vec![0, 1]);
    assert_eq!(pick_seeds(4, &vec![3, 3, 3, 3]), vec![3, 0, 1, 2]);
    assert_eq!(pick_seeds(3, &vec![]), Vec::<usize>::new());
}
