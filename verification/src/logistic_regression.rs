//! Class bookkeeping of the incremental one-vs-rest logistic regression:
//! which class labels have been seen, how many rows the caller's weight
//! matrix and bias vector must have (one per label up to the largest seen),
//! the feature count fixed by the first batch, and the step counter that
//! indexes the learning-rate schedule.

use vstd::prelude::*;
use crate::error::IncrementalError;
use crate::validation::batch_check;
use crate::validation::check_batch;
use crate::validation::fitted_batch_check;
use crate::seq_facts::strictly_increasing;
use std::collections::BTreeSet;
use vstd::std_specs::btree::group_btree_axioms;
use vstd::std_specs::iter::IteratorSpec;
use crate::ordered_keys::lemma_usize_keys_ordered;
use crate::ordered_keys::lemma_increasing_keys;

verus! {

/// Multiclass strategy for incremental logistic regression.
#[derive(Debug, Clone, Copy, PartialEq, Eq, Structural)]
pub enum MulticlassStrategy {
    /// One-vs-Rest strategy: maintains an internal array of binary models,
    /// one per unique class encountered in the stream.
    OneVsRest,
}

/// What the caller must do to its weight matrix and bias vector after a
/// label has been registered.
#[derive(Debug, Clone, Copy, PartialEq, Eq, Structural)]
pub enum CapacityChange {
    /// Nothing.
    Unchanged,
    /// Create them, zero-filled, with `rows` rows of `cols` features.
    Allocate { rows: usize, cols: usize },
    /// Extend them with zero-filled rows up to `rows` rows, keeping the
    /// existing rows.
    Grow { rows: usize },
}

/// What the caller needs for one gradient step over an accepted batch.
#[derive(Debug)]
pub struct FitPlan {
    /// The step index that selects the learning rate.
    pub step: usize,
    /// The row count the weight matrix and bias vector must have.
    pub rows: usize,
    /// The feature count.
    pub cols: usize,
    /// The seen classes, in ascending order: the rows that are updated.
    pub classes: Vec<usize>,
}

/// Where the class-1 probability reported by a binary prediction comes from.
#[derive(Debug, Clone, Copy, PartialEq, Eq, Structural)]
pub enum ClassOneModel {
    /// Row 1 of the parameters: class 1's model, trained once class 1 has
    /// been seen, zero until then.
    Row,
    /// The parameters have no row 1: class 1 has never been seen, and its
    /// model is the untrained, all-zero one.
    Untrained,
}

/// The classes seen so far and the shape of the parameters that serve them.
#[derive(Debug)]
pub struct ClassRegistry {
    seen: BTreeSet<usize>,
    n_rows: usize,
    n_features: Option<usize>,
    step_count: usize,
}

impl ClassRegistry {
    /// Parameters exist exactly when some class has been seen; they then
    /// have one row per label up to the largest seen label.
    pub closed spec fn wf(&self) -> bool {
        &&& (self.n_features is None <==> self.n_rows == 0)
        &&& forall|l: usize| #[trigger] self.seen@.contains(l) ==> l < self.n_rows
        &&& self.n_rows > 0 ==> self.seen@.contains((self.n_rows - 1) as usize)
    }

    /// The classes seen so far.
    pub closed spec fn classes(&self) -> Set<usize> {
        self.seen@
    }

    /// The row count of the weight matrix and bias vector.
    pub closed spec fn rows(&self) -> nat {
        self.n_rows as nat
    }

    /// The feature count fixed by the first accepted batch.
    pub closed spec fn features(&self) -> Option<usize> {
        self.n_features
    }

    /// The number of accepted batches.
    pub closed spec fn steps(&self) -> nat {
        self.step_count as nat
    }

    /// Every seen label has a row, the rows reach exactly one past the
    /// largest seen label, and there are no parameters before the first
    /// label is seen.
    pub proof fn lemma_rows_cover_classes(&self)
        requires
            self.wf(),
        ensures
            forall|l: usize| self.classes().contains(l) ==> l < self.rows(),
            self.rows() > 0 ==> self.classes().contains((self.rows() - 1) as usize),
            self.rows() == 0 <==> self.classes() == Set::<usize>::empty(),
            self.rows() == 0 <==> self.features() is None,
    {
        if self.n_rows == 0 {
            assert(self.seen@ =~= Set::<usize>::empty());
        } else {
            assert(self.seen@.contains((self.n_rows - 1) as usize));
        }
    }

    pub fn new() -> (r: Self)
        ensures
            r.wf(),
            r.classes() == Set::<usize>::empty(),
            r.rows() == 0,
            r.features() is None,
            r.steps() == 0,
    {
        ClassRegistry { seen: BTreeSet::new(), n_rows: 0, n_features: None, step_count: 0 }
    }

    /// Registers a label, extending the parameters dynamically if a new
    /// class label appears mid-stream.
    pub fn ensure_class_capacity(&mut self, label: usize, n_features: usize) -> (r: CapacityChange)
        requires
            old(self).wf(),
            label < usize::MAX,
            old(self).features() is Some ==> old(self).features() == Some(n_features),
        ensures
            final(self).wf(),
            final(self).steps() == old(self).steps(),
            old(self).classes().contains(label) ==> r == CapacityChange::Unchanged && *final(self)
                == *old(self),
            !old(self).classes().contains(label) ==> r == (if old(self).features() is None {
                CapacityChange::Allocate { rows: (label + 1) as usize, cols: n_features }
            } else if old(self).rows() < label + 1 {
                CapacityChange::Grow { rows: (label + 1) as usize }
            } else {
                CapacityChange::Unchanged
            }),
            final(self).classes() == old(self).classes().insert(label),
            final(self).features() == Some(n_features),
            final(self).rows() == if old(self).rows() < label + 1 {
                label + 1
            } else {
                old(self).rows() as int
            },
    {
        broadcast use group_btree_axioms;

        proof {
            lemma_usize_keys_ordered();
        }
        if self.seen.contains(&label) {
            proof {
                assert(self.classes() =~= old(self).classes().insert(label));
            }
            return CapacityChange::Unchanged;
        }
        self.seen.insert(label);
        let target_rows = label + 1;
        match self.n_features {
            None => {
                self.n_features = Some(n_features);
                self.n_rows = target_rows;
                CapacityChange::Allocate { rows: target_rows, cols: n_features }
            },
            Some(_) => {
                if self.n_rows < target_rows {
                    self.n_rows = target_rows;
                    CapacityChange::Grow { rows: target_rows }
                } else {
                    CapacityChange::Unchanged
                }
            },
        }
    }

    /// Checks a labelled batch and, when it is accepted, registers its labels
    /// in batch order and advances the step counter. A rejected batch leaves
    /// the registry unchanged.
    pub fn begin_fit_labels(
        &mut self,
        n_rows: usize,
        n_cols: usize,
        all_finite: bool,
        batch_labels: &Vec<usize>,
    ) -> (r: Result<FitPlan, IncrementalError>)
        requires
            old(self).wf(),
            batch_check(n_rows, n_cols, Some(batch_labels.len()), all_finite, old(self).features())
                is Ok ==> old(self).steps() < usize::MAX && forall|i: int|
                0 <= i < batch_labels.len() ==> #[trigger] batch_labels@[i] < usize::MAX,
        ensures
            final(self).wf(),
            (match batch_check(
                n_rows,
                n_cols,
                Some(batch_labels.len()),
                all_finite,
                old(self).features(),
            ) {
                Err(e) => r == Err::<FitPlan, IncrementalError>(e) && *final(self) == *old(self),
                Ok(_) => r is Ok,
            }),
            r is Ok ==> n_rows > 0 && batch_labels.len() == n_rows && all_finite,
            n_rows > 0 && batch_labels.len() != n_rows ==> r == Err::<FitPlan, IncrementalError>(
                IncrementalError::TargetDimensionMismatch { target_len: batch_labels.len(), feature_rows: n_rows },
            ) && *final(self) == *old(self),
            r matches Ok(plan) ==> {
                &&& plan.step == old(self).steps()
                &&& final(self).steps() == old(self).steps() + 1
                &&& final(self).features() == Some(n_cols)
                &&& plan.cols == n_cols
                &&& plan.rows == final(self).rows()
                &&& strictly_increasing(plan.classes@)
                &&& plan.classes@.to_set() == final(self).classes()
                &&& final(self).rows() >= old(self).rows()
                &&& final(self).classes() == old(self).classes().union(batch_labels@.to_set())
                &&& forall|i: int|
                    0 <= i < batch_labels.len() ==> #[trigger] batch_labels@[i] < final(self).rows()
            },
    {
        let checked = check_batch(n_rows, n_cols, Some(batch_labels.len()), all_finite, self.n_features);
        if let Err(e) = checked {
            return Err(e);
        }
        let mut i: usize = 0;
        while i < batch_labels.len()
            invariant
                i <= batch_labels.len(),
                self.wf(),
                self.step_count == old(self).step_count,
                old(self).steps() < usize::MAX,
                forall|k: int| 0 <= k < batch_labels.len() ==> #[trigger] batch_labels@[k] < usize::MAX,
                old(self).features() is Some ==> old(self).features() == Some(n_cols),
                i > 0 ==> self.features() == Some(n_cols),
                i == 0 ==> *self == *old(self),
                self.rows() >= old(self).rows(),
                self.classes() == old(self).classes().union(batch_labels@.take(i as int).to_set()),
            decreases batch_labels.len() - i,
        {
            let label = batch_labels[i];
            let _ = self.ensure_class_capacity(label, n_cols);
            proof {
                let t0 = batch_labels@.take(i as int);
                let t1 = batch_labels@.take(i + 1);
                assert(t1 =~= t0.push(label));
                t0.lemma_push_to_set_commute(label);
                assert(self.classes() =~= old(self).classes().union(t1.to_set()));
            }
            i += 1;
        }
        proof {
            assert(batch_labels@.take(batch_labels.len() as int) =~= batch_labels@);
            assert forall|k: int| 0 <= k < batch_labels.len() implies #[trigger] batch_labels@[k]
                < self.rows() by {
                assert(batch_labels@.to_set().contains(batch_labels@[k]));
                assert(self.classes().contains(batch_labels@[k]));
            }
        }
        let step = self.step_count;
        self.step_count = step + 1;
        let classes = self.seen_classes();
        Ok(FitPlan { step, rows: self.n_rows, cols: n_cols, classes })
    }

    /// Checks a batch whose class probabilities are asked for; see
    /// [`fitted_batch_check`].
    pub fn plan_prediction(&self, n_rows: usize, n_cols: usize, all_finite: bool) -> (r: Result<
        (),
        IncrementalError,
    >)
        requires
            self.wf(),
        ensures
            r == fitted_batch_check(n_rows, n_cols, all_finite, self.features()),
            r is Ok <==> n_rows > 0 && all_finite && self.features() == Some(n_cols),
            self.features() matches Some(f) ==> (n_rows > 0 && all_finite && n_cols != f ==> r
                == Err::<(), IncrementalError>(
                IncrementalError::DimensionMismatch { expected: f, actual: n_cols },
            )),
    {
        check_batch(n_rows, n_cols, None, all_finite, self.n_features)?;
        if self.n_features.is_none() {
            return Err(IncrementalError::EmptyBatch);
        }
        Ok(())
    }

    /// Where a binary prediction takes the probability of class 1 from: row
    /// 1 of the parameters when there is one, else the untrained class-1
    /// model, since class 1 has then never been seen.
    pub fn class_one_model(&self) -> (r: ClassOneModel)
        requires
            self.wf(),
        ensures
            r == if self.rows() > 1 { ClassOneModel::Row } else { ClassOneModel::Untrained },
            r == ClassOneModel::Untrained ==> !self.classes().contains(1usize),
    {
        if self.n_rows > 1 {
            ClassOneModel::Row
        } else {
            ClassOneModel::Untrained
        }
    }

    /// The row count of the weight matrix and bias vector.
    pub fn n_rows(&self) -> (r: usize)
        ensures
            r == self.rows(),
    {
        self.n_rows
    }

    /// The feature count fixed by the first accepted batch.
    pub fn n_features(&self) -> (r: Option<usize>)
        ensures
            r == self.features(),
    {
        self.n_features
    }

    /// The number of accepted batches.
    pub fn step_count(&self) -> (r: usize)
        ensures
            r == self.steps(),
    {
        self.step_count
    }

    /// The classes seen so far, in ascending order.
    pub fn seen_classes(&self) -> (r: Vec<usize>)
        ensures
            strictly_increasing(r@),
            r@.to_set() == self.classes(),
    {
        broadcast use group_btree_axioms;

        proof {
            lemma_usize_keys_ordered();
        }
        let ghost keys = self.seen.iter().remaining();
        let mut r: Vec<usize> = Vec::new();
        for x in it: self.seen.iter()
            invariant
                it.seq() == keys,
                r@ == keys.take(it.index() as int).unref(),
        {
            r.push(*x);
            proof {
                assert(keys.take(it.index() + 1).unref() =~= keys.take(it.index() as int).unref().push(
                    *x,
                ));
            }
        }
        proof {
            assert(keys.take(keys.len() as int) =~= keys);
            lemma_increasing_keys(keys);
            assert(r@.to_set() =~= self.seen@);
        }
        r
    }
}

} // verus!
