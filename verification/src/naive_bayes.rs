//! Class bookkeeping of the incremental Gaussian naive Bayes classifier: the
//! feature count fixed by the first batch, the classes seen so far (in
//! ascending order) and how many samples each has received. The per-class
//! means and variances are kept by the caller, one entry per class, and are
//! updated with the running counts handed out here.

use vstd::prelude::*;
use vstd::seq_lib::group_to_multiset_ensures;
use vstd::seq_lib::to_multiset_build;
use vstd::multiset::group_multiset_axioms;
use vstd::multiset::group_multiset_properties;
use crate::error::IncrementalError;
use crate::validation::batch_check;
use crate::validation::check_batch;
use crate::seq_facts::strictly_increasing;
use crate::seq_facts::lemma_index_of_unique;
use crate::seq_facts::lemma_sorted_insert;
use crate::seq_facts::lemma_slot_exists;
use crate::seq_facts::lemma_sorted_same_elements;
use crate::ordered_keys::lemma_usize_keys_ordered;
use crate::ordered_keys::lemma_increasing_usizes;
use std::collections::BTreeMap;
use vstd::std_specs::btree::group_btree_axioms;
use vstd::std_specs::iter::IteratorSpec;

verus! {

/// The sum of the elements.
pub open spec fn seq_sum(s: Seq<usize>) -> int
    decreases s.len(),
{
    if s.len() == 0 {
        0
    } else {
        seq_sum(s.drop_last()) + s.last()
    }
}

proof fn lemma_sum_concat(a: Seq<usize>, b: Seq<usize>)
    ensures
        seq_sum(a + b) == seq_sum(a) + seq_sum(b),
    decreases b.len(),
{
    if b.len() == 0 {
        assert(a + b =~= a);
    } else {
        lemma_sum_concat(a, b.drop_last());
        assert((a + b).drop_last() =~= a + b.drop_last());
    }
}

proof fn lemma_sum_single(x: usize)
    ensures
        seq_sum(seq![x]) == x,
{
    assert(seq![x].drop_last() =~= Seq::<usize>::empty());
    assert(seq_sum(Seq::<usize>::empty()) == 0);
    assert(seq![x].last() == x);
}

proof fn lemma_sum_nonneg(s: Seq<usize>)
    ensures
        seq_sum(s) >= 0,
    decreases s.len(),
{
    if s.len() > 0 {
        lemma_sum_nonneg(s.drop_last());
    }
}

/// Splits a sequence around position `i`.
proof fn lemma_sum_split(s: Seq<usize>, i: int)
    requires
        0 <= i < s.len(),
    ensures
        seq_sum(s) == seq_sum(s.take(i)) + s[i] + seq_sum(s.skip(i + 1)),
{
    assert(s =~= s.take(i) + seq![s[i]] + s.skip(i + 1));
    lemma_sum_concat(s.take(i) + seq![s[i]], s.skip(i + 1));
    lemma_sum_concat(s.take(i), seq![s[i]]);
    lemma_sum_single(s[i]);
}

proof fn lemma_sum_element_bound(s: Seq<usize>, i: int)
    requires
        0 <= i < s.len(),
    ensures
        s[i] <= seq_sum(s),
{
    lemma_sum_split(s, i);
    lemma_sum_nonneg(s.take(i));
    lemma_sum_nonneg(s.skip(i + 1));
}

proof fn lemma_sum_increment(s: Seq<usize>, i: int, v: usize)
    requires
        0 <= i < s.len(),
        v == s[i] + 1,
    ensures
        seq_sum(s.update(i, v)) == seq_sum(s) + 1,
{
    let u = s.update(i, v);
    lemma_sum_split(s, i);
    lemma_sum_split(u, i);
    assert(u.take(i) =~= s.take(i));
    assert(u.skip(i + 1) =~= s.skip(i + 1));
}

proof fn lemma_sum_insert(s: Seq<usize>, i: int, v: usize)
    requires
        0 <= i <= s.len(),
    ensures
        seq_sum(s.insert(i, v)) == seq_sum(s) + v,
{
    assert(s =~= s.take(i) + s.skip(i));
    assert(s.insert(i, v) =~= s.take(i) + seq![v] + s.skip(i));
    lemma_sum_concat(s.take(i), s.skip(i));
    lemma_sum_concat(s.take(i) + seq![v], s.skip(i));
    lemma_sum_concat(s.take(i), seq![v]);
    lemma_sum_single(v);
}

/// The outcome of checking a batch to be classified.
///
/// In order: a batch without rows, then a model that has not been fitted,
/// then a column count that differs from the fitted one, then a model that
/// holds no samples, each give the corresponding error.
pub open spec fn prediction_check(
    n_rows: usize,
    n_cols: usize,
    features: Option<usize>,
    total: nat,
) -> Result<(), IncrementalError> {
    if n_rows == 0 {
        Err(IncrementalError::EmptyBatch)
    } else if features is None {
        Err(IncrementalError::EmptyBatch)
    } else if features->0 != n_cols {
        Err(IncrementalError::DimensionMismatch { expected: features->0, actual: n_cols })
    } else if total == 0 {
        Err(IncrementalError::EmptyBatch)
    } else {
        Ok(())
    }
}

/// The counts of the classes listed in `order`, in that order.
pub open spec fn counts_in_order(order: Seq<usize>, counts: Map<usize, usize>) -> Seq<usize> {
    order.map_values(|k: usize| counts[k])
}

/// The classes seen so far and their sample counts.
pub struct ClassTally {
    counts: BTreeMap<usize, usize>,
    order: Ghost<Seq<usize>>,
    total: usize,
    n_features: Option<usize>,
}

impl ClassTally {
    /// `order` lists the counted classes in ascending order; each has a
    /// positive count, and the total is the sum of the counts.
    closed spec fn counts_wf(&self) -> bool {
        &&& strictly_increasing(self.order@)
        &&& self.order@.to_set() == self.counts@.dom()
        &&& forall|l: usize| #[trigger] self.counts@.contains_key(l) ==> self.counts@[l] > 0
        &&& self.total == seq_sum(counts_in_order(self.order@, self.counts@))
    }

    /// The counts are consistent, and the feature count is fixed exactly
    /// when some sample has been counted.
    pub closed spec fn wf(&self) -> bool {
        &&& self.counts_wf()
        &&& (self.n_features is None <==> self.order@.len() == 0)
    }

    /// The classes seen so far, in ascending order.
    pub closed spec fn classes(&self) -> Seq<usize> {
        self.order@
    }

    /// How many samples of class `label` have been fitted.
    pub closed spec fn count_of(&self, label: usize) -> nat {
        if self.counts@.contains_key(label) {
            self.counts@[label] as nat
        } else {
            0
        }
    }

    /// How many samples have been fitted in all.
    pub closed spec fn total(&self) -> nat {
        self.total as nat
    }

    /// The feature count fixed by the first fitted batch.
    pub closed spec fn features(&self) -> Option<usize> {
        self.n_features
    }

    /// The classes are kept in ascending order, a label is among them exactly
    /// when some sample of it has been fitted, and the feature count is fixed
    /// exactly when some sample has been fitted.
    pub proof fn lemma_counted_classes(&self)
        requires
            self.wf(),
        ensures
            strictly_increasing(self.classes()),
            forall|l: usize| #[trigger] self.classes().contains(l) <==> self.count_of(l) > 0,
            self.features() is Some <==> self.total() > 0,
    {
        assert forall|l: usize| #[trigger] self.classes().contains(l) <==> self.count_of(l) > 0 by {
            assert(self.order@.to_set().contains(l) == self.order@.contains(l));
        }
        let cs = counts_in_order(self.order@, self.counts@);
        if self.order@.len() > 0 {
            assert(self.order@.to_set().contains(self.order@[0]));
            lemma_sum_element_bound(cs, 0);
        } else {
            assert(cs.len() == 0);
        }
    }

    pub fn new() -> (t: Self)
        ensures
            t.wf(),
            t.classes() == Seq::<usize>::empty(),
            t.total() == 0,
            t.features() is None,
            forall|l: usize| t.count_of(l) == 0,
    {
        let t = ClassTally {
            counts: BTreeMap::new(),
            order: Ghost(Seq::empty()),
            total: 0,
            n_features: None,
        };
        assert(t.order@.to_set() =~= t.counts@.dom());
        assert(counts_in_order(t.order@, t.counts@) =~= Seq::<usize>::empty());
        t
    }

    /// Counts one more sample of class `label`; returns its new count.
    fn record_label(&mut self, label: usize) -> (running: usize)
        requires
            old(self).counts_wf(),
            old(self).total < usize::MAX,
        ensures
            final(self).counts_wf(),
            final(self).n_features == old(self).n_features,
            final(self).total() == old(self).total() + 1,
            final(self).count_of(label) == old(self).count_of(label) + 1,
            forall|l: usize| l != label ==> final(self).count_of(l) == old(self).count_of(l),
            running == final(self).count_of(label),
            final(self).classes().to_set() == old(self).classes().to_set().insert(label),
    {
        broadcast use group_btree_axioms;

        proof {
            lemma_usize_keys_ordered();
        }
        let ghost m0 = self.counts@;
        let ghost ord = self.order@;
        let found = self.counts.get(&label);
        match found {
            Some(c) => {
                let c = *c;
                let ghost k = ord.index_of(label);
                proof {
                    assert(ord.to_set().contains(label));
                    assert(ord.contains(label));
                    assert(ord[k] == label);
                    lemma_index_of_unique(ord, k);
                    assert(counts_in_order(ord, m0)[k] == c);
                    lemma_sum_element_bound(counts_in_order(ord, m0), k);
                }
                let next = c + 1;
                self.counts.insert(label, next);
                self.total = self.total + 1;
                proof {
                    assert(counts_in_order(ord, self.counts@) =~= counts_in_order(ord, m0).update(
                        k,
                        next,
                    ));
                    lemma_sum_increment(counts_in_order(ord, m0), k, next);
                    assert(self.order@.to_set() =~= self.counts@.dom());
                    assert(self.classes().to_set() =~= old(self).classes().to_set().insert(label));
                }
                next
            },
            None => {
                let ghost mut p: int = 0;
                proof {
                    p = lemma_slot_exists(ord, label);
                    assert(!ord.to_set().contains(label));
                    if p < ord.len() {
                        assert(ord.to_set().contains(ord[p]));
                        assert(ord[p] != label);
                    }
                    lemma_sorted_insert(ord, p, label);
                }
                self.counts.insert(label, 1);
                self.order = Ghost(ord.insert(p, label));
                self.total = self.total + 1;
                proof {
                    let nl = self.order@;
                    assert(counts_in_order(nl, self.counts@) =~= counts_in_order(ord, m0).insert(p, 1));
                    lemma_sum_insert(counts_in_order(ord, m0), p, 1);
                    assert(nl.to_set() =~= self.counts@.dom());
                }
                1
            },
        }
    }

    /// Checks a labelled batch and, when it is accepted, counts its samples
    /// class by class, in batch order. The result holds, for each sample,
    /// the count of its class just after that sample was counted; a rejected
    /// batch leaves the tally unchanged.
    pub fn begin_fit(
        &mut self,
        n_rows: usize,
        n_cols: usize,
        all_finite: bool,
        batch_labels: &Vec<usize>,
    ) -> (r: Result<Vec<usize>, IncrementalError>)
        requires
            old(self).wf(),
            batch_check(n_rows, n_cols, Some(batch_labels.len()), all_finite, old(self).features())
                is Ok ==> old(self).total() + batch_labels.len() <= usize::MAX,
        ensures
            final(self).wf(),
            (match batch_check(
                n_rows,
                n_cols,
                Some(batch_labels.len()),
                all_finite,
                old(self).features(),
            ) {
                Err(e) => r == Err::<Vec<usize>, IncrementalError>(e) && *final(self) == *old(self),
                Ok(_) => r is Ok,
            }),
            r is Ok ==> n_rows > 0 && batch_labels.len() == n_rows && all_finite,
            n_rows > 0 && batch_labels.len() != n_rows ==> r == Err::<Vec<usize>, IncrementalError>(
                IncrementalError::TargetDimensionMismatch { target_len: batch_labels.len(), feature_rows: n_rows },
            ) && *final(self) == *old(self),
            r matches Ok(running) ==> {
                &&& final(self).features() == Some(n_cols)
                &&& final(self).total() == old(self).total() + batch_labels.len()
                &&& forall|l: usize|
                    #[trigger] final(self).count_of(l) == old(self).count_of(l)
                        + batch_labels@.to_multiset().count(l)
                &&& running.len() == batch_labels.len()
                &&& forall|i: int|
                    0 <= i < batch_labels.len() ==> #[trigger] running@[i] == old(self).count_of(
                        batch_labels@[i],
                    ) + batch_labels@.take(i + 1).to_multiset().count(batch_labels@[i])
                &&& final(self).classes().to_set() == old(self).classes().to_set().union(
                    batch_labels@.to_set(),
                )
            },
    {
        broadcast use group_to_multiset_ensures;
        broadcast use group_multiset_axioms;
        broadcast use group_multiset_properties;

        let checked = check_batch(n_rows, n_cols, Some(batch_labels.len()), all_finite, self.n_features);
        if let Err(e) = checked {
            return Err(e);
        }
        let ghost start = *self;
        let mut running: Vec<usize> = Vec::new();
        let mut i: usize = 0;
        while i < batch_labels.len()
            invariant
                i <= batch_labels.len(),
                self.counts_wf(),
                self.n_features == old(self).n_features,
                start == *old(self),
                old(self).total() + batch_labels.len() <= usize::MAX,
                self.total() == start.total() + i,
                forall|l: usize|
                    #[trigger] self.count_of(l) == start.count_of(l) + batch_labels@.take(
                        i as int,
                    ).to_multiset().count(l),
                running.len() == i,
                forall|k: int|
                    0 <= k < i ==> #[trigger] running@[k] == start.count_of(batch_labels@[k])
                        + batch_labels@.take(k + 1).to_multiset().count(batch_labels@[k]),
                self.classes().to_set() == start.classes().to_set().union(
                    batch_labels@.take(i as int).to_set(),
                ),
            decreases batch_labels.len() - i,
        {
            let label = batch_labels[i];
            let c = self.record_label(label);
            running.push(c);
            proof {
                let t0 = batch_labels@.take(i as int);
                let t1 = batch_labels@.take(i + 1);
                assert(t1 =~= t0.push(label));
                to_multiset_build(t0, label);
                assert forall|l: usize|
                    #[trigger] self.count_of(l) == start.count_of(l) + t1.to_multiset().count(l) by {
                    if l == label {
                        assert(t1.to_multiset().count(l) == t0.to_multiset().count(l) + 1);
                    } else {
                        assert(t1.to_multiset().count(l) == t0.to_multiset().count(l));
                    }
                }
                t0.lemma_push_to_set_commute(label);
                assert(t1.to_set() == t0.to_set().insert(label));
                assert(self.classes().to_set() =~= start.classes().to_set().union(t1.to_set()));
            }
            i += 1;
        }
        proof {
            assert(batch_labels@.take(batch_labels.len() as int) =~= batch_labels@);
            assert(batch_labels@.to_set().contains(batch_labels@[0]));
            assert(self.classes().to_set().contains(batch_labels@[0]));
        }
        let ghost counted = *self;
        if self.n_features.is_none() {
            self.n_features = Some(n_cols);
        }
        proof {
            assert forall|l: usize| #[trigger] self.count_of(l) == counted.count_of(l) by {}
        }
        Ok(running)
    }

    /// Checks a batch to be classified; see [`prediction_check`].
    pub fn plan_prediction(&self, n_rows: usize, n_cols: usize) -> (r: Result<(), IncrementalError>)
        requires
            self.wf(),
        ensures
            r == prediction_check(n_rows, n_cols, self.features(), self.total()),
            r is Ok ==> n_rows > 0 && self.features() == Some(n_cols) && self.total() > 0,
            self.features() matches Some(f) ==> (n_rows > 0 && n_cols != f ==> r == Err::<
                (),
                IncrementalError,
            >(IncrementalError::DimensionMismatch { expected: f, actual: n_cols })),
    {
        if n_rows == 0 {
            return Err(IncrementalError::EmptyBatch);
        }
        match self.n_features {
            None => Err(IncrementalError::EmptyBatch),
            Some(f) => {
                if f != n_cols {
                    Err(IncrementalError::DimensionMismatch { expected: f, actual: n_cols })
                } else if self.total == 0 {
                    Err(IncrementalError::EmptyBatch)
                } else {
                    Ok(())
                }
            },
        }
    }

    /// The classes in ascending order, each with its sample count; the counts
    /// add up to the total.
    pub fn class_counts(&self) -> (r: Vec<(usize, usize)>)
        requires
            self.wf(),
        ensures
            r.len() == self.classes().len(),
            forall|i: int|
                0 <= i < r.len() ==> #[trigger] r@[i] == (self.classes()[i], self.count_of(
                    self.classes()[i],
                ) as usize),
            seq_sum(r@.map_values(|p: (usize, usize)| p.1)) == self.total(),
    {
        broadcast use group_btree_axioms;

        proof {
            lemma_usize_keys_ordered();
        }
        let ghost pairs = self.counts.iter().remaining();
        let mut r: Vec<(usize, usize)> = Vec::new();
        for entry in it: self.counts.iter()
            invariant
                it.seq() == pairs,
                r@ == pairs.take(it.index() as int).unref(),
        {
            let (k, v) = entry;
            r.push((*k, *v));
            proof {
                assert(pairs.take(it.index() + 1).unref() =~= pairs.take(it.index() as int).unref().push(
                    (*k, *v),
                ));
            }
        }
        proof {
            assert(pairs.take(pairs.len() as int) =~= pairs);
            let keys = r@.map_values(|p: (usize, usize)| p.0);
            assert(keys =~= pairs.map_values(|kv: (&usize, &usize)| *kv.0));
            lemma_increasing_usizes(keys);
            assert forall|x: usize| keys.to_set().contains(x) <==> self.counts@.dom().contains(x) by {
                if keys.contains(x) {
                    let i = choose|i: int| 0 <= i < keys.len() && keys[i] == x;
                    assert(self.counts@.contains_key(*pairs[i].0));
                }
                if self.counts@.contains_key(x) {
                    assert(pairs.contains((&x, &self.counts@[x])));
                    let i = choose|i: int| 0 <= i < pairs.len() && pairs[i] == (&x, &self.counts@[x]);
                    assert(keys[i] == x);
                }
            }
            assert(keys.to_set() =~= self.order@.to_set());
            lemma_sorted_same_elements(keys, self.order@);
            assert forall|i: int| 0 <= i < r.len() implies #[trigger] r@[i] == (
                self.classes()[i],
                self.count_of(self.classes()[i]) as usize,
            ) by {
                assert(keys[i] == r@[i].0);
                assert(self.counts@.contains_key(*pairs[i].0));
            }
            assert(r@.map_values(|p: (usize, usize)| p.1) =~= counts_in_order(
                self.order@,
                self.counts@,
            ));
        }
        r
    }

    /// The feature count fixed by the first fitted batch.
    pub fn n_features(&self) -> (r: Option<usize>)
        ensures
            r == self.features(),
    {
        self.n_features
    }

    /// The number of samples fitted in all.
    pub fn total_samples(&self) -> (r: usize)
        ensures
            r == self.total(),
    {
        self.total
    }
}

} // verus!
