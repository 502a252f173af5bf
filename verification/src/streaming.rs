//! Streaming support: the configuration of a streamed fit, a shuffle buffer
//! that hands out random mini-batches, and the driver that decides which
//! mini-batch an estimator is fitted on next.
//!
//! Samples are a feature row and a target. The element type `T` is left
//! open; the estimators use it with floating-point values.

use vstd::prelude::*;
use vstd::seq_lib::group_to_multiset_ensures;
use vstd::seq_lib::to_multiset_contains;
use vstd::seq_lib::to_multiset_build;
use vstd::seq_lib::to_multiset_insert;
use vstd::seq_lib::to_multiset_len;
use crate::seq_facts::lemma_empty_seq_multiset;
use vstd::multiset::Multiset;
use vstd::multiset::group_multiset_axioms;
use vstd::multiset::group_multiset_properties;
use crate::vec_util::copy_row;
use crate::random::thread_rng;
use crate::random::shuffle_indices;
use crate::random::ShuffledPositions;
use crate::seq_facts::lemma_swap_remove_multiset;
use crate::seq_facts::lemma_distinct_same_elements;
use crate::seq_facts::lemma_permutation_keeps_distinct;
use crate::seq_facts::lemma_map_keeps_multiset;
use crate::error::IncrementalError;

verus! {

/// Configuration options for streaming fit operations.
#[derive(Debug, Clone, Copy)]
pub struct StreamingConfig {
    pub batch_size: usize,
    pub shuffle_buffer_capacity: usize,
}

impl Default for StreamingConfig {
    fn default() -> (c: Self)
        ensures
            c.batch_size == 256,
            c.shuffle_buffer_capacity == 2048,
    {
        StreamingConfig { batch_size: 256, shuffle_buffer_capacity: 2048 }
    }
}

/// The samples formed by pairing feature rows with targets, position by
/// position, up to the shorter of the two.
pub open spec fn zip_samples<T>(xs: Seq<Vec<T>>, ys: Seq<T>) -> Seq<(Seq<T>, T)> {
    Seq::new(
        if xs.len() <= ys.len() { xs.len() } else { ys.len() },
        |i: int| (xs[i]@, ys[i]),
    )
}

/// `min(batch_size, n)`: how many samples a draw takes from `n`.
pub open spec fn batch_count(batch_size: usize, n: nat) -> nat {
    if batch_size < n {
        batch_size as nat
    } else {
        n
    }
}

/// The elements of `s` at `positions`, in that order.
pub open spec fn samples_at<A>(s: Seq<A>, positions: Seq<usize>) -> Seq<A> {
    positions.map_values(|p: usize| s[p as int])
}

/// The positions named among the first `m` entries of `order`.
pub open spec fn drawn_positions(order: Seq<usize>, m: int) -> Set<int> {
    Set::new(|p: int| 0 <= p && order.take(m).contains(p as usize))
}

/// Removes the positions in `drawn` below `i` from `s` the way
/// `Vec::swap_remove` does, from position `i - 1` down to position 0: each
/// removed position receives the current last element.
pub open spec fn swap_remove_down<A>(s: Seq<A>, drawn: Set<int>, i: nat) -> Seq<A>
    decreases i,
{
    if i == 0 {
        s
    } else {
        let p = i - 1;
        let next = if drawn.contains(p) && p < s.len() {
            s.update(p, s.last()).drop_last()
        } else {
            s
        };
        swap_remove_down(next, drawn, (i - 1) as nat)
    }
}

/// Shuffle buffer designed to break sequence ordering bias during streaming
/// updates: samples are collected, and each batch is drawn at random from
/// everything collected so far.
#[derive(Debug)]
pub struct StreamingShuffleBuffer<T> {
    capacity: usize,
    buffer_x: Vec<Vec<T>>,
    buffer_y: Vec<T>,
}

impl<T> StreamingShuffleBuffer<T> {
    /// Rows and targets are stored in step.
    pub closed spec fn wf(&self) -> bool {
        self.buffer_x.len() == self.buffer_y.len()
    }

    /// The buffered samples, in storage order.
    pub closed spec fn samples(&self) -> Seq<(Seq<T>, T)> {
        zip_samples(self.buffer_x@, self.buffer_y@)
    }

    /// The number of samples at which the buffer counts as full.
    pub closed spec fn capacity_limit(&self) -> usize {
        self.capacity
    }

    /// The buffer holds at least `capacity` samples.
    pub closed spec fn full(&self) -> bool {
        self.samples().len() >= self.capacity
    }

    /// The capacity never changes after creation (`push_batch` and
    /// `pop_batch` keep `capacity_limit`), so the buffer is full exactly when
    /// it holds at least the capacity it was created with.
    pub proof fn lemma_full_at_creation_capacity(&self, created_with: usize)
        requires
            self.capacity_limit() == created_with,
        ensures
            self.full() <==> self.samples().len() >= created_with,
    {
    }
}

impl<T: Copy> StreamingShuffleBuffer<T> {
    pub fn new(capacity: usize) -> (b: Self)
        ensures
            b.wf(),
            b.samples() == Seq::<(Seq<T>, T)>::empty(),
            b.capacity_limit() == capacity,
    {
        let b = StreamingShuffleBuffer { capacity, buffer_x: Vec::new(), buffer_y: Vec::new() };
        assert(b.samples() =~= Seq::<(Seq<T>, T)>::empty());
        b
    }

    /// Appends the samples of a batch (rows paired with targets, up to the
    /// shorter of the two).
    pub fn push_batch(&mut self, batch_x: &Vec<Vec<T>>, batch_y: &Vec<T>)
        requires
            old(self).wf(),
        ensures
            final(self).wf(),
            final(self).capacity_limit() == old(self).capacity_limit(),
            final(self).samples() == old(self).samples() + zip_samples(batch_x@, batch_y@),
    {
        let ghost start = self.samples();
        let n = if batch_x.len() <= batch_y.len() { batch_x.len() } else { batch_y.len() };
        let mut i: usize = 0;
        while i < n
            invariant
                i <= n,
                n == if batch_x.len() <= batch_y.len() { batch_x.len() } else { batch_y.len() },
                self.wf(),
                self.capacity == old(self).capacity,
                self.samples() == start + zip_samples(batch_x@, batch_y@).take(i as int),
            decreases n - i,
        {
            let ghost prev = self.samples();
            let row = copy_row(&batch_x[i]);
            self.buffer_x.push(row);
            self.buffer_y.push(batch_y[i]);
            assert(self.samples() =~= prev.push((batch_x@[i as int]@, batch_y@[i as int])));
            assert(zip_samples(batch_x@, batch_y@).take(i + 1) =~= zip_samples(
                batch_x@,
                batch_y@,
            ).take(i as int).push((batch_x@[i as int]@, batch_y@[i as int])));
            i += 1;
            assert(self.samples() =~= start + zip_samples(batch_x@, batch_y@).take(i as int));
        }
        assert(zip_samples(batch_x@, batch_y@).take(n as int) =~= zip_samples(batch_x@, batch_y@));
    }

    /// Removes the samples at the first `min(batch_size, len)` positions of
    /// `order` and returns them in that order. The removal goes through the
    /// buffer from its last position down to its first; each drawn position
    /// is filled with the current last sample (`Vec::swap_remove`).
    pub fn take_positions(&mut self, order: &Vec<usize>, batch_size: usize) -> (r: (
        Vec<Vec<T>>,
        Vec<T>,
    ))
        requires
            old(self).wf(),
            order@.len() == old(self).samples().len(),
            order@.no_duplicates(),
            forall|k: int| 0 <= k < order@.len() ==> #[trigger] order@[k] < old(self).samples().len(),
        ensures
            final(self).wf(),
            final(self).capacity_limit() == old(self).capacity_limit(),
            r.0.len() == r.1.len(),
            r.0.len() == batch_count(batch_size, old(self).samples().len()),
            zip_samples(r.0@, r.1@) == samples_at(
                old(self).samples(),
                order@.take(batch_count(batch_size, old(self).samples().len()) as int),
            ),
            final(self).samples() == swap_remove_down(
                old(self).samples(),
                drawn_positions(order@, batch_count(batch_size, old(self).samples().len()) as int),
                old(self).samples().len(),
            ),
            final(self).samples().to_multiset().add(zip_samples(r.0@, r.1@).to_multiset())
                == old(self).samples().to_multiset(),
    {
        broadcast use group_to_multiset_ensures;
        broadcast use group_multiset_axioms;
        broadcast use group_multiset_properties;

        let n = self.buffer_x.len();
        let ghost orig = self.samples();
        let ghost pick = |p: usize| orig[p as int];
        let take_count = if batch_size < n { batch_size } else { n };
        let mut marks: Vec<bool> = Vec::new();
        let mut m: usize = 0;
        while m < n
            invariant
                m <= n,
                marks.len() == m,
                forall|p: int| 0 <= p < m ==> !marks@[p],
            decreases n - m,
        {
            marks.push(false);
            m += 1;
        }

        let mut batch_x: Vec<Vec<T>> = Vec::new();
        let mut batch_y: Vec<T> = Vec::new();
        let mut j: usize = 0;
        while j < take_count
            invariant
                j <= take_count <= n,
                n == self.buffer_x.len(),
                self.wf(),
                self.samples() == orig,
                orig.len() == n,
                pick == (|p: usize| orig[p as int]),
                order.len() == n,
                order@.no_duplicates(),
                forall|k: int| 0 <= k < n ==> order@[k] < n,
                batch_x.len() == j,
                batch_y.len() == j,
                zip_samples(batch_x@, batch_y@) == order@.take(j as int).map_values(pick),
                marks.len() == n,
                forall|p: int| 0 <= p < n ==> (marks@[p] <==> order@.take(j as int).contains(p as usize)),
            decreases take_count - j,
        {
            let s = order[j];
            let ghost prev_batch = zip_samples(batch_x@, batch_y@);
            let ghost prev_marks = marks@;
            let row = copy_row(&self.buffer_x[s]);
            batch_x.push(row);
            batch_y.push(self.buffer_y[s]);
            marks[s] = true;
            proof {
                assert(order@.take(j + 1) =~= order@.take(j as int).push(s));
                assert(orig[s as int] == (self.buffer_x@[s as int]@, self.buffer_y@[s as int]));
                assert(zip_samples(batch_x@, batch_y@) =~= prev_batch.push(orig[s as int]));
                assert(order@.take(j + 1).map_values(pick) =~= order@.take(j as int).map_values(
                    pick,
                ).push(pick(s)));
                assert forall|p: int| 0 <= p < n implies (marks@[p] <==> order@.take(j + 1).contains(
                    p as usize,
                )) by {
                    if p == s as int {
                        assert(order@.take(j + 1)[j as int] == s);
                    } else {
                        assert(marks@[p] == prev_marks[p]);
                        let t1 = order@.take(j + 1);
                        let t0 = order@.take(j as int);
                        if t1.contains(p as usize) {
                            let k = choose|k: int| 0 <= k < t1.len() && #[trigger] t1[k] == p as usize;
                            assert(t0[k] == p as usize);
                        }
                        if t0.contains(p as usize) {
                            let k = choose|k: int| 0 <= k < t0.len() && #[trigger] t0[k] == p as usize;
                            assert(t1[k] == p as usize);
                        }
                    }
                }
            }
            j += 1;
        }

        let ghost drawn = drawn_positions(order@, take_count as int);
        assert forall|p: int| 0 <= p < n implies (marks@[p] <==> #[trigger] drawn.contains(p)) by {
            assert(p as usize as int == p);
        }
        let ghost mut removed: Seq<usize> = Seq::empty();
        let mut i: usize = n;
        while i > 0
            invariant
                i <= n,
                i <= self.buffer_x.len(),
                drawn == drawn_positions(order@, take_count as int),
                forall|p: int| 0 <= p < n ==> (marks@[p] <==> #[trigger] drawn.contains(p)),
                swap_remove_down(self.samples(), drawn, i as nat) == swap_remove_down(
                    orig,
                    drawn,
                    n as nat,
                ),
                self.wf(),
                self.capacity == old(self).capacity,
                orig.len() == n,
                pick == (|p: usize| orig[p as int]),
                forall|p: int| 0 <= p < i ==> self.samples()[p] == orig[p],
                self.samples().to_multiset().add(removed.map_values(pick).to_multiset())
                    == orig.to_multiset(),
                removed.no_duplicates(),
                forall|p: usize| removed.contains(p) <==> (i <= p < n && marks@[p as int]),
                marks.len() == n,
            decreases i,
        {
            i -= 1;
            let ghost before = self.samples();
            if marks[i] {
                let ghost old_removed = removed;
                proof {
                    lemma_swap_remove_multiset(before, i as int);
                }
                let _ = self.buffer_x.swap_remove(i);
                let _ = self.buffer_y.swap_remove(i);
                proof {
                    assert(self.samples() =~= before.update(i as int, before.last()).drop_last());
                    removed = removed.push(i);
                    assert(removed.map_values(pick) =~= old_removed.map_values(pick).push(orig[i as int]));
                    assert(before[i as int] == orig[i as int]);
                    let o = orig[i as int];
                    assert(before.contains(o)) by {
                        assert(before[i as int] == o);
                    }
                    to_multiset_contains(before, o);
                    assert(before.to_multiset().count(o) > 0);
                    let a = before.to_multiset();
                    let rm = old_removed.map_values(pick).to_multiset();
                    assert(self.samples().to_multiset() == a.remove(o));
                    to_multiset_build(old_removed.map_values(pick), o);
                    assert(removed.map_values(pick).to_multiset() == rm.insert(o));
                    assert(a.remove(o).add(rm.insert(o)) =~= a.add(rm));
                    assert(!old_removed.contains(i));
                    assert(removed.no_duplicates()) by {
                        assert forall|a: int, b: int|
                            0 <= a < removed.len() && 0 <= b < removed.len() && a != b implies removed[a]
                            != removed[b] by {
                            if a < old_removed.len() && b < old_removed.len() {
                                assert(removed[a] == old_removed[a]);
                                assert(removed[b] == old_removed[b]);
                            } else if a < old_removed.len() {
                                assert(old_removed.contains(removed[a]));
                            } else {
                                assert(old_removed.contains(removed[b]));
                            }
                        }
                    }
                    assert forall|p: usize| removed.contains(p) <==> (i <= p < n && marks@[p as int]) by {
                        if p == i {
                            assert(removed[removed.len() - 1] == p);
                        } else {
                            if removed.contains(p) {
                                let k = choose|k: int| 0 <= k < removed.len() && #[trigger] removed[k] == p;
                                assert(old_removed[k] == p);
                            }
                            if old_removed.contains(p) {
                                let k = choose|k: int| 0 <= k < old_removed.len() && #[trigger] old_removed[k] == p;
                                assert(removed[k] == p);
                            }
                        }
                    }
                }
            }
            proof {
                let next = if drawn.contains(i as int) && i < before.len() {
                    before.update(i as int, before.last()).drop_last()
                } else {
                    before
                };
                assert(swap_remove_down(before, drawn, (i + 1) as nat) == swap_remove_down(
                    next,
                    drawn,
                    i as nat,
                ));
                assert(self.samples() == next);
            }
        }
        assert(swap_remove_down(self.samples(), drawn, 0) == self.samples());
        proof {
            let m = take_count as int;
            let taken = order@.take(m);
            assert forall|p: usize| removed.contains(p) <==> taken.contains(p) by {
                if taken.contains(p) {
                    let k = choose|k: int| 0 <= k < taken.len() && taken[k] == p;
                    assert(order@[k] < n);
                }
            }
            lemma_distinct_same_elements(removed, taken);
            lemma_map_keeps_multiset(removed, taken, pick);
            assert(samples_at(orig, taken) =~= taken.map_values(pick));
        }
        (batch_x, batch_y)
    }

    /// Draws a batch of `min(batch_size, len)` samples uniformly at random
    /// from the buffer and removes them; `None` when the buffer is empty.
    /// The draw shuffles the positions `0..len` and takes the samples at the
    /// first of them with [`Self::take_positions`].
    pub fn pop_batch(&mut self, batch_size: usize) -> (r: Option<(Vec<Vec<T>>, Vec<T>)>)
        requires
            old(self).wf(),
        ensures
            final(self).wf(),
            final(self).capacity_limit() == old(self).capacity_limit(),
            r is None <==> old(self).samples().len() == 0,
            r is None ==> final(self).samples() == old(self).samples(),
            r matches Some(batch) ==> {
                &&& batch.0.len() == batch.1.len()
                &&& batch.0.len() == batch_count(batch_size, old(self).samples().len())
                &&& final(self).samples().to_multiset().add(
                    zip_samples(batch.0@, batch.1@).to_multiset(),
                ) == old(self).samples().to_multiset()
                &&& exists|order: Seq<usize>|
                    {
                        &&& order.len() == old(self).samples().len()
                        &&& order.no_duplicates()
                        &&& forall|k: int|
                            0 <= k < order.len() ==> #[trigger] order[k] < old(self).samples().len()
                        &&& zip_samples(batch.0@, batch.1@) == samples_at(
                            old(self).samples(),
                            order.take(batch_count(batch_size, old(self).samples().len()) as int),
                        )
                        &&& final(self).samples() == swap_remove_down(
                            old(self).samples(),
                            drawn_positions(
                                order,
                                batch_count(batch_size, old(self).samples().len()) as int,
                            ),
                            old(self).samples().len(),
                        )
                    }
                &&& exists|shuffle: ShuffledPositions|
                    #![trigger shuffle.positions()]
                    {
                        &&& shuffle.positions().to_multiset() == Seq::new(
                            old(self).samples().len(),
                            |k: int| k as usize,
                        ).to_multiset()
                        &&& zip_samples(batch.0@, batch.1@) == samples_at(
                            old(self).samples(),
                            shuffle.positions().take(
                                batch_count(batch_size, old(self).samples().len()) as int,
                            ),
                        )
                        &&& final(self).samples() == swap_remove_down(
                            old(self).samples(),
                            drawn_positions(
                                shuffle.positions(),
                                batch_count(batch_size, old(self).samples().len()) as int,
                            ),
                            old(self).samples().len(),
                        )
                    }
            },
    {
        let n = self.buffer_x.len();
        if n == 0 {
            return None;
        }
        let mut rng = thread_rng();
        let mut indices: Vec<usize> = Vec::new();
        let mut i: usize = 0;
        while i < n
            invariant
                i <= n,
                indices@ == Seq::new(i as nat, |k: int| k as usize),
            decreases n - i,
        {
            indices.push(i);
            i += 1;
            assert(indices@ =~= Seq::new(i as nat, |k: int| k as usize));
        }
        let ghost ordered = indices@;
        let shuffle = shuffle_indices(&mut rng, indices);
        let ghost drawn_order = shuffle.positions();
        let order = shuffle.into_vec();
        proof {
            lemma_permutation_keeps_distinct(order@, ordered);
            assert forall|k: int| 0 <= k < n implies #[trigger] order@[k] < n by {
                assert(order@.contains(order@[k]));
                assert(ordered.contains(order@[k]));
            }
        }
        let batch = self.take_positions(&order, batch_size);
        assert(drawn_order == order@);
        Some(batch)
    }

    /// Whether the buffer holds at least `capacity` samples.
    pub fn is_full(&self) -> (r: bool)
        requires
            self.wf(),
        ensures
            r == self.full(),
            r == (self.samples().len() >= self.capacity_limit()),
    {
        self.buffer_x.len() >= self.capacity
    }

    /// The feature count of the first buffered row, if any.
    pub fn first_row_width(&self) -> (r: Option<usize>)
        requires
            self.wf(),
        ensures
            r == if self.samples().len() == 0 {
                None::<usize>
            } else {
                Some(self.samples()[0].0.len() as usize)
            },
    {
        if self.buffer_x.len() == 0 {
            None
        } else {
            Some(self.buffer_x[0].len())
        }
    }

    /// The number of buffered samples.
    pub fn len(&self) -> (r: usize)
        requires
            self.wf(),
        ensures
            r == self.samples().len(),
    {
        self.buffer_x.len()
    }
}

/// How many input samples are pushed into a buffer holding `buffered`
/// samples before the next draw: pushing stops as soon as the buffer is
/// full (at least one sample is always pushed while input remains), or when
/// the input runs out.
pub open spec fn samples_before_draw(buffered: nat, capacity: nat, remaining: nat) -> nat {
    if remaining == 0 {
        0
    } else if buffered + 1 >= capacity {
        1
    } else if remaining < capacity - buffered {
        remaining
    } else {
        (capacity - buffered) as nat
    }
}

/// The order in which a streamed dataset is handed to an estimator: every
/// sample is pushed through a [`StreamingShuffleBuffer`]; whenever the buffer
/// is full a random batch is drawn from it, and once the input is exhausted
/// the buffer is drained batch by batch.
pub struct StreamingBatcher<T> {
    buffer: StreamingShuffleBuffer<T>,
    rows: Vec<Vec<T>>,
    targets: Vec<T>,
    next: usize,
    batch_size: usize,
    emitted: Ghost<Multiset<(Seq<T>, T)>>,
}

impl<T> StreamingBatcher<T> {
    /// Every sample of the dataset.
    pub closed spec fn input(&self) -> Multiset<(Seq<T>, T)> {
        zip_samples(self.rows@, self.targets@).to_multiset()
    }

    /// The samples handed out in batches so far.
    pub closed spec fn emitted(&self) -> Multiset<(Seq<T>, T)> {
        self.emitted@
    }

    /// The samples not handed out yet: those in the buffer and those not
    /// pushed into it yet.
    pub closed spec fn pending(&self) -> Multiset<(Seq<T>, T)> {
        self.buffer.samples().to_multiset().add(
            zip_samples(self.rows@, self.targets@).skip(self.next as int).to_multiset(),
        )
    }

    /// The samples in the buffer, in storage order.
    pub closed spec fn buffer_contents(&self) -> Seq<(Seq<T>, T)> {
        self.buffer.samples()
    }

    /// The samples of the dataset, in input order.
    pub closed spec fn input_samples(&self) -> Seq<(Seq<T>, T)> {
        zip_samples(self.rows@, self.targets@)
    }

    /// The configured batch size.
    pub closed spec fn batch_limit(&self) -> usize {
        self.batch_size
    }

    /// The buffer capacity.
    pub closed spec fn buffer_capacity(&self) -> nat {
        self.buffer.capacity_limit() as nat
    }

    /// The number of samples in the buffer.
    pub closed spec fn buffered(&self) -> nat {
        self.buffer.samples().len()
    }

    /// The number of input samples pushed into the buffer so far.
    pub closed spec fn fed(&self) -> nat {
        self.next as nat
    }

    /// The number of samples in the dataset.
    pub closed spec fn input_len(&self) -> nat {
        self.rows.len() as nat
    }

    /// Every sample is either handed out or pending, exactly once.
    pub closed spec fn wf(&self) -> bool {
        &&& self.buffer.wf()
        &&& self.rows.len() <= self.targets.len()
        &&& self.next <= self.rows.len()
        &&& self.emitted@.add(self.pending()) == self.input()
    }
}

impl<T> StreamingBatcher<T> {
    /// Every sample of the dataset has either been handed out or is still
    /// pending, and not both: no sample is lost or handed out twice.
    pub proof fn lemma_each_sample_once(&self)
        requires
            self.wf(),
        ensures
            self.emitted().add(self.pending()) == self.input(),
    {
    }
}

impl<T: Copy> StreamingBatcher<T> {
    pub fn new(rows: Vec<Vec<T>>, targets: Vec<T>, config: StreamingConfig) -> (b: Self)
        requires
            rows.len() <= targets.len(),
        ensures
            b.wf(),
            b.input() == zip_samples(rows@, targets@).to_multiset(),
            b.emitted() == Multiset::<(Seq<T>, T)>::empty(),
            b.pending() == b.input(),
            b.batch_limit() == config.batch_size,
            b.buffer_capacity() == config.shuffle_buffer_capacity,
            b.buffered() == 0,
            b.fed() == 0,
            b.input_len() == rows.len(),
    {
        broadcast use group_to_multiset_ensures;
        broadcast use group_multiset_axioms;

        let b = StreamingBatcher {
            buffer: StreamingShuffleBuffer::new(config.shuffle_buffer_capacity),
            rows,
            targets,
            next: 0,
            batch_size: config.batch_size,
            emitted: Ghost(Multiset::empty()),
        };
        assert(zip_samples(b.rows@, b.targets@).skip(0) =~= zip_samples(b.rows@, b.targets@));
        assert(b.pending() =~= b.input());
        assert(b.emitted@.add(b.pending()) =~= b.input());
        b
    }

    /// The next batch to fit, or `None` once every sample has been handed out.
    pub fn next_batch(&mut self) -> (r: Option<(Vec<Vec<T>>, Vec<T>)>)
        requires
            old(self).wf(),
        ensures
            final(self).wf(),
            final(self).input() == old(self).input(),
            final(self).batch_limit() == old(self).batch_limit(),
            final(self).buffer_capacity() == old(self).buffer_capacity(),
            final(self).input_len() == old(self).input_len(),
            final(self).fed() == old(self).fed() + samples_before_draw(
                old(self).buffered(),
                old(self).buffer_capacity(),
                (old(self).input_len() - old(self).fed()) as nat,
            ),
            r is None <==> old(self).buffered() + samples_before_draw(
                old(self).buffered(),
                old(self).buffer_capacity(),
                (old(self).input_len() - old(self).fed()) as nat,
            ) == 0,
            r is None ==> old(self).pending().len() == 0 && final(self).emitted() == old(self).input(),
            r matches Some(batch) ==> {
                let drawn_from = old(self).buffered() + samples_before_draw(
                    old(self).buffered(),
                    old(self).buffer_capacity(),
                    (old(self).input_len() - old(self).fed()) as nat,
                );
                &&& batch.0.len() == batch.1.len()
                &&& batch.0.len() == if old(self).batch_limit() < drawn_from {
                    old(self).batch_limit() as nat
                } else {
                    drawn_from
                }
                &&& final(self).buffered() == drawn_from - batch.0.len()
                &&& final(self).emitted() == old(self).emitted().add(
                    zip_samples(batch.0@, batch.1@).to_multiset(),
                )
                &&& old(self).pending() == final(self).pending().add(
                    zip_samples(batch.0@, batch.1@).to_multiset(),
                )
                &&& exists|order: Seq<usize>|
                    #![trigger drawn_positions(order, batch.0.len() as int)]
                    {
                        let pool = old(self).buffer_contents() + old(
                            self,
                        ).input_samples().subrange(old(self).fed() as int, final(self).fed() as int);
                        &&& order.len() == pool.len()
                        &&& order.no_duplicates()
                        &&& forall|k: int| 0 <= k < order.len() ==> #[trigger] order[k] < pool.len()
                        &&& zip_samples(batch.0@, batch.1@) == samples_at(
                            pool,
                            order.take(batch.0.len() as int),
                        )
                        &&& final(self).buffer_contents() == swap_remove_down(
                            pool,
                            drawn_positions(order, batch.0.len() as int),
                            pool.len(),
                        )
                    }
                &&& exists|shuffle: ShuffledPositions|
                    #![trigger shuffle.positions()]
                    {
                        let pool = old(self).buffer_contents() + old(
                            self,
                        ).input_samples().subrange(old(self).fed() as int, final(self).fed() as int);
                        &&& shuffle.positions().to_multiset() == Seq::new(
                            pool.len(),
                            |k: int| k as usize,
                        ).to_multiset()
                        &&& zip_samples(batch.0@, batch.1@) == samples_at(
                            pool,
                            shuffle.positions().take(batch.0.len() as int),
                        )
                        &&& final(self).buffer_contents() == swap_remove_down(
                            pool,
                            drawn_positions(shuffle.positions(), batch.0.len() as int),
                            pool.len(),
                        )
                    }
            },
    {
        broadcast use group_to_multiset_ensures;
        broadcast use group_multiset_axioms;
        broadcast use group_multiset_properties;

        let ghost start_pending = self.pending();
        loop
            invariant
                self.wf(),
                self.emitted@ == old(self).emitted@,
                self.pending() == start_pending,
                start_pending == old(self).pending(),
                self.input() == old(self).input(),
                self.batch_size == old(self).batch_size,
                self.rows@ == old(self).rows@,
                self.targets@ == old(self).targets@,
                self.buffer.capacity == old(self).buffer.capacity,
                old(self).next <= self.next <= self.rows.len(),
                self.buffer.samples().len() == old(self).buffer.samples().len() + (self.next
                    - old(self).next),
                self.next == old(self).next || old(self).buffer.samples().len() + (self.next
                    - old(self).next) < self.buffer.capacity,
                self.buffer.samples() == old(self).buffer.samples() + zip_samples(
                    old(self).rows@,
                    old(self).targets@,
                ).subrange(old(self).next as int, self.next as int),
            decreases self.rows.len() - self.next,
        {
            if self.next < self.rows.len() {
                let ghost all = zip_samples(self.rows@, self.targets@);
                let ghost before_buf = self.buffer.samples();
                let i = self.next;
                let row = copy_row(&self.rows[i]);
                let mut one_row: Vec<Vec<T>> = Vec::new();
                one_row.push(row);
                let mut one_target: Vec<T> = Vec::new();
                one_target.push(self.targets[i]);
                self.buffer.push_batch(&one_row, &one_target);
                self.next = i + 1;
                proof {
                    let sample = all[i as int];
                    assert(zip_samples(one_row@, one_target@) =~= seq![sample]);
                    assert(self.buffer.samples() =~= before_buf.push(sample));
                    assert(all.subrange(old(self).next as int, i + 1) =~= all.subrange(
                        old(self).next as int,
                        i as int,
                    ).push(sample));
                    assert(self.buffer.samples() =~= old(self).buffer.samples() + all.subrange(
                        old(self).next as int,
                        self.next as int,
                    ));
                    assert(all.skip(i as int) =~= all.skip(i + 1).insert(0, sample));
                    to_multiset_build(before_buf, sample);
                    to_multiset_insert(all.skip(i + 1), 0, sample);
                    let bm = before_buf.to_multiset();
                    let rm = all.skip(i + 1).to_multiset();
                    assert(self.buffer.samples().to_multiset() == bm.insert(sample));
                    assert(all.skip(i as int).to_multiset() == rm.insert(sample));
                    assert(bm.insert(sample).add(rm) =~= bm.add(rm.insert(sample)));
                    assert(self.pending() =~= start_pending);
                }
                if self.buffer.is_full() {
                    let ghost mid_buf = self.buffer.samples();
                    let popped = self.buffer.pop_batch(self.batch_size);
                    let batch = popped.unwrap();
                    proof {
                        let got = zip_samples(batch.0@, batch.1@).to_multiset();
                        assert(start_pending =~= self.pending().add(got));
                        to_multiset_len(self.buffer.samples());
                        to_multiset_len(zip_samples(batch.0@, batch.1@));
                        to_multiset_len(mid_buf);
                        assert(self.buffer.samples().len() + batch.0.len() == mid_buf.len());
                        self.emitted@ = self.emitted@.add(got);
                        assert(self.emitted@.add(self.pending()) =~= self.input());
                    }
                    return Some(batch);
                }
            } else {
                let ghost all = zip_samples(self.rows@, self.targets@);
                proof {
                    lemma_empty_seq_multiset(all.skip(self.next as int));
                    assert(self.pending() =~= self.buffer.samples().to_multiset());
                }
                let ghost mid_buf = self.buffer.samples();
                let popped = self.buffer.pop_batch(self.batch_size);
                proof {
                    if popped is Some {
                        let batch = popped->0;
                        let got = zip_samples(batch.0@, batch.1@).to_multiset();
                        to_multiset_len(self.buffer.samples());
                        to_multiset_len(zip_samples(batch.0@, batch.1@));
                        to_multiset_len(mid_buf);
                        assert(self.buffer.samples().len() + batch.0.len() == mid_buf.len());
                        lemma_empty_seq_multiset(all.skip(self.next as int));
                        assert(self.pending() =~= self.buffer.samples().to_multiset());
                        assert(start_pending =~= self.pending().add(got));
                        self.emitted@ = self.emitted@.add(got);
                        assert(self.emitted@.add(self.pending()) =~= self.input());
                    } else {
                        lemma_empty_seq_multiset(self.buffer.samples());
                        assert(start_pending =~= Multiset::<(Seq<T>, T)>::empty());
                        assert(start_pending.len() == 0);
                        assert(self.emitted@ =~= self.input());
                    }
                }
                return popped;
            }
        }
    }
}

/// How reading one column of a data frame as numbers went.
#[derive(Debug, Clone, Copy, PartialEq, Eq, Structural)]
pub enum ColumnRead {
    /// No column has that name.
    Missing,
    /// The column cannot be read as numbers.
    NotNumeric,
    /// The column holds a missing value.
    HasMissingValue,
    /// Every value of the column was read.
    Complete,
}

/// The error that one column read reports, if any: a column that is missing
/// or not numeric makes the batch unusable, a missing value is not finite.
pub open spec fn column_error(c: ColumnRead) -> Option<IncrementalError> {
    match c {
        ColumnRead::Missing => Some(IncrementalError::EmptyBatch),
        ColumnRead::NotNumeric => Some(IncrementalError::EmptyBatch),
        ColumnRead::HasMissingValue => Some(IncrementalError::NonFiniteInput),
        ColumnRead::Complete => None,
    }
}

/// The outcome of reading columns in turn: the error of the first column
/// that fails, or success when every column was read.
pub open spec fn columns_result(reads: Seq<ColumnRead>) -> Result<(), IncrementalError>
    decreases reads.len(),
{
    if reads.len() == 0 {
        Ok(())
    } else {
        match column_error(reads[0]) {
            Some(e) => Err(e),
            None => columns_result(reads.skip(1)),
        }
    }
}

/// Decides a data frame read from the outcomes of its column reads, in the
/// order the columns are read (the feature columns, then the target): the
/// first column that fails decides the error.
pub fn check_columns(reads: &Vec<ColumnRead>) -> (r: Result<(), IncrementalError>)
    ensures
        r == columns_result(reads@),
{
    let mut i: usize = 0;
    assert(reads@.skip(0) =~= reads@);
    while i < reads.len()
        invariant
            i <= reads.len(),
            columns_result(reads@.skip(i as int)) == columns_result(reads@),
        decreases reads.len() - i,
    {
        let ghost rest = reads@.skip(i as int);
        assert(rest[0] == reads@[i as int]);
        assert(rest.skip(1) =~= reads@.skip(i + 1));
        match reads[i] {
            ColumnRead::Missing => {
                return Err(IncrementalError::EmptyBatch);
            },
            ColumnRead::NotNumeric => {
                return Err(IncrementalError::EmptyBatch);
            },
            ColumnRead::HasMissingValue => {
                return Err(IncrementalError::NonFiniteInput);
            },
            ColumnRead::Complete => {},
        }
        i += 1;
    }
    assert(reads@.skip(i as int) =~= Seq::<ColumnRead>::empty());
    Ok(())
}

/// Where the value of row `r`, feature `f` sits among values read column by
/// column.
pub open spec fn column_major_index(n_rows: int, r: int, f: int) -> int {
    f * n_rows + r
}

proof fn lemma_column_major_in_bounds(n_rows: int, n_features: int, r: int, f: int)
    requires
        0 <= r < n_rows,
        0 <= f < n_features,
    ensures
        0 <= column_major_index(n_rows, r, f) < n_rows * n_features,
{
    assert(0 <= f * n_rows) by (nonlinear_arith)
        requires
            0 <= f,
            0 <= n_rows,
    ;
    assert(f * n_rows + r < n_rows * n_features) by (nonlinear_arith)
        requires
            0 <= r < n_rows,
            0 <= f < n_features,
    ;
}

/// Rearranges values read column by column (every row of the first feature,
/// then every row of the second, ...) into one row per sample.
pub fn rows_from_columns<T: Copy>(values: &Vec<T>, n_rows: usize, n_features: usize) -> (rows: Vec<
    Vec<T>,
>)
    requires
        values.len() == n_rows * n_features,
    ensures
        rows.len() == n_rows,
        forall|r: int| 0 <= r < n_rows ==> (#[trigger] rows@[r]).len() == n_features,
        forall|r: int, f: int|
            0 <= r < n_rows && 0 <= f < n_features ==> #[trigger] rows@[r]@[f] == values@[column_major_index(
                n_rows as int,
                r,
                f,
            )],
{
    let mut rows: Vec<Vec<T>> = Vec::new();
    let mut r: usize = 0;
    while r < n_rows
        invariant
            r <= n_rows,
            values.len() == n_rows * n_features,
            rows.len() == r,
            forall|q: int| 0 <= q < r ==> (#[trigger] rows@[q]).len() == n_features,
            forall|q: int, f: int|
                0 <= q < r && 0 <= f < n_features ==> #[trigger] rows@[q]@[f] == values@[column_major_index(
                    n_rows as int,
                    q,
                    f,
                )],
        decreases n_rows - r,
    {
        let mut row: Vec<T> = Vec::new();
        let mut f: usize = 0;
        while f < n_features
            invariant
                r < n_rows,
                f <= n_features,
                values.len() == n_rows * n_features,
                row.len() == f,
                forall|g: int|
                    0 <= g < f ==> #[trigger] row@[g] == values@[column_major_index(
                        n_rows as int,
                        r as int,
                        g,
                    )],
            decreases n_features - f,
        {
            proof {
                lemma_column_major_in_bounds(n_rows as int, n_features as int, r as int, f as int);
            }
            row.push(values[f * n_rows + r]);
            f += 1;
        }
        rows.push(row);
        r += 1;
    }
    rows
}

} // verus!
