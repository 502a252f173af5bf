//! Bookkeeping of mini-batch k-means (Sculley, 2010): the feature count
//! fixed by the first batch, the choice of the batch rows that seed the
//! centroids, and the cumulative number of points assigned to each cluster,
//! from which each centroid update takes its step size `1 / count`.

use vstd::prelude::*;
use vstd::seq_lib::group_to_multiset_ensures;
use vstd::seq_lib::to_multiset_build;
use vstd::multiset::group_multiset_axioms;
use vstd::multiset::group_multiset_properties;
use crate::error::IncrementalError;
use crate::validation::batch_check;
use crate::validation::check_batch;
use crate::validation::fitted_batch_check;
use crate::random::thread_rng;
use crate::random::random_in_range;
use crate::random::RangeDraw;

verus! {

/// The sum of the counts.
pub open spec fn count_sum(s: Seq<u64>) -> int
    decreases s.len(),
{
    if s.len() == 0 {
        0
    } else {
        count_sum(s.drop_last()) + s.last()
    }
}

proof fn lemma_count_sum_concat(a: Seq<u64>, b: Seq<u64>)
    ensures
        count_sum(a + b) == count_sum(a) + count_sum(b),
    decreases b.len(),
{
    if b.len() == 0 {
        assert(a + b =~= a);
    } else {
        lemma_count_sum_concat(a, b.drop_last());
        assert((a + b).drop_last() =~= a + b.drop_last());
    }
}

proof fn lemma_count_sum_nonneg(s: Seq<u64>)
    ensures
        count_sum(s) >= 0,
    decreases s.len(),
{
    if s.len() > 0 {
        lemma_count_sum_nonneg(s.drop_last());
    }
}

proof fn lemma_count_sum_split(s: Seq<u64>, i: int)
    requires
        0 <= i < s.len(),
    ensures
        count_sum(s) == count_sum(s.take(i)) + s[i] + count_sum(s.skip(i + 1)),
        count_sum(s.take(i)) >= 0,
        count_sum(s.skip(i + 1)) >= 0,
{
    assert(s =~= s.take(i) + seq![s[i]] + s.skip(i + 1));
    lemma_count_sum_concat(s.take(i) + seq![s[i]], s.skip(i + 1));
    lemma_count_sum_concat(s.take(i), seq![s[i]]);
    assert(seq![s[i]].drop_last() =~= Seq::<u64>::empty());
    assert(count_sum(Seq::<u64>::empty()) == 0);
    lemma_count_sum_nonneg(s.take(i));
    lemma_count_sum_nonneg(s.skip(i + 1));
}

proof fn lemma_count_sum_increment(s: Seq<u64>, i: int, v: u64)
    requires
        0 <= i < s.len(),
        v == s[i] + 1,
    ensures
        count_sum(s.update(i, v)) == count_sum(s) + 1,
{
    let u = s.update(i, v);
    lemma_count_sum_split(s, i);
    lemma_count_sum_split(u, i);
    assert(u.take(i) =~= s.take(i));
    assert(u.skip(i + 1) =~= s.skip(i + 1));
}

proof fn lemma_count_sum_zeros(n: nat)
    ensures
        count_sum(Seq::new(n, |c: int| 0u64)) == 0,
    decreases n,
{
    if n > 0 {
        lemma_count_sum_zeros((n - 1) as nat);
        assert(Seq::new(n, |c: int| 0u64).drop_last() =~= Seq::new((n - 1) as nat, |c: int| 0u64));
    }
}

/// Draws that a partial Fisher–Yates pass over `n` positions accepts: at
/// most `n` of them, draw `i` lying in `i..n`.
pub open spec fn valid_draws(n: nat, draws: Seq<usize>) -> bool {
    &&& draws.len() <= n
    &&& forall|i: int| 0 <= i < draws.len() ==> i <= #[trigger] draws[i] < n
}

/// The positions `0..n` after one Fisher–Yates step per draw: step `i`
/// exchanges the entries at positions `i` and `draws[i]`.
pub open spec fn seed_pool(n: nat, draws: Seq<usize>) -> Seq<usize>
    decreases draws.len(),
{
    if draws.len() == 0 {
        Seq::new(n, |q: int| q as usize)
    } else {
        let prev = seed_pool(n, draws.drop_last());
        let i = draws.len() - 1;
        let j = draws.last() as int;
        prev.update(i, prev[j]).update(j, prev[i])
    }
}

/// The rows that seed the centroids for the given draws: the first
/// `draws.len()` entries of [`seed_pool`].
pub open spec fn seed_rows(n: nat, draws: Seq<usize>) -> Seq<usize> {
    seed_pool(n, draws).take(draws.len() as int)
}

proof fn lemma_seed_pool_first_pick(n: nat, draws: Seq<usize>, j: usize, m: int)
    requires
        1 <= m <= draws.len(),
        draws.len() <= n <= usize::MAX,
        j < n,
        draws[0] == j,
        forall|i: int| 1 <= i < draws.len() ==> #[trigger] draws[i] == i,
    ensures
        seed_pool(n, draws.take(m)) == Seq::new(n, |q: int| q as usize).update(0, j).update(
            j as int,
            0usize,
        ),
    decreases m,
{
    let t = draws.take(m);
    let ident = Seq::new(n, |q: int| q as usize);
    let target = ident.update(0, j).update(j as int, 0usize);
    assert(t.drop_last() =~= draws.take(m - 1));
    let prev = seed_pool(n, t.drop_last());
    let d = t.last() as int;
    assert(seed_pool(n, t) == prev.update(m - 1, prev[d]).update(d, prev[m - 1]));
    if m == 1 {
        assert(t.drop_last() =~= Seq::<usize>::empty());
        assert(prev == ident);
        assert(d == j as int);
        assert(prev.update(0, prev[d]).update(d, prev[0]) =~= target);
    } else {
        lemma_seed_pool_first_pick(n, draws, j, m - 1);
        assert(d == m - 1);
        assert(prev.update(m - 1, prev[m - 1]).update(m - 1, prev[m - 1]) =~= prev);
    }
}

/// Every row of the batch can seed the first centroid: for any row `j`
/// below `n` and any `k` seeds with `1 <= k <= n`, some admissible draws
/// make `j` the first seed.
pub proof fn lemma_every_row_can_seed_first(n: nat, k: nat, j: usize)
    requires
        1 <= k <= n <= usize::MAX,
        j < n,
    ensures
        exists|draws: Seq<usize>|
            #![trigger seed_rows(n, draws)]
            draws.len() == k && valid_draws(n, draws) && seed_rows(n, draws)[0] == j,
{
    let draws = Seq::new(k, |i: int| if i == 0 { j } else { i as usize });
    assert forall|i: int| 1 <= i < draws.len() implies #[trigger] draws[i] == i by {
        assert(i < usize::MAX);
    }
    lemma_seed_pool_first_pick(n, draws, j, k as int);
    assert(draws.take(k as int) =~= draws);
    assert(seed_rows(n, draws)[0] == j);
}

/// The seed rows for the given draws (a partial Fisher–Yates pass over the
/// row positions `0..n`). Each draw `i` lies in `i..n`, so the rows are
/// distinct and below `n`; with uniform draws every ordered choice of
/// distinct rows is equally likely.
pub fn pick_seeds(n: usize, draws: &Vec<usize>) -> (r: Vec<usize>)
    requires
        valid_draws(n as nat, draws@),
    ensures
        r@ == seed_rows(n as nat, draws@),
        r.len() == draws.len(),
        r@.no_duplicates(),
        forall|i: int| 0 <= i < r.len() ==> #[trigger] r@[i] < n,
{
    let k = draws.len();
    let mut pool: Vec<usize> = Vec::new();
    let mut m: usize = 0;
    while m < n
        invariant
            m <= n,
            pool@ == Seq::new(m as nat, |q: int| q as usize),
        decreases n - m,
    {
        pool.push(m);
        m += 1;
        assert(pool@ =~= Seq::new(m as nat, |q: int| q as usize));
    }
    assert(draws@.take(0) =~= Seq::<usize>::empty());
    let mut i: usize = 0;
    while i < k
        invariant
            i <= k <= n,
            k == draws.len(),
            valid_draws(n as nat, draws@),
            pool.len() == n,
            pool@ == seed_pool(n as nat, draws@.take(i as int)),
            pool@.no_duplicates(),
            forall|q: int| 0 <= q < n ==> #[trigger] pool@[q] < n,
        decreases k - i,
    {
        let j = draws[i];
        let a = pool[i];
        let b = pool[j];
        let ghost before = pool@;
        pool[i] = b;
        pool[j] = a;
        proof {
            let after = pool@;
            let t1 = draws@.take(i + 1);
            assert(t1.drop_last() =~= draws@.take(i as int));
            assert(t1.last() == j);
            assert(after =~= before.update(i as int, before[j as int]).update(
                j as int,
                before[i as int],
            ));
            assert(forall|q: int| 0 <= q < n && q != i && q != j ==> after[q] == before[q]);
            assert forall|x: int, y: int| 0 <= x < n && 0 <= y < n && x != y implies after[x]
                != after[y] by {
                let sx = if x == i { j as int } else if x == j { i as int } else { x };
                let sy = if y == i { j as int } else if y == j { i as int } else { y };
                assert(after[x] == before[sx]);
                assert(after[y] == before[sy]);
            }
            assert forall|q: int| 0 <= q < n implies #[trigger] after[q] < n by {
                let sq = if q == i { j as int } else if q == j { i as int } else { q };
                assert(after[q] == before[sq]);
            }
        }
        i += 1;
    }
    assert(draws@.take(k as int) =~= draws@);
    let mut r: Vec<usize> = Vec::new();
    let mut t: usize = 0;
    while t < k
        invariant
            t <= k <= n,
            pool.len() == n,
            pool@.no_duplicates(),
            forall|q: int| 0 <= q < n ==> #[trigger] pool@[q] < n,
            r@ == pool@.take(t as int),
        decreases k - t,
    {
        r.push(pool[t]);
        t += 1;
        assert(r@ =~= pool@.take(t as int));
    }
    r
}

/// The values of a sequence of generator draws.
pub open spec fn draw_values(draws: Seq<RangeDraw>) -> Seq<usize> {
    draws.map_values(|d: RangeDraw| d.drawn())
}

/// The draws of a seeding over `n` rows: draw `i` was taken by the
/// generator from the whole range `i..n`.
pub open spec fn draws_over_rows(draws: Seq<RangeDraw>, n: nat) -> bool {
    forall|i: int| 0 <= i < draws.len() ==> #[trigger] draws[i].low() == i && draws[i].high() == n
}

/// Picks `k` distinct rows below `n` uniformly at random, in random order:
/// draw `i` is uniform in `i..n`, and the draws go to [`pick_seeds`].
fn choose_distinct_rows(n: usize, k: usize) -> (r: Vec<usize>)
    requires
        k <= n,
    ensures
        r.len() == k,
        r@.no_duplicates(),
        forall|i: int| 0 <= i < k ==> #[trigger] r@[i] < n,
        exists|draws: Seq<usize>|
            draws.len() == k && valid_draws(n as nat, draws) && r@ == seed_rows(
                n as nat,
                draws,
            ),
        exists|draws: Seq<RangeDraw>|
            #![trigger draw_values(draws)]
            draws.len() == k && draws_over_rows(draws, n as nat) && r@ == seed_rows(
                n as nat,
                draw_values(draws),
            ),
{
    let mut rng = thread_rng();
    let mut draws: Vec<usize> = Vec::new();
    let ghost mut made: Seq<RangeDraw> = Seq::empty();
    let mut i: usize = 0;
    while i < k
        invariant
            i <= k <= n,
            draws.len() == i,
            made.len() == i,
            draws@ == draw_values(made),
            draws_over_rows(made, n as nat),
            forall|t: int| 0 <= t < i ==> t <= #[trigger] draws@[t] < n,
        decreases k - i,
    {
        let d = random_in_range(&mut rng, i, n);
        let v = d.value();
        draws.push(v);
        proof {
            made = made.push(d);
            assert(draws@ =~= draw_values(made));
        }
        i += 1;
    }
    let r = pick_seeds(n, &draws);
    assert(r@ == seed_rows(n as nat, draw_values(made)));
    r
}

/// Point counts of the clusters, and the feature count once the centroids
/// have been seeded.
pub struct ClusterState {
    n_clusters: usize,
    n_features: Option<usize>,
    counts: Vec<u64>,
    assigned: u64,
    fits: Ghost<nat>,
}

impl ClusterState {
    /// One count per cluster; the counts add up to the number of points
    /// assigned in all.
    pub closed spec fn wf(&self) -> bool {
        &&& self.counts.len() == self.n_clusters
        &&& count_sum(self.counts@) == self.assigned
        &&& (self.n_features is Some <==> self.fits@ > 0)
    }

    /// The number of batches accepted for fitting so far.
    pub closed spec fn accepted_fits(&self) -> nat {
        self.fits@
    }

    /// The centroids have been seeded (the feature count is fixed) exactly
    /// when some batch has been accepted for fitting.
    pub proof fn lemma_seeded_iff_fitted(&self)
        requires
            self.wf(),
        ensures
            self.features() is Some <==> self.accepted_fits() > 0,
    {
    }

    /// Every point assigned so far is counted in exactly one cluster.
    pub proof fn lemma_counts_add_up(&self)
        requires
            self.wf(),
        ensures
            count_sum(self.cluster_counts()) == self.assigned_total(),
            self.cluster_counts().len() == self.clusters(),
    {
    }

    /// The number of clusters.
    pub closed spec fn clusters(&self) -> nat {
        self.n_clusters as nat
    }

    /// The feature count, fixed when the centroids are seeded.
    pub closed spec fn features(&self) -> Option<usize> {
        self.n_features
    }

    /// The cumulative number of points assigned to each cluster.
    pub closed spec fn cluster_counts(&self) -> Seq<u64> {
        self.counts@
    }

    /// The number of points assigned in all.
    pub closed spec fn assigned_total(&self) -> nat {
        self.assigned as nat
    }

    pub fn new(n_clusters: usize) -> (s: Self)
        ensures
            s.wf(),
            s.clusters() == n_clusters,
            s.features() is None,
            s.cluster_counts() == Seq::new(n_clusters as nat, |c: int| 0u64),
            s.assigned_total() == 0,
            s.accepted_fits() == 0,
    {
        let mut counts: Vec<u64> = Vec::new();
        let mut c: usize = 0;
        while c < n_clusters
            invariant
                c <= n_clusters,
                counts@ == Seq::new(c as nat, |q: int| 0u64),
            decreases n_clusters - c,
        {
            counts.push(0);
            c += 1;
            assert(counts@ =~= Seq::new(c as nat, |q: int| 0u64));
        }
        proof {
            lemma_count_sum_zeros(n_clusters as nat);
        }
        ClusterState { n_clusters, n_features: None, counts, assigned: 0, fits: Ghost(0) }
    }

    /// Checks a batch to be fitted. On the first accepted batch the centroids
    /// are seeded: the result then holds `n_clusters` distinct rows of the
    /// batch, chosen at random ([`seed_rows`] of uniform draws), whose values
    /// become the centroids in that order. A batch with fewer rows than clusters cannot seed them and is
    /// rejected as empty. A rejected batch leaves the state unchanged.
    pub fn begin_fit(&mut self, n_rows: usize, n_cols: usize, all_finite: bool) -> (r: Result<
        Option<Vec<usize>>,
        IncrementalError,
    >)
        requires
            old(self).wf(),
        ensures
            final(self).wf(),
            final(self).clusters() == old(self).clusters(),
            final(self).cluster_counts() == old(self).cluster_counts(),
            final(self).assigned_total() == old(self).assigned_total(),
            (match batch_check(n_rows, n_cols, None, all_finite, old(self).features()) {
                Err(e) => r == Err::<Option<Vec<usize>>, IncrementalError>(e) && *final(self)
                    == *old(self),
                Ok(_) => if old(self).features() is Some {
                    &&& r == Ok::<Option<Vec<usize>>, IncrementalError>(None)
                    &&& final(self).features() == old(self).features()
                    &&& final(self).accepted_fits() == old(self).accepted_fits() + 1
                } else if n_rows < old(self).clusters() {
                    r == Err::<Option<Vec<usize>>, IncrementalError>(IncrementalError::EmptyBatch)
                        && *final(self) == *old(self)
                } else {
                    &&& r matches Ok(Some(seeds))
                    &&& final(self).features() == Some(n_cols)
                    &&& final(self).accepted_fits() == old(self).accepted_fits() + 1
                },
            }),
            r matches Ok(Some(seeds)) ==> {
                &&& seeds.len() == old(self).clusters()
                &&& seeds@.no_duplicates()
                &&& forall|i: int| 0 <= i < seeds.len() ==> #[trigger] seeds@[i] < n_rows
                &&& exists|draws: Seq<usize>|
                    draws.len() == old(self).clusters() && valid_draws(n_rows as nat, draws)
                        && seeds@ == seed_rows(n_rows as nat, draws)
                &&& exists|draws: Seq<RangeDraw>|
                    #![trigger draw_values(draws)]
                    draws.len() == old(self).clusters() && draws_over_rows(draws, n_rows as nat)
                        && seeds@ == seed_rows(n_rows as nat, draw_values(draws))
            },
    {
        check_batch(n_rows, n_cols, None, all_finite, self.n_features)?;
        if self.n_features.is_some() {
            self.fits = Ghost(self.fits@ + 1);
            return Ok(None);
        }
        if n_rows < self.n_clusters {
            return Err(IncrementalError::EmptyBatch);
        }
        let seeds = choose_distinct_rows(n_rows, self.n_clusters);
        self.n_features = Some(n_cols);
        self.fits = Ghost(self.fits@ + 1);
        Ok(Some(seeds))
    }

    /// Counts the points of a batch into their clusters, in batch order. The
    /// result holds, for each point, the count of its cluster just after that
    /// point was counted: the point moves its centroid by the step size
    /// `1 / count`.
    pub fn record_assignments(&mut self, assignments: &Vec<usize>) -> (steps: Vec<u64>)
        requires
            old(self).wf(),
            forall|i: int| 0 <= i < assignments.len() ==> #[trigger] assignments@[i] < old(self).clusters(),
            old(self).assigned_total() + assignments.len() <= u64::MAX,
        ensures
            final(self).wf(),
            final(self).clusters() == old(self).clusters(),
            final(self).features() == old(self).features(),
            final(self).accepted_fits() == old(self).accepted_fits(),
            final(self).assigned_total() == old(self).assigned_total() + assignments.len(),
            forall|c: int|
                0 <= c < old(self).clusters() ==> #[trigger] final(self).cluster_counts()[c]
                    == old(self).cluster_counts()[c] + assignments@.to_multiset().count(c as usize),
            steps.len() == assignments.len(),
            forall|i: int|
                0 <= i < assignments.len() ==> #[trigger] steps@[i] == old(self).cluster_counts()[assignments@[i] as int]
                    + assignments@.take(i + 1).to_multiset().count(assignments@[i]),
    {
        broadcast use group_to_multiset_ensures;
        broadcast use group_multiset_axioms;
        broadcast use group_multiset_properties;

        let mut steps: Vec<u64> = Vec::new();
        let mut i: usize = 0;
        while i < assignments.len()
            invariant
                i <= assignments.len(),
                self.wf(),
                self.n_clusters == old(self).n_clusters,
                self.n_features == old(self).n_features,
                self.fits == old(self).fits,
                self.assigned == old(self).assigned + i,
                old(self).assigned_total() + assignments.len() <= u64::MAX,
                forall|k: int| 0 <= k < assignments.len() ==> #[trigger] assignments@[k] < old(self).clusters(),
                forall|c: int|
                    0 <= c < old(self).clusters() ==> #[trigger] self.counts@[c] == old(self).counts@[c]
                        + assignments@.take(i as int).to_multiset().count(c as usize),
                steps.len() == i,
                forall|k: int|
                    0 <= k < i ==> #[trigger] steps@[k] == old(self).counts@[assignments@[k] as int]
                        + assignments@.take(k + 1).to_multiset().count(assignments@[k]),
            decreases assignments.len() - i,
        {
            let c = assignments[i];
            proof {
                lemma_count_sum_split(self.counts@, c as int);
            }
            let next = self.counts[c] + 1;
            proof {
                lemma_count_sum_increment(self.counts@, c as int, next);
            }
            self.counts[c] = next;
            self.assigned = self.assigned + 1;
            steps.push(next);
            proof {
                let t0 = assignments@.take(i as int);
                let t1 = assignments@.take(i + 1);
                assert(t1 =~= t0.push(c));
                to_multiset_build(t0, c);
                assert forall|d: int| 0 <= d < old(self).clusters() implies #[trigger] self.counts@[d]
                    == old(self).counts@[d] + t1.to_multiset().count(d as usize) by {
                    if d == c as int {
                        assert(t1.to_multiset().count(c) == t0.to_multiset().count(c) + 1);
                    } else {
                        assert(t1.to_multiset().count(d as usize) == t0.to_multiset().count(d as usize));
                    }
                }
            }
            i += 1;
        }
        proof {
            assert(assignments@.take(assignments.len() as int) =~= assignments@);
        }
        steps
    }

    /// Checks a batch whose points are to be labelled; see
    /// [`fitted_batch_check`].
    pub fn plan_prediction(&self, n_rows: usize, n_cols: usize, all_finite: bool) -> (r: Result<
        (),
        IncrementalError,
    >)
        ensures
            r == fitted_batch_check(n_rows, n_cols, all_finite, self.features()),
            r is Ok <==> n_rows > 0 && all_finite && self.features() == Some(n_cols),
            self.features() matches Some(f) ==> (n_rows > 0 && all_finite && n_cols != f ==> r
                == Err::<(), IncrementalError>(
                IncrementalError::DimensionMismatch { expected: f, actual: n_cols },
            )),
    {
        check_batch(n_rows, n_cols, None, all_finite, self.n_features)?;
        if self.n_features.is_none() {
            return Err(IncrementalError::EmptyBatch);
        }
        Ok(())
    }

    /// The number of clusters.
    pub fn n_clusters(&self) -> (r: usize)
        ensures
            r == self.clusters(),
    {
        self.n_clusters
    }

    /// The feature count, fixed when the centroids are seeded.
    pub fn n_features(&self) -> (r: Option<usize>)
        ensures
            r == self.features(),
    {
        self.n_features
    }

    /// The number of points assigned in all.
    pub fn assigned_points(&self) -> (r: u64)
        ensures
            r == self.assigned_total(),
    {
        self.assigned
    }
}

} // verus!
