# incremental_rs

Out-of-core and incremental model fitting: linear regression (SGD),
one-vs-rest logistic regression, Gaussian naive Bayes (Welford's running
statistics) and mini-batch k-means (Sculley's per-cluster step sizes), fitted
batch by batch, optionally from a Polars frame through a shuffle buffer.

Layout:

- `src/` — the library, verified with Verus: batch validation, the shape and
  step bookkeeping of each estimator, the class registry that sizes the
  one-vs-rest parameters, per-class and per-cluster running counts, the
  choice of the rows that seed the k-means centroids as a function of the
  random draws, the shuffle buffer (which samples a draw takes and which stay,
  as a function of the random permutation), the order in which a streamed
  dataset is handed to an estimator, and which error a Polars read reports.
  The random numbers themselves come from `rand`; what is proved holds for
  every value they take.
- `app/` — the estimators themselves over `ndarray` arrays: the
  floating-point parameter updates and predictions, the monitoring wrapper,
  the learning-rate schedules and the Polars reader. They call into `src/`
  for every decision that does not involve floating-point values.
- `tests/` — tests of the library.
