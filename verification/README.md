# crackle_runtime

Tasks fire (do their work and report named metrics) and are recorded in a
kiln; when the kiln cools, patterns across the recorded tasks are detected:
clusters of nearby tasks, shifts between the first and second half of the
tasks, near-constant metrics and correlated metric pairs, plus
information-theoretic measures (entropy, mutual information, KL and
Jensen-Shannon divergence, transfer and permutation entropy).

The verified library (`src/`) holds everything that is not floating-point
arithmetic, with contracts proved by Verus:

- `profile`: cooling rates, their task minimum, and thermal profiles with
  the detectors each one runs.
- `task`: timestamps and task metadata; `timestamp_order`: their order.
- `error`: the error type and its messages.
- `metrics`: name-keyed metric lists, generic in the value type: lookup,
  the merge in which cooled metrics override fired ones, the distinct names
  across lists, and per-name series and pairs (with the lists each pair
  comes from).
- `kiln`: the kiln's lifecycle (open, cooled, reset), cooling's dispatch of
  detectors, its entries, and the
  per-entry metric lists and half-by-half series the measures read.
- `patterns`: pattern kinds, the greedy grouping behind clustering, and the
  usable series and metric pairs behind the other detectors.
- `information`: factorials (checked too), Lehmer codes of ordinal patterns
  (below `n!` and one per pattern), equal-width histograms from raw bin
  indices, and counts of bin indices, index pairs and distinct index
  triples.
- `clock`: the calls into `std::time` that the library trusts.

`app/` holds the floating-point side: the task trait and outputs, the glaze
decorator, pattern values with their confidences, the detectors' arithmetic,
the information measures, the firing and cooling phases of a kiln of `f64`
metrics, a displayable error, and serde forms of the configuration types.
