# bhtsne

t-SNE embeddings from precomputed affinity graphs, written in Verus.

- `src/affinities/`: the `Affinities` CSR graph and its constructors (`from_csr`,
  `from_csr_unchecked`, `from_edges`, `from_weighted_edges`), the `AffinitiesBuilder` that
  pools several views (over all samples or over subsets) into one symmetric graph, the
  symmetrization and normalization steps, and the breadth-first hop-distance neighbor tables
  (`shortest_path_neighbors`).
- `src/fit/`: the type-state fit builders (`TsneBuilder`, `TsneReady`, `ExactBuilder`) and the
  exact t-SNE optimization with its gradient-descent steps.
- `src/demo.rs`: the messages and the reply of the web demo's echo worker.
- `src/weight.rs`: the arithmetic on weights, one `num_traits`/std operation per function.
- `app/`: the web demo's worker entry point (gloo-worker registration, serde message types).

What is proved: CSR layout and canonical form of every graph built; the exact row sets (which
samples each row joins) of the edge constructors, of `from_csr` and of the uniform pool; for the
agreement pool, that every row joins only pairs some view offers, that rows where fewer than
three views are present keep every pair those views offer, and that uncovered samples keep
empty rows; symmetry; the error each constructor reports and when; the properties of the
breadth-first search (hop distances, order by distance, nearest-first truncation); the epoch
callback protocol of the fit; and that the fit keeps every buffer in shape. What is not: the
floating-point values of weights, gradients and embeddings.

Not here:

- The Barnes-Hut and FIt-SNE fits (`TsneReady::bhtsne`, `TsneReady::fit_sne`,
  `BhtsneBuilder`, `FittedBhtsne`) and spectral initialization
  (`TsneBuilder::spectral_init`, `spectral_init_with`): their tree, repulsion, interpolation
  and eigensolver code is not part of this crate.
- The perplexity-calibrated constructors `from_metric`, `from_neighbors`, `from_l2`,
  `from_cosine` and `from_shortest_path`, and the PCA reduction behind `from_l2` and
  `from_cosine`: they are floating-point searches over code that is not part of this crate.
  `shortest_path_neighbors` gives the hop-distance neighbor table that `from_shortest_path`
  calibrates.
- The optional CSV reading and writing (`load_csv`, `write_csv`).
- The demo's browser UI.
