# fraud-api

A fraud-scoring service: a transaction is turned into 14 normalized
features and scored by the share of frauds among its five nearest reference
transactions, found in a vantage-point tree.

- `src/` is the verified library (Verus):
  - `timestamp` parses ISO 8601 timestamps (hour, weekday, minutes since
    an epoch) and proves the day count and Sakamoto's weekday agree;
  - `knn` is the five-slot max-heap of nearest neighbours;
  - `vptree` builds the tree (shuffle, median split, explicit work stack);
  - `index` is the binary index layout, its reader and its writer;
  - `search` is the nearest-neighbour search over a loaded index;
  - `response` renders the JSON answer; `vectorize` holds the integer
    features (merchant category risk, known merchant).
  Distances and the pruning test are floating point, so the tree builder
  and the search take them as functions; keys are bit patterns of
  non-negative `f32` values (or NaN), compared as the floats compare.
- `app/` is the executable: the HTTP server (hyper, tokio), the float
  feature arithmetic and distances, and the offline `build-index`
  subcommand (flate2, serde_json).
- `tests/` runs the library on concrete values.
