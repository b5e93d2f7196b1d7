# not_so_turbo_puffer

A vector database that keeps all of its data on S3-compatible object storage.
Writes go to a write-ahead log; a background compactor folds the log into a
vector index and an inverted index; queries merge both, newest write wins.

## Layout

- `src/` — the verified library (Verus). It holds the logic: log replay,
  the merge of index and log results, the inverted index and its filters,
  the batching of writes, the compactor's bookkeeping, the metadata updates
  and their conflict merge, namespace validation, the store's failure
  classification and round-trip counter, the SPFresh index's delta
  bookkeeping, and the HTTP API's validation and conversions. The
  `*_laws.rs` modules state and prove properties that span operations.
- `tests/` — tests of the library on concrete values.
- `app/` — the server program: configuration loading, object storage
  (AWS SDK), the tokio runtime for the batcher and the compactor, the
  floating-point parts of the vector index, the stored formats (rkyv, JSON)
  and the HTTP routes (axum).
