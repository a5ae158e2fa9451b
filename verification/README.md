# git-vdb

A local vector database stored entirely in Git: collections are immutable,
canonical root trees, and collection refs advance by compare-and-swap commits.

The library in `src/` is written in Verus. Every function there carries a
contract that Verus proves, and the properties that span several functions
are stated as public proof functions (`lemma_*`). The command-line program in
`app/` does what Verus does not model: Git object and ref I/O, JSON parsing,
the floating-point work (cosine scores, centroid training, hash projections)
and process plumbing. It hands plain values to the library and acts on what
the library decides.

## Layout

- `src/model.rs`, `src/json.rs`: typed point IDs and their canonical order,
  configuration types, JSON payload values.
- `src/points.rs`: point sets in canonical ID order; mutation batches
  (upsert, delete by ID, delete by filter) and their meaning as maps.
- `src/filter.rs`, `src/pattern.rs`, `src/text.rs`, `src/unicode.rs`: filter
  semantics and validation.
- `src/bytes.rs`, `src/shard.rs`, `src/ids.rs`, `src/vectors.rs`,
  `src/index.rs`, `src/digest.rs`: the binary blob formats of a root, each
  encoder with its decoder and a round-trip law.
- `src/layout.rs`, `src/sample.rs`, `src/meta.rs`: how a point set is laid
  out in shards and in the inverted-file index; root metadata checks.
- `src/reader.rs`, `src/ranking.rs`, `src/order.rs`, `src/lsh.rs`: the
  decisions of a query (mode, probe order, candidate budget, top-k ranking).
- `src/store.rs`, `src/names.rs`, `src/diff.rs`, `src/input.rs`: collection
  names and refs, write plans and their preconditions, pulls, diffs, input
  checks, text documents.
- `src/caos.rs`: source selection and line-aware chunking for the source
  search worker.
- `tests/`: executable tests of the library.
- `app/`: the `git-vdb` command-line program.
