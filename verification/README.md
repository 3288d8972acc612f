# cmvbt

A multiversion B+-tree (MVBT) with its supporting pieces, written in Verus.
Every write commits at a fresh version; a reader picks a snapshot version and
sees the tree as it was then. Full pages split by key or by version, sparse
pages merge with a sibling, and the history of roots is kept in a root index.

Layout:

- `src/` — the verified library.
  - `mv_tree/` — the tree (`MVTreeSt`), its structure modifications
    (`smo.rs`), what a reader and a writer see (`visibility.rs`) and why old
    snapshots keep reading the same (`snapshot.rs`).
  - `mv_query/` — the operations (`dispatch.rs`), the writer's descent
    (`olc_query.rs`) and the operations on random keys (`rand_query.rs`).
  - `mv_page_model/`, `mv_record_model/`, `mv_block/` — leaf and index pages,
    records and their version stamps, blocks.
  - `mv_root/` — root histories: frugal list, skip list, linked list. A
    root history kept in a B+-tree is not offered: `make_standard` answers
    `None` for `RootIndexType::BTree`.
  - `mv_sync/`, `mv_tx_model/`, `mv_crud_model/`, `mv_utils/` — clocks,
    packed counters, transactions, operations and their results, intervals.
  - `mv_buffer/` — a buffer pool of page frames with a CLOCK replacer and an
    epoch table that keeps frames read by active readers from eviction; the
    steps that need the disk are handed back to the caller.
  - `mv_gc/` — what garbage collection keeps track of: active readers and
    dead pages. `enable_gc` on a tree sets a tracker; with updates in place
    switched on, an update rewrites the newest record of its key when no
    active reader can still see it.
  - `mv_test.rs` — workload generation and the binary query-file format.
  - `tree_api.rs` — a small key/value interface over the tree.
- `tests/` — tests on concrete values.
- `app/` — the command-line program: workload commands, the page file of the
  buffer pool, threads and clocks.

Contracts speak of mathematical models: a leaf is a sequence of records, an
index page a sequence of fenced, versioned entries, a read at a version is a
spec function over the blocks reachable from the root of that version.
