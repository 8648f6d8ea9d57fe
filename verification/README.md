# htree

An in-memory persistent B-tree keyed by byte strings, with snapshots, differences between
snapshots and ordered cursors, written in Verus and proved against its contracts.

## Layout

- `src/` is the verified library.
  - `tree/` holds the B-tree: nodes (`memnode`, `noderef`, `nodeptr`, `bucketref`), the
    model the proofs speak of (`flat`: a tree flattened into its buckets in key order;
    `freeze`: what freezing a tree does to its buckets), insertion and lookup (`btree`),
    the stack a cursor walks with (`nodestack`), and the maps built on top (`persistent`:
    `PersistentBTree`, its snapshots, differences and cursors).
  - `data/` holds byte containers (shared slices, shared bytes, slice data), the order on
    byte strings, key ranges, and readers and writers over byte slices.
  - `counter` holds the wrap-around transaction counter and its order on a circle.
  - `bench` times benchmarks; `testlib` holds a one-slot key-value sink.
- `tests/` runs the library on concrete values.
- `app/` is the benchmark driver and what the library does not hold: futures, arena
  allocators, random inputs, JSON reading and floating-point output.

## What is proved

Among others: a lookup after an insertion gives the inserted value and leaves other keys
alone; a snapshot does not change when the tree is written later; a difference since a
counter holds exactly what was written after it; cursors give entries in key order; every
operation keeps the tree well formed, and the tree's own check accepts every tree the
library builds.
