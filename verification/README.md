# kernel_core

Verified kernels of a revision store, written in Verus: every public function
carries a `requires`/`ensures` contract that Verus proves, and the laws the
kernels promise are stated as proof functions over the same models.

## Modules

- `grounded` — least-fixpoint closure of finite Horn programs with rank/witness
  certificates (`check` accepts exactly the valid ones), incremental
  maintenance under seed/rule updates, structural reconciliation, and the
  bipolar (greatest-support) dual.
- `reachability` — certified reachability over entity graphs, solved through
  the grounded closure and checked by rank and parent.
- `fixpoint` — positive recursive bag evaluation: exact proof-tree
  multiplicities, with productive cycles classified as infinite; `check_positive_bag`
  accepts exactly the certificates that hold the unique bag solution.
- `exact`, `decimal` — exact naturals and integers, and their decimal rendering.
- `digraph` — paths, cycles and cycle-downstream nodes of adjacency lists.
- `identity`, `id_sets` — dense local ids for external entity ids, bit sets
  over them, and bijective id transports (a groupoid: inverse, composition).
- `lens`, `migration` — structural lenses over logical values (GetPut, PutGet,
  PutPut and the complement round trip are proved) and schema-continuous
  migration complement chains.
- `durability`, `manifest`, `frames`, `generation_names`, `retained` — commit
  batching, CRC-32C, the manifest, checkpoint, metadata and prepared-cut file
  framings with their round trips, generation file names, and saturating
  retained-size arithmetic.
- `publication` — a crash model of checkpoint publication and compaction: every
  crash cut leaves a recoverable authority.
- `streaming` — the decisions of a streaming checkpoint: when a job may begin
  and when a finished job may be published, with the manifest it publishes.

## Layout

`src/` is the verified library; `tests/` runs it on concrete values.
