# nova_tree

A parallel binary-tree folding engine and the witness preparation of a
radix-sort shuffle, written in Verus with their contracts proved.

## Layout

- `src/parallel_tree/` — the folding engine.
  - `task.rs`: the state machines of leaf and inner tasks, and the task heap
    (an implicit complete binary tree of `2^k` leaves).
  - `block_pool.rs`: a pool of payload buffers with a FIFO free list
    (`crossbeam_queue::SegQueue`).
  - `worker.rs`: the worker steps — starting a leaf with a buffer and
    publishing its converted input, taking the two ready children of a node,
    and publishing their fold — with the engine
    invariant they keep and the value invariant: every ready task's buffer
    holds the fold of its subtree. For an associative fold the root is the
    left-to-right fold of the leaves.
  - `scheduler.rs`: which worker receives which leaf, completion, and the
    root's result.
  - `parallel_tree_folder.rs`, `sha256_chain_folder.rs`: configuration of a
    run, its outcome, and the checks on a chain's length.
- `src/shuffling/rs_shuffle/`: one level of the radix-sort shuffle (a stable
  split of every bucket by a bit), whole-shuffle witnesses, and the bit
  extraction of split bits; a level is proved to be a permutation of its
  input that keeps buckets contiguous.
- `src/ccs.rs`, `src/folding/`: the error types of the constraint-system and
  folding layers, and the folding transcripts (`merlin`), specified by the
  log of labelled messages they have absorbed.
- `app/`: the threads around the engine — one worker per core pinned with
  `core_affinity`, bounded queues from `crossbeam_queue`, a leaf producer,
  and the polling loop of a run — and the user-implemented `FoldReducer`.
- `tests/`: tests of the library, including single-threaded runs of the
  engine.

## What is not here

The folding protocol itself is not part of this crate: the CCS shapes,
instances and witnesses, linearization, the LCCS/ACCS/NIMFS folding proofs,
challenge generation, the PCD tree, the shuffle circuits, ElGamal encryption
and the SHA-256 step circuit. All of it computes over the field and curve
types of the arkworks crates, through generic bounds on their traits
(`PrimeField`, `CurveGroup`, `CryptographicSponge`, constraint synthesis),
and rests on modules that this code base does not contain (the sparse
matrices, commitment and Poseidon providers, R1CS shapes, polynomial
commitments, the fold reducer and the SHA-256 circuit). Only the error types
of that layer are kept, and the checks that do not depend on it: the
length check of a SHA-256 chain and the witness tables of the shuffle, which
take the split bits as input. Deriving those bits from a seed needs the
Poseidon sponge and is left out with the rest.
