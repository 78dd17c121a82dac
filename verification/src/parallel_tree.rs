//! Binary-tree folding engine: task state machines laid out as an implicit
//! binary heap, a pool of payload buffers, and the worker steps that move
//! results from the leaves up to the root.

pub mod block_pool;
pub mod parallel_tree_folder;
pub mod scheduler;
pub mod sha256_chain_folder;
pub mod task;
pub mod worker;

pub use block_pool::{BlockPool, BufHandle, BufId};
pub use scheduler::LeafProducer;
pub use task::{leaf_state, node_state, LeafTask, NodeTask, Task, TaskHeap};
pub use worker::{DummyAccInst, DummyFoldProof, DummyStrictInst, READY_Q_CAP};
