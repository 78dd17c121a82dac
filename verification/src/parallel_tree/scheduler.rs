//! Scheduling decisions of the folding engine: which worker receives a leaf,
//! when the computation is complete, and reading the root's result.

use vstd::prelude::*;

use super::block_pool::BlockPool;
use super::task::{leaf_state, node_state, Task, TaskHeap};
use super::worker::{engine_inv, heap_value, holds_buffer, values_inv};

verus! {

/// Source of the leaf inputs of a computation.
pub struct LeafProducer<L> {
    stream: Vec<L>,
    heap_depth: usize,
}

impl<L> LeafProducer<L> {
    pub closed spec fn spec_stream(&self) -> Seq<L> {
        self.stream@
    }

    pub closed spec fn spec_heap_depth(&self) -> usize {
        self.heap_depth
    }

    pub fn new(stream: Vec<L>, heap_depth: usize) -> (p: Self)
        ensures
            p.spec_stream() == stream@,
            p.spec_heap_depth() == heap_depth,
    {
        LeafProducer { stream, heap_depth }
    }

    /// The leaf inputs, in the order in which they are handed out.
    pub fn into_stream(self) -> (s: Vec<L>)
        ensures
            s@ == self.spec_stream(),
    {
        self.stream
    }
}

/// The worker that receives the leaf `relative_leaf_idx` places after the
/// first leaf: the leaves are cut into `num_workers` contiguous chunks.
pub open spec fn spec_leaf_worker(relative_leaf_idx: int, num_workers: int, num_leaves: int) -> int {
    let w = relative_leaf_idx * num_workers / num_leaves;
    if w < num_workers - 1 {
        w
    } else {
        num_workers - 1
    }
}

/// The leaves are cut into contiguous chunks: every leaf goes to a worker,
/// the first to worker 0, and a later leaf never goes to an earlier worker.
pub proof fn lemma_leaf_workers_contiguous(k1: int, k2: int, num_workers: int, num_leaves: int)
    requires
        0 <= k1 <= k2,
        num_workers >= 1,
        num_leaves >= 1,
    ensures
        0 <= spec_leaf_worker(k1, num_workers, num_leaves) <= spec_leaf_worker(k2, num_workers, num_leaves)
            < num_workers,
        spec_leaf_worker(0, num_workers, num_leaves) == 0,
{
    vstd::arithmetic::mul::lemma_mul_inequality(k1, k2, num_workers);
    vstd::arithmetic::div_mod::lemma_div_is_ordered(k1 * num_workers, k2 * num_workers, num_leaves);
    vstd::arithmetic::mul::lemma_mul_nonnegative(k1, num_workers);
    vstd::arithmetic::div_mod::lemma_div_pos_is_pos(k1 * num_workers, num_leaves);
    assert(0 * num_workers == 0);
}

/// The worker of leaf `k` is the chunk that `k * num_workers` falls in when
/// `[0, num_leaves * num_workers)` is cut into chunks of `num_leaves`, the
/// last worker also taking everything beyond its chunk.
pub proof fn lemma_leaf_worker_chunk(k: int, num_workers: int, num_leaves: int)
    requires
        0 <= k,
        num_workers >= 1,
        num_leaves >= 1,
    ensures
        ({
            let w = spec_leaf_worker(k, num_workers, num_leaves);
            &&& 0 <= w < num_workers
            &&& w * num_leaves <= k * num_workers
            &&& w < num_workers - 1 ==> k * num_workers < (w + 1) * num_leaves
        }),
{
    let x = k * num_workers;
    vstd::arithmetic::mul::lemma_mul_nonnegative(k, num_workers);
    vstd::arithmetic::div_mod::lemma_fundamental_div_mod(x, num_leaves);
    vstd::arithmetic::div_mod::lemma_mod_bound(x, num_leaves);
    let q = x / num_leaves;
    vstd::arithmetic::div_mod::lemma_div_pos_is_pos(x, num_leaves);
    assert(q * num_leaves <= x && x < (q + 1) * num_leaves) by (nonlinear_arith)
        requires
            x == num_leaves * q + x % num_leaves,
            0 <= x % num_leaves < num_leaves,
    ;
    if q >= num_workers - 1 {
        assert((num_workers - 1) * num_leaves <= q * num_leaves) by (nonlinear_arith)
            requires
                q >= num_workers - 1,
                num_leaves >= 1,
        ;
    }
}

/// Which worker queue receives the leaf `relative_leaf_idx` places after the
/// first leaf.
pub fn leaf_worker_index(relative_leaf_idx: usize, num_workers: usize, num_leaves: usize) -> (w: usize)
    requires
        num_workers >= 1,
        num_leaves >= 1,
        relative_leaf_idx * num_workers <= usize::MAX,
    ensures
        w == spec_leaf_worker(relative_leaf_idx as int, num_workers as int, num_leaves as int),
        w < num_workers,
        w * num_leaves <= relative_leaf_idx * num_workers,
        w < num_workers - 1 ==> relative_leaf_idx * num_workers < (w + 1) * num_leaves,
{
    proof {
        lemma_leaf_worker_chunk(relative_leaf_idx as int, num_workers as int, num_leaves as int);
    }
    let w = relative_leaf_idx * num_workers / num_leaves;
    if w < num_workers - 1 {
        w
    } else {
        num_workers - 1
    }
}

/// The queue assignments of the leaf producer for a stream of `count`
/// leaf inputs: the `k`-th input goes to slot `leaf_start + k` and to the
/// queue of worker `spec_leaf_worker(k, ..)`; inputs beyond the number of
/// leaves are dropped.
pub fn leaf_assignments(leaf_start: usize, num_leaves: usize, num_workers: usize, count: usize) -> (a: Vec<
    (usize, usize),
>)
    requires
        num_workers >= 1,
        num_leaves >= 1,
        leaf_start + num_leaves <= usize::MAX,
        (num_leaves - 1) * num_workers <= usize::MAX,
    ensures
        a@.len() == vstd::math::min(count as int, num_leaves as int),
        forall|k: int|
            0 <= k < a@.len() ==> #[trigger] a@[k] == (
                (leaf_start + k) as usize,
                spec_leaf_worker(k, num_workers as int, num_leaves as int) as usize,
            ),
        forall|k: int|
            0 <= k < a@.len() ==> (#[trigger] a@[k]).0 == leaf_start + k && a@[k].1 < num_workers && a@[k].1
                * num_leaves <= k * num_workers && (a@[k].1 < num_workers - 1 ==> k * num_workers < (a@[k].1
                + 1) * num_leaves),
{
    let mut a: Vec<(usize, usize)> = Vec::new();
    let mut next_leaf_idx: usize = leaf_start;
    let mut taken: usize = 0;
    while taken < count && taken < num_leaves
        invariant
            num_workers >= 1,
            num_leaves >= 1,
            leaf_start + num_leaves <= usize::MAX,
            (num_leaves - 1) * num_workers <= usize::MAX,
            taken <= count,
            taken <= num_leaves,
            next_leaf_idx == leaf_start + taken,
            a@.len() == taken,
            forall|k: int|
                0 <= k < taken ==> #[trigger] a@[k] == (
                    (leaf_start + k) as usize,
                    spec_leaf_worker(k, num_workers as int, num_leaves as int) as usize,
                ),
        decreases count - taken,
    {
        let relative_leaf_idx = next_leaf_idx - leaf_start;
        assert(relative_leaf_idx * num_workers <= (num_leaves - 1) * num_workers) by (nonlinear_arith)
            requires
                relative_leaf_idx < num_leaves,
                num_workers >= 1,
        ;
        let worker_idx = leaf_worker_index(relative_leaf_idx, num_workers, num_leaves);
        a.push((next_leaf_idx, worker_idx));
        next_leaf_idx = next_leaf_idx + 1;
        taken = taken + 1;
    }
    assert forall|k: int| 0 <= k < a@.len() implies (#[trigger] a@[k]).0 == leaf_start + k && a@[k].1 < num_workers
        && a@[k].1 * num_leaves <= k * num_workers && (a@[k].1 < num_workers - 1 ==> k * num_workers < (a@[k].1
        + 1) * num_leaves) by {
        lemma_leaf_worker_chunk(k, num_workers as int, num_leaves as int);
    }
    a
}

/// Number of worker threads started for a requested count: at least one.
pub fn worker_count(num_workers: usize) -> (n: usize)
    ensures
        n == if num_workers >= 1 {
            num_workers
        } else {
            1
        },
{
    if num_workers >= 1 {
        num_workers
    } else {
        1
    }
}

/// The task has been taken by its parent.
pub open spec fn is_consumed(t: Task) -> bool {
    match t {
        Task::Leaf(l) => l.state == leaf_state::CONSUMED,
        Task::Node(n) => n.state == node_state::CONSUMED,
    }
}

/// The root is READY and every other task is consumed.
pub open spec fn computation_complete(tasks: Seq<Task>) -> bool {
    &&& tasks.len() > 0
    &&& tasks[0] is Node
    &&& tasks[0].state() == node_state::READY
    &&& forall|k: int| 1 <= k < tasks.len() ==> #[trigger] is_consumed(tasks[k])
}

/// Whether the root is READY and every other task has been consumed.
pub fn is_computation_complete(heap: &TaskHeap) -> (r: bool)
    requires
        heap.wf(),
    ensures
        r == computation_complete(heap@),
        r ==> heap@.len() > 0 && heap@[0] is Node && heap@[0].state() == node_state::READY,
        r ==> forall|k: int|
            1 <= k < heap@.len() ==> match #[trigger] heap@[k] {
                Task::Leaf(l) => l.state == leaf_state::CONSUMED,
                Task::Node(n) => n.state == node_state::CONSUMED,
            },
        !r ==> heap@.len() == 0 || !(heap@[0] is Node) || heap@[0].state() != node_state::READY || exists|k: int|
            1 <= k < heap@.len() && match #[trigger] heap@[k] {
                Task::Leaf(l) => l.state != leaf_state::CONSUMED,
                Task::Node(n) => n.state != node_state::CONSUMED,
            },
{
    let root_ready = match heap.get(0) {
        Some(Task::Node(root_node)) => root_node.get_state() == node_state::READY,
        _ => false,
    };
    if !root_ready {
        return false;
    }
    let mut idx: usize = 1;
    while idx < heap.size()
        invariant
            heap.wf(),
            1 <= idx <= heap@.len(),
            forall|k: int| 1 <= k < idx ==> #[trigger] is_consumed(heap@[k]),
        decreases heap@.len() - idx,
    {
        let consumed = match heap.get(idx).unwrap() {
            Task::Leaf(leaf) => leaf.get_state() == leaf_state::CONSUMED,
            Task::Node(node) => node.get_state() == node_state::CONSUMED,
        };
        if !consumed {
            assert(!is_consumed(heap@[idx as int]));
            return false;
        }
        idx = idx + 1;
    }
    assert forall|k: int| 1 <= k < heap@.len() implies match #[trigger] heap@[k] {
        Task::Leaf(l) => l.state == leaf_state::CONSUMED,
        Task::Node(n) => n.state == node_state::CONSUMED,
    } by {
        assert(is_consumed(heap@[k]));
    }
    true
}

/// The root's result, when the root is READY with a recorded buffer: the
/// value is taken out of the buffer and the buffer goes back to the pool
/// (the handle on it is dropped).  The root stays READY.
pub fn get_root_result<P>(heap: &TaskHeap, pool: &mut BlockPool<P>) -> (r: Option<P>)
    requires
        engine_inv(heap, old(pool)),
    ensures
        final(pool).wf(),
        ({
            let t = heap@;
            let s = old(pool).slots();
            let f = old(pool).free_ids();
            if t.len() > 0 && t[0] is Node && t[0].state() == node_state::READY && t[0].buffer_id() >= 0 {
                &&& r is Some
                &&& Some(r->0) == s[t[0].buffer_id() as int]
                &&& final(pool).slots() == s.update(t[0].buffer_id() as int, None)
                &&& final(pool).free_ids() == f.push(t[0].buffer_id() as u32)
            } else {
                &&& r is None
                &&& final(pool).slots() == s
                &&& final(pool).free_ids() == f
            }
        }),
        forall|conv: spec_fn(int) -> P, fold: spec_fn(P, P) -> P|
            #[trigger] values_inv(heap, old(pool), conv, fold) ==> (r is Some ==> r->0 == heap_value(
                heap,
                0,
                conv,
                fold,
            )),
{
    if let Some(Task::Node(root_node)) = heap.get(0) {
        if let Some(buf_id) = root_node.get_buf_id_if_ready() {
            proof {
                assert(holds_buffer(heap@[0]));
            }
            if let Some(handle) = pool.claim(buf_id) {
                let v = handle.read(pool);
                handle.release(pool);
                return Some(v);
            }
        }
    }
    None
}

} // verus!
