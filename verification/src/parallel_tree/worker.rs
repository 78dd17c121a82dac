//! Worker steps of the folding engine.
//!
//! A worker turns leaf inputs into results and folds the results of two
//! ready children into their parent.  Each step runs under exclusive access
//! to the task heap and the buffer pool; the conversion of a leaf input and
//! the fold of two children are computed by the caller and handed in.

use vstd::prelude::*;

use super::block_pool::{ids_distinct, lemma_free_list_exclusive, BlockPool, BufHandle, BufId};
use super::task::{
    leaf_state, node_state, parent_of, LeafTask, NodeTask, Task, TaskHeap,
};
use crate::text::{decimal, join, u32_text, with_index};
use vstd::arithmetic::power2::{
    lemma2_to64, lemma_pow2_pos, lemma_pow2_strictly_increases, lemma_pow2_unfold, pow2,
};

verus! {

/// Capacity of a worker's queue of ready parents.
pub const READY_Q_CAP: usize = 512;

/// Placeholder leaf input type.
pub struct DummyStrictInst;

/// Placeholder accumulator type.
#[derive(Clone, Copy)]
pub struct DummyAccInst;

/// Placeholder fold proof type.
pub struct DummyFoldProof;

/// The types that a folding computation runs on: the leaf inputs, the
/// inner results, the fold proofs and the error of a fold.
pub trait WorkerParams {
    type LeafInput: Send + Sync + Clone + 'static;

    type Inner: Send + Sync + 'static;

    type Proof: Send + Sync + 'static;

    type Error: Send + Sync + 'static;
}

/// Failure of a worker step.
#[derive(Debug)]
pub enum WorkerError {
    TaskNotFound(usize),
    WrongTaskType(usize),
    ProcessingFailed(usize, String),
    BufferClaimFailed(usize),
    StateTransitionFailed(usize, String),
    FoldOperationFailed(usize, String),
}

impl WorkerError {
    /// The text of the error.
    pub open spec fn text(&self) -> Seq<char> {
        match self {
            WorkerError::TaskNotFound(i) => "Task not found at index "@ + decimal(*i as nat),
            WorkerError::WrongTaskType(i) => "Wrong task type at index "@ + decimal(*i as nat),
            WorkerError::ProcessingFailed(i, m) => "Processing failed for task "@ + decimal(*i as nat)
                + ": "@ + m@,
            WorkerError::BufferClaimFailed(i) => "Buffer claim failed for task "@ + decimal(
                *i as nat,
            ),
            WorkerError::StateTransitionFailed(i, m) => "State transition failed for task "@
                + decimal(*i as nat) + ": "@ + m@,
            WorkerError::FoldOperationFailed(i, m) => "Fold operation failed for task "@ + decimal(
                *i as nat,
            ) + ": "@ + m@,
        }
    }

    /// The text of the error.
    pub fn message(&self) -> (s: String)
        ensures
            s@ == self.text(),
    {
        match self {
            WorkerError::TaskNotFound(i) => with_index("Task not found at index ", *i),
            WorkerError::WrongTaskType(i) => with_index("Wrong task type at index ", *i),
            WorkerError::ProcessingFailed(i, m) => {
                let head = with_index("Processing failed for task ", *i);
                let head = join(head.as_str(), ": ");
                join(head.as_str(), m.as_str())
            },
            WorkerError::BufferClaimFailed(i) => with_index("Buffer claim failed for task ", *i),
            WorkerError::StateTransitionFailed(i, m) => {
                let head = with_index("State transition failed for task ", *i);
                let head = join(head.as_str(), ": ");
                join(head.as_str(), m.as_str())
            },
            WorkerError::FoldOperationFailed(i, m) => {
                let head = with_index("Fold operation failed for task ", *i);
                let head = join(head.as_str(), ": ");
                join(head.as_str(), m.as_str())
            },
        }
    }
}

/// Outcome of a successful leaf step.
#[derive(Debug)]
pub enum LeafProgress<P> {
    /// The leaf is READY.  `Some(p)` names its parent when this leaf was the
    /// second child to report, so that the parent can now be folded.
    Ready(Option<usize>),
    /// Every buffer is in use: nothing changed, and the conversion is handed
    /// back for a later try.
    NoBuffer(Result<P, String>),
}

// ---------------------------------------------------------------------------
// The engine invariant
// ---------------------------------------------------------------------------

/// The task is in a state in which it owns the buffer it records.
pub open spec fn holds_buffer(t: Task) -> bool {
    &&& t.buffer_id() >= 0
    &&& match t {
        Task::Leaf(l) => l.state == leaf_state::PROCESSING || l.state == leaf_state::READY,
        Task::Node(n) => n.state == node_state::PROCESSING || n.state == node_state::READY,
    }
}

/// Joint invariant of the heap and the pool: the free list has no repeated
/// id; a buffer held by a task names a slot, is not free, and is held by no
/// other task; and a ready task's buffer holds a value.
pub open spec fn engine_inv<P>(heap: &TaskHeap, pool: &BlockPool<P>) -> bool {
    &&& heap.wf()
    &&& pool.wf()
    &&& ids_distinct(pool.free_ids())
    &&& forall|i: int|
        0 <= i < heap@.len() && #[trigger] holds_buffer(heap@[i]) ==> heap@[i].buffer_id()
            < pool.slots().len() && !pool.free_ids().contains(heap@[i].buffer_id() as u32)
    &&& forall|i: int, j: int|
        0 <= i < heap@.len() && 0 <= j < heap@.len() && i != j && #[trigger] holds_buffer(heap@[i])
            && #[trigger] holds_buffer(heap@[j]) ==> heap@[i].buffer_id() != heap@[j].buffer_id()
    &&& forall|i: int|
        0 <= i < heap@.len() && #[trigger] holds_buffer(heap@[i]) && heap@[i].spec_is_ready()
            ==> pool.slots()[heap@[i].buffer_id() as int] is Some
}

/// The value that the subtree rooted at slot `i` of a heap of `n` tasks,
/// whose leaves start at `leaf_start`, folds to: a leaf converts its input
/// with `conv`, and an inner node folds its children's values with `fold`.
pub open spec fn subtree_value<P>(
    n: int,
    leaf_start: int,
    i: int,
    conv: spec_fn(int) -> P,
    fold: spec_fn(P, P) -> P,
) -> P
    decreases n - i,
{
    if 0 <= i && i < leaf_start && 2 * i + 2 < n {
        fold(
            subtree_value(n, leaf_start, 2 * i + 1, conv, fold),
            subtree_value(n, leaf_start, 2 * i + 2, conv, fold),
        )
    } else {
        conv(i)
    }
}

/// The value that the subtree rooted at slot `i` of `heap` folds to.
pub open spec fn heap_value<P>(heap: &TaskHeap, i: int, conv: spec_fn(int) -> P, fold: spec_fn(P, P) -> P) -> P {
    subtree_value(heap@.len() as int, heap.spec_leaf_start(), i, conv, fold)
}

/// `fold` is associative.
pub open spec fn associative<P>(fold: spec_fn(P, P) -> P) -> bool {
    forall|a: P, b: P, c: P| #[trigger] fold(fold(a, b), c) == fold(a, fold(b, c))
}

/// The left-to-right fold of the values of the `len` slots from `start`.
pub open spec fn ordered_fold<P>(conv: spec_fn(int) -> P, fold: spec_fn(P, P) -> P, start: int, len: nat) -> P
    decreases len,
{
    if len <= 1 {
        conv(start)
    } else {
        fold(ordered_fold(conv, fold, start, (len - 1) as nat), conv(start + len - 1))
    }
}

/// An ordered fold of `m + j` slots folds the first `m` and the last `j`.
proof fn lemma_ordered_fold_split<P>(conv: spec_fn(int) -> P, fold: spec_fn(P, P) -> P, a: int, m: nat, j: nat)
    requires
        m >= 1,
        j >= 1,
        associative(fold),
    ensures
        ordered_fold(conv, fold, a, m + j) == fold(
            ordered_fold(conv, fold, a, m),
            ordered_fold(conv, fold, a + m, j),
        ),
    decreases j,
{
    if j > 1 {
        lemma_ordered_fold_split(conv, fold, a, m, (j - 1) as nat);
        let s = ordered_fold(conv, fold, a, m);
        let t = ordered_fold(conv, fold, a + m, (j - 1) as nat);
        let c = conv(a + m + j - 1);
        assert(fold(fold(s, t), c) == fold(s, fold(t, c)));
        assert(ordered_fold(conv, fold, a, m + j) == fold(
            ordered_fold(conv, fold, a, (m + j - 1) as nat),
            conv(a + (m + j) - 1),
        ));
    }
}

/// In a heap of `2^k` leaves, the node `i` of height `h` folds the `2^h`
/// leaves under it, from slot `(i + 1) * 2^h - 1` on, left to right.
proof fn lemma_subtree_is_ordered_fold<P>(
    k: nat,
    h: nat,
    i: int,
    conv: spec_fn(int) -> P,
    fold: spec_fn(P, P) -> P,
)
    requires
        h <= k,
        pow2((k - h) as nat) - 1 <= i < pow2((k - h + 1) as nat) - 1,
        associative(fold),
    ensures
        subtree_value(2 * pow2(k) - 1, pow2(k) - 1, i, conv, fold) == ordered_fold(
            conv,
            fold,
            (i + 1) * pow2(h) - 1,
            pow2(h),
        ),
    decreases h,
{
    let n = 2 * pow2(k) - 1;
    let ls = pow2(k) - 1;
    let p = pow2((k - h) as nat);
    lemma_pow2_unfold((k - h + 1) as nat);
    lemma_pow2_pos((k - h) as nat);
    if h == 0 {
        lemma2_to64();
        assert(i >= ls);
        assert((i + 1) * pow2(h) - 1 == i);
    } else {
        let q = pow2((h - 1) as nat);
        lemma_pow2_unfold(h);
        lemma_pow2_pos((h - 1) as nat);
        lemma_pow2_unfold((k - h + 2) as nat);
        if k - h + 1 < k {
            lemma_pow2_strictly_increases((k - h + 1) as nat, k);
        }
        assert(2 * p <= pow2(k));
        assert(0 <= i < ls && 2 * i + 2 < n);
        lemma_subtree_is_ordered_fold(k, (h - 1) as nat, 2 * i + 1, conv, fold);
        lemma_subtree_is_ordered_fold(k, (h - 1) as nat, 2 * i + 2, conv, fold);
        let a = (i + 1) * pow2(h) - 1;
        assert((2 * i + 1 + 1) * q - 1 == a && (2 * i + 2 + 1) * q - 1 == a + q) by (nonlinear_arith)
            requires
                pow2(h) == 2 * q,
                a == (i + 1) * pow2(h) - 1,
        ;
        lemma_ordered_fold_split(conv, fold, a, q, q);
        assert(q + q == pow2(h));
    }
}

/// For an associative fold, the value that a heap of `2^k` leaves folds to
/// at its root is the left-to-right fold of its leaves' values: the shape of
/// the tree, and so the order in which workers fold, does not show in the
/// result.
pub proof fn lemma_root_is_ordered_fold<P>(
    heap: &TaskHeap,
    k: nat,
    conv: spec_fn(int) -> P,
    fold: spec_fn(P, P) -> P,
)
    requires
        heap.wf(),
        heap.spec_num_leaves() == pow2(k),
        associative(fold),
    ensures
        heap_value(heap, 0, conv, fold) == ordered_fold(
            conv,
            fold,
            heap.spec_leaf_start(),
            heap.spec_num_leaves(),
        ),
{
    lemma2_to64();
    assert((k - k) as nat == 0 && (k - k + 1) as nat == 1);
    lemma_subtree_is_ordered_fold(k, k, 0, conv, fold);
}

/// Every ready task's buffer holds the value its subtree folds to.
pub open spec fn values_inv<P>(
    heap: &TaskHeap,
    pool: &BlockPool<P>,
    conv: spec_fn(int) -> P,
    fold: spec_fn(P, P) -> P,
) -> bool {
    forall|i: int|
        0 <= i < heap@.len() && #[trigger] holds_buffer(heap@[i]) && heap@[i].spec_is_ready()
            ==> pool.slots()[heap@[i].buffer_id() as int] == Some(heap_value(heap, i, conv, fold))
}

/// No task holds buffer `b`.
pub open spec fn unheld(tasks: Seq<Task>, b: BufId) -> bool {
    forall|j: int| 0 <= j < tasks.len() && #[trigger] holds_buffer(tasks[j]) ==> tasks[j].buffer_id() != b
}

/// A leaf with the given state and recorded buffer.
pub open spec fn leaf_with(state: u32, buffer_id: i64) -> Task {
    Task::Leaf(LeafTask { buffer_id, state })
}

/// A node with the given state and recorded buffer.
pub open spec fn node_with(state: u32, buffer_id: i64) -> Task {
    Task::Node(NodeTask { buffer_id, state })
}

/// The node after one of its children reports READY.
pub open spec fn notified(n: NodeTask) -> NodeTask {
    NodeTask {
        buffer_id: n.buffer_id,
        state: if n.state == node_state::NOT_STARTED {
            node_state::WAITING_ONE_CHILD
        } else if n.state == node_state::WAITING_ONE_CHILD {
            node_state::WAITING_BOTH_CHILDREN
        } else {
            n.state
        },
    }
}

/// Of the reports of two children to a node that no child has reported to,
/// the first leaves the node waiting for the other and does not complete
/// the pair, the second completes it, and any further report changes
/// nothing.
pub proof fn lemma_two_reports_complete_pair(n: NodeTask)
    requires
        n.state == node_state::NOT_STARTED,
    ensures
        n.state != node_state::WAITING_ONE_CHILD,
        notified(n).state == node_state::WAITING_ONE_CHILD,
        notified(notified(n)).state == node_state::WAITING_BOTH_CHILDREN,
        notified(notified(notified(n))) == notified(notified(n)),
        notified(notified(n)).buffer_id == n.buffer_id,
{
}

/// The tasks after the task in slot `child` reports READY to its parent.
pub open spec fn report_to_parent(tasks: Seq<Task>, child: int) -> Seq<Task> {
    match parent_of(child) {
        Some(p) => match tasks[p] {
            Task::Node(n) => tasks.update(p, Task::Node(notified(n))),
            Task::Leaf(_) => tasks,
        },
        None => tasks,
    }
}

/// The parent of `child` when its report completes the parent's pair.
pub open spec fn completed_parent(tasks: Seq<Task>, child: int) -> Option<usize> {
    match parent_of(child) {
        Some(p) => match tasks[p] {
            Task::Node(n) => if n.state == node_state::WAITING_ONE_CHILD {
                Some(p as usize)
            } else {
                None
            },
            Task::Leaf(_) => None,
        },
        None => None,
    }
}

/// A task whose result is published and can be taken by its parent.
pub open spec fn claimable(t: Task) -> bool {
    t.spec_is_ready() && t.buffer_id() >= 0
}

/// The task after its parent starts consuming it.
pub open spec fn consuming(t: Task) -> Task {
    match t {
        Task::Leaf(l) => leaf_with(leaf_state::BEING_CONSUMED, l.buffer_id),
        Task::Node(n) => node_with(node_state::BEING_CONSUMED, n.buffer_id),
    }
}

/// The task after an attempt to mark it consumed, with its buffer id
/// cleared.
pub open spec fn consumed_cleared(t: Task) -> Task {
    match t {
        Task::Leaf(l) => leaf_with(
            if l.state == leaf_state::BEING_CONSUMED {
                leaf_state::CONSUMED
            } else {
                l.state
            },
            -1i64,
        ),
        Task::Node(n) => node_with(
            if n.state == node_state::BEING_CONSUMED {
                node_state::CONSUMED
            } else {
                n.state
            },
            -1i64,
        ),
    }
}

/// A heap of fresh tasks with a pool whose free list repeats no id
/// satisfies the engine invariant, and no task holds a value yet.
pub proof fn lemma_fresh_engine<P>(heap: &TaskHeap, pool: &BlockPool<P>)
    requires
        heap.wf(),
        pool.wf(),
        ids_distinct(pool.free_ids()),
        forall|i: int| 0 <= i < heap@.len() ==> #[trigger] heap@[i].buffer_id() == -1,
    ensures
        engine_inv(heap, pool),
        forall|conv: spec_fn(int) -> P, fold: spec_fn(P, P) -> P| #[trigger] values_inv(heap, pool, conv, fold),
{
}

// ---------------------------------------------------------------------------
// Helpers
// ---------------------------------------------------------------------------

/// Reports a READY child to its parent.
fn notify_parent(heap: &mut TaskHeap, child: usize) -> (r: Option<usize>)
    requires
        old(heap).wf(),
        child < old(heap)@.len(),
    ensures
        final(heap).wf(),
        final(heap).spec_num_leaves() == old(heap).spec_num_leaves(),
        final(heap)@ == report_to_parent(old(heap)@, child as int),
        r == completed_parent(old(heap)@, child as int),
{
    match TaskHeap::parent(child) {
        Some(p) => {
            let t = *heap.get(p).unwrap();
            match t {
                Task::Node(n) => {
                    let mut n = n;
                    let both = n.notify_child_ready();
                    heap.set(p, Task::Node(n));
                    if both {
                        Some(p)
                    } else {
                        None
                    }
                },
                Task::Leaf(_) => None,
            }
        },
        None => None,
    }
}

/// Marks the task in slot `idx` consumed when it is being consumed.
fn set_consumed_task(heap: &mut TaskHeap, idx: usize)
    requires
        old(heap).wf(),
    ensures
        final(heap).wf(),
        final(heap).spec_num_leaves() == old(heap).spec_num_leaves(),
        final(heap)@ == if idx < old(heap)@.len() {
            old(heap)@.update(
                idx as int,
                match old(heap)@[idx as int] {
                    Task::Leaf(l) => leaf_with(
                        if l.state == leaf_state::BEING_CONSUMED {
                            leaf_state::CONSUMED
                        } else {
                            l.state
                        },
                        l.buffer_id,
                    ),
                    Task::Node(n) => node_with(
                        if n.state == node_state::BEING_CONSUMED {
                            node_state::CONSUMED
                        } else {
                            n.state
                        },
                        n.buffer_id,
                    ),
                },
            )
        } else {
            old(heap)@
        },
{
    if idx < heap.size() {
        let t = *heap.get(idx).unwrap();
        match t {
            Task::Leaf(l) => {
                let mut l = l;
                l.try_set_consumed();
                heap.set(idx, Task::Leaf(l));
            },
            Task::Node(n) => {
                let mut n = n;
                n.try_set_consumed();
                heap.set(idx, Task::Node(n));
            },
        }
    }
}

/// Records "no buffer" in the task of slot `idx`.
fn clear_buffer_id(heap: &mut TaskHeap, idx: usize)
    requires
        old(heap).wf(),
        idx < old(heap)@.len(),
    ensures
        final(heap).wf(),
        final(heap).spec_num_leaves() == old(heap).spec_num_leaves(),
        final(heap)@ == old(heap)@.update(
            idx as int,
            match old(heap)@[idx as int] {
                Task::Leaf(l) => leaf_with(l.state, -1i64),
                Task::Node(n) => node_with(n.state, -1i64),
            },
        ),
{
    let t = *heap.get(idx).unwrap();
    match t {
        Task::Leaf(l) => {
            let mut l = l;
            l.buffer_id = -1;
            heap.set(idx, Task::Leaf(l));
        },
        Task::Node(n) => {
            let mut n = n;
            n.buffer_id = -1;
            heap.set(idx, Task::Node(n));
        },
    }
}

// ---------------------------------------------------------------------------
// Leaf step
// ---------------------------------------------------------------------------

/// Outcome of starting a leaf.
#[derive(Debug, Clone, Copy, PartialEq, Eq, Structural)]
pub enum LeafStart {
    /// The leaf is PROCESSING and holds this buffer.
    Started(BufId),
    /// Every buffer is in use: nothing changed.
    NoBuffer,
}

/// First half of the leaf step: takes the first free buffer and moves the
/// leaf in slot `leaf_idx` from NOT_STARTED to PROCESSING with it.  When no
/// buffer is free nothing changes; when the leaf refuses to start it stays as
/// it was and the buffer goes back to the pool.
pub fn start_leaf<P>(heap: &mut TaskHeap, pool: &mut BlockPool<P>, leaf_idx: usize) -> (r: Result<
    LeafStart,
    WorkerError,
>)
    requires
        engine_inv(old(heap), old(pool)),
    ensures
        engine_inv(final(heap), final(pool)),
        final(heap).spec_num_leaves() == old(heap).spec_num_leaves(),
        ({
            let t = old(heap)@;
            let s = old(pool).slots();
            let f = old(pool).free_ids();
            let i = leaf_idx as int;
            if i >= t.len() {
                &&& r matches Err(WorkerError::TaskNotFound(j)) && j == leaf_idx
                &&& final(heap)@ == t && final(pool).slots() == s && final(pool).free_ids() == f
            } else if t[i] is Node {
                &&& r matches Err(WorkerError::WrongTaskType(j)) && j == leaf_idx
                &&& final(heap)@ == t && final(pool).slots() == s && final(pool).free_ids() == f
            } else if f.len() == 0 {
                &&& r == Ok::<LeafStart, WorkerError>(LeafStart::NoBuffer)
                &&& final(heap)@ == t && final(pool).slots() == s && final(pool).free_ids() == f
            } else if t[i].state() != leaf_state::NOT_STARTED {
                &&& r matches Err(WorkerError::ProcessingFailed(j, m)) && j == leaf_idx && m@
                    == "Failed to start processing"@
                &&& final(heap)@ == t
                &&& final(pool).slots() == s.update(f[0] as int, None)
                &&& final(pool).free_ids() == f.drop_first().push(f[0])
            } else {
                &&& r == Ok::<LeafStart, WorkerError>(LeafStart::Started(f[0]))
                &&& final(heap)@ == t.update(i, leaf_with(leaf_state::PROCESSING, f[0] as i64))
                &&& final(pool).slots() == s
                &&& final(pool).free_ids() == f.drop_first()
            }
        }),
        forall|conv: spec_fn(int) -> P, fold: spec_fn(P, P) -> P|
            values_inv(old(heap), old(pool), conv, fold) ==> #[trigger] values_inv(
                final(heap),
                final(pool),
                conv,
                fold,
            ),
{
    let ghost t = heap@;
    let ghost s = pool.slots();
    let ghost f = pool.free_ids();
    let task = match heap.get(leaf_idx) {
        Some(task) => *task,
        None => {
            return Err(WorkerError::TaskNotFound(leaf_idx));
        },
    };
    let mut leaf = match task {
        Task::Leaf(leaf) => leaf,
        Task::Node(_) => {
            return Err(WorkerError::WrongTaskType(leaf_idx));
        },
    };
    let handle = match pool.allocate() {
        Some(h) => h,
        None => {
            return Ok(LeafStart::NoBuffer);
        },
    };
    let buf_id = handle.into_id();
    proof {
        assert(f.contains(buf_id));
        assert(!f.drop_first().contains(buf_id)) by {
            if f.drop_first().contains(buf_id) {
                let w = choose|w: int| 0 <= w < f.drop_first().len() && f.drop_first()[w] == buf_id;
                assert(f[w + 1] == f[0]);
            }
        }
        assert(unheld(t, buf_id));
    }
    if !leaf.try_start_processing(buf_id) {
        let release_handle = pool.claim(buf_id).unwrap();
        release_handle.release(pool);
        proof {
            lemma_inv_after_release(old(heap)@, s, f, heap@, pool.slots(), pool.free_ids(), leaf_idx as int);
        }
        return Err(WorkerError::ProcessingFailed(leaf_idx, "Failed to start processing".to_string()));
    }
    heap.set(leaf_idx, Task::Leaf(leaf));
    proof {
        assert forall|k: int| 0 <= k < pool.free_ids().len() implies pool.free_ids()[k] == f[k + 1] by {}
    }
    Ok(LeafStart::Started(buf_id))
}

/// Second half of the leaf step, for the leaf in slot `leaf_idx` that
/// `start_leaf` started with buffer `buf_id`.  `converted` is the conversion
/// of the leaf input into an accumulator, or the text of the conversion
/// error.  On success the accumulator is stored, the leaf is marked READY
/// and reported to its parent, and the parent is returned when this report
/// completed its pair of children.  On a conversion error the leaf goes back
/// to NOT_STARTED and its buffer back to the pool.
pub fn finish_leaf<P>(
    heap: &mut TaskHeap,
    pool: &mut BlockPool<P>,
    leaf_idx: usize,
    buf_id: BufId,
    converted: Result<P, String>,
) -> (r: Result<Option<usize>, WorkerError>)
    requires
        engine_inv(old(heap), old(pool)),
        leaf_idx < old(heap)@.len(),
        old(heap)@[leaf_idx as int] == leaf_with(leaf_state::PROCESSING, buf_id as i64),
    ensures
        engine_inv(final(heap), final(pool)),
        final(heap).spec_num_leaves() == old(heap).spec_num_leaves(),
        ({
            let t = old(heap)@;
            let s = old(pool).slots();
            let f = old(pool).free_ids();
            let i = leaf_idx as int;
            match converted {
                Err(e) => {
                    &&& r matches Err(WorkerError::ProcessingFailed(j, m)) && j == leaf_idx && m@
                        == "strict_to_acc failed: "@ + e@
                    &&& final(heap)@ == t.update(i, leaf_with(leaf_state::NOT_STARTED, -1i64))
                    &&& final(pool).slots() == s.update(buf_id as int, None)
                    &&& final(pool).free_ids() == f.push(buf_id)
                },
                Ok(acc) => {
                    let t1 = t.update(i, leaf_with(leaf_state::READY, buf_id as i64));
                    &&& r == Ok::<Option<usize>, WorkerError>(completed_parent(t1, i))
                    &&& final(heap)@ == report_to_parent(t1, i)
                    &&& final(pool).slots() == s.update(buf_id as int, Some(acc))
                    &&& final(pool).free_ids() == f
                },
            }
        }),
        forall|conv: spec_fn(int) -> P, fold: spec_fn(P, P) -> P|
            values_inv(old(heap), old(pool), conv, fold) && (converted is Ok ==> converted->Ok_0
                == conv(leaf_idx as int)) ==> #[trigger] values_inv(final(heap), final(pool), conv, fold),
{
    let ghost t = heap@;
    let ghost s = pool.slots();
    let ghost f = pool.free_ids();
    let ghost i = leaf_idx as int;
    proof {
        assert(holds_buffer(t[i]));
        assert(unheld(t.update(i, leaf_with(leaf_state::NOT_STARTED, -1i64)), buf_id));
    }
    let mut leaf = LeafTask { buffer_id: buf_id as i64, state: leaf_state::PROCESSING };
    match converted {
        Err(e) => {
            leaf.state = leaf_state::NOT_STARTED;
            leaf.buffer_id = -1;
            heap.set(leaf_idx, Task::Leaf(leaf));
            let release_handle = pool.claim(buf_id).unwrap();
            release_handle.release(pool);
            proof {
                lemma_free_list_exclusive(f, buf_id);
                assert forall|k: int| 0 <= k < heap@.len() && #[trigger] holds_buffer(heap@[k]) implies heap@[k].buffer_id()
                    < pool.slots().len() && !pool.free_ids().contains(heap@[k].buffer_id() as u32) by {
                    assert(heap@[k] == t[k]);
                    if pool.free_ids().contains(heap@[k].buffer_id() as u32) {
                        let w = choose|w: int| 0 <= w < pool.free_ids().len() && pool.free_ids()[w] == heap@[k].buffer_id() as u32;
                        if w < f.len() {
                            assert(f.contains(f[w]));
                        }
                    }
                }
                assert forall|k: int| 0 <= k < pool.free_ids().len() implies #[trigger] pool.free_ids()[k] < pool.slots().len() by {
                    if k < f.len() {
                        assert(pool.free_ids()[k] == f[k]);
                    }
                }
            }
            let m = join("strict_to_acc failed: ", e.as_str());
            Err(WorkerError::ProcessingFailed(leaf_idx, m))
        },
        Ok(acc) => {
            let write_handle = pool.claim(buf_id).unwrap();
            write_handle.write(pool, acc);
            let _ = leaf.try_set_ready();
            heap.set(leaf_idx, Task::Leaf(leaf));
            let ghost t1 = t.update(i, leaf_with(leaf_state::READY, buf_id as i64));
            proof {
                assert(heap@ == t1);
                assert forall|k: int| 0 <= k < t.len() && k != i && #[trigger] holds_buffer(t[k]) implies t[k].buffer_id() != buf_id by {}
            }
            let parent = notify_parent(heap, leaf_idx);
            proof {
                assert(engine_inv(heap, pool)) by {
                    assert forall|k: int| 0 <= k < heap@.len() implies holds_buffer(#[trigger] heap@[k]) == holds_buffer(
                        t1[k],
                    ) && heap@[k].buffer_id() == t1[k].buffer_id() && heap@[k].spec_is_ready()
                        == t1[k].spec_is_ready() by {}
                }
            }
            Ok(parent)
        },
    }
}

/// Turns the input of the leaf in slot `leaf_idx` into its result: the two
/// halves of the leaf step, one after the other, with the conversion of the
/// leaf input already at hand.  When no buffer is free nothing changes and
/// the conversion is handed back.
pub fn process_leaf_input<P>(
    heap: &mut TaskHeap,
    pool: &mut BlockPool<P>,
    leaf_idx: usize,
    converted: Result<P, String>,
) -> (r: Result<LeafProgress<P>, WorkerError>)
    requires
        engine_inv(old(heap), old(pool)),
    ensures
        engine_inv(final(heap), final(pool)),
        final(heap).spec_num_leaves() == old(heap).spec_num_leaves(),
        ({
            let t = old(heap)@;
            let s = old(pool).slots();
            let f = old(pool).free_ids();
            let i = leaf_idx as int;
            if i >= t.len() {
                &&& r matches Err(WorkerError::TaskNotFound(j)) && j == leaf_idx
                &&& final(heap)@ == t && final(pool).slots() == s && final(pool).free_ids() == f
            } else if t[i] is Node {
                &&& r matches Err(WorkerError::WrongTaskType(j)) && j == leaf_idx
                &&& final(heap)@ == t && final(pool).slots() == s && final(pool).free_ids() == f
            } else if f.len() == 0 {
                &&& r matches Ok(LeafProgress::NoBuffer(c)) && c == converted
                &&& final(heap)@ == t && final(pool).slots() == s && final(pool).free_ids() == f
            } else if t[i].state() != leaf_state::NOT_STARTED {
                &&& r matches Err(WorkerError::ProcessingFailed(j, m)) && j == leaf_idx && m@
                    == "Failed to start processing"@
                &&& final(heap)@ == t
                &&& final(pool).slots() == s.update(f[0] as int, None)
                &&& final(pool).free_ids() == f.drop_first().push(f[0])
            } else {
                match converted {
                    Err(e) => {
                        &&& r matches Err(WorkerError::ProcessingFailed(j, m)) && j == leaf_idx
                            && m@ == "strict_to_acc failed: "@ + e@
                        &&& final(heap)@ == t.update(i, leaf_with(leaf_state::NOT_STARTED, -1i64))
                        &&& final(pool).slots() == s.update(f[0] as int, None)
                        &&& final(pool).free_ids() == f.drop_first().push(f[0])
                    },
                    Ok(acc) => {
                        let t1 = t.update(i, leaf_with(leaf_state::READY, f[0] as i64));
                        &&& r matches Ok(LeafProgress::Ready(q)) && q == completed_parent(t1, i)
                        &&& final(heap)@ == report_to_parent(t1, i)
                        &&& final(pool).slots() == s.update(f[0] as int, Some(acc))
                        &&& final(pool).free_ids() == f.drop_first()
                    },
                }
            }
        }),
        forall|conv: spec_fn(int) -> P, fold: spec_fn(P, P) -> P|
            values_inv(old(heap), old(pool), conv, fold) && (converted is Ok ==> converted->Ok_0
                == conv(leaf_idx as int)) ==> #[trigger] values_inv(final(heap), final(pool), conv, fold),
{
    let ghost t = heap@;
    let ghost i = leaf_idx as int;
    match start_leaf(heap, pool, leaf_idx) {
        Err(e) => Err(e),
        Ok(LeafStart::NoBuffer) => Ok(LeafProgress::NoBuffer(converted)),
        Ok(LeafStart::Started(buf_id)) => {
            proof {
                assert(t.update(i, leaf_with(leaf_state::PROCESSING, buf_id as i64)).update(
                    i,
                    leaf_with(leaf_state::NOT_STARTED, -1i64),
                ) =~= t.update(i, leaf_with(leaf_state::NOT_STARTED, -1i64)));
                assert(t.update(i, leaf_with(leaf_state::PROCESSING, buf_id as i64)).update(
                    i,
                    leaf_with(leaf_state::READY, buf_id as i64),
                ) =~= t.update(i, leaf_with(leaf_state::READY, buf_id as i64)));
            }
            match finish_leaf(heap, pool, leaf_idx, buf_id, converted) {
                Err(e) => Err(e),
                Ok(parent) => Ok(LeafProgress::Ready(parent)),
            }
        },
    }
}

/// The invariant survives when the buffer at the front of the free list,
/// taken for the leaf in slot `i`, goes back: the leaf either holds no buffer
/// or is as it was, the slot is emptied and the id goes to the back of the
/// free list.
proof fn lemma_inv_after_release<P>(
    t: Seq<Task>,
    s: Seq<Option<P>>,
    f: Seq<BufId>,
    t2: Seq<Task>,
    s2: Seq<Option<P>>,
    f2: Seq<BufId>,
    i: int,
)
    requires
        0 <= i < t.len(),
        f.len() > 0,
        t2.len() == t.len(),
        forall|k: int| 0 <= k < t.len() && k != i ==> #[trigger] t2[k] == t[k],
        !holds_buffer(t2[i]) || t2[i] == t[i],
        s2 == s.update(f[0] as int, None),
        f2 == f.drop_first().push(f[0]),
        ids_distinct(f),
        s.len() <= u32::MAX,
        forall|k: int| 0 <= k < f.len() ==> #[trigger] f[k] < s.len(),
        forall|k: int| 0 <= k < t.len() && #[trigger] holds_buffer(t[k]) ==> t[k].buffer_id() < s.len()
            && !f.contains(t[k].buffer_id() as u32),
        forall|k: int, j: int|
            0 <= k < t.len() && 0 <= j < t.len() && k != j && #[trigger] holds_buffer(t[k])
                && #[trigger] holds_buffer(t[j]) ==> t[k].buffer_id() != t[j].buffer_id(),
        forall|k: int|
            0 <= k < t.len() && #[trigger] holds_buffer(t[k]) && t[k].spec_is_ready() ==> s[t[k].buffer_id() as int] is Some,
    ensures
        ids_distinct(f2),
        forall|k: int| 0 <= k < f2.len() ==> #[trigger] f2[k] < s2.len(),
        forall|k: int| 0 <= k < t2.len() && #[trigger] holds_buffer(t2[k]) ==> t2[k].buffer_id() < s2.len()
            && !f2.contains(t2[k].buffer_id() as u32),
        forall|k: int, j: int|
            0 <= k < t2.len() && 0 <= j < t2.len() && k != j && #[trigger] holds_buffer(t2[k])
                && #[trigger] holds_buffer(t2[j]) ==> t2[k].buffer_id() != t2[j].buffer_id(),
        forall|k: int|
            0 <= k < t2.len() && #[trigger] holds_buffer(t2[k]) && t2[k].spec_is_ready() ==> s2[t2[k].buffer_id() as int] is Some,
{
    assert forall|k: int| 0 <= k < f2.len() implies #[trigger] f2[k] < s2.len() by {
        if k < f2.len() - 1 {
            assert(f2[k] == f[k + 1]);
        }
    }
    assert forall|a: int, b: int| 0 <= a < f2.len() && 0 <= b < f2.len() && a != b implies #[trigger] f2[a]
        != #[trigger] f2[b] by {
        let a1 = if a == f2.len() - 1 { 0 } else { a + 1 };
        let b1 = if b == f2.len() - 1 { 0 } else { b + 1 };
        assert(f2[a] == f[a1]);
        assert(f2[b] == f[b1]);
    }
    assert forall|k: int| 0 <= k < t2.len() && #[trigger] holds_buffer(t2[k]) implies t2[k].buffer_id() < s2.len()
        && !f2.contains(t2[k].buffer_id() as u32) by {
        assert(t2[k] == t[k]);
        assert(f.contains(f[0]));
        if f2.contains(t2[k].buffer_id() as u32) {
            let w = choose|w: int| 0 <= w < f2.len() && f2[w] == t2[k].buffer_id() as u32;
            if w < f2.len() - 1 {
                assert(f[w + 1] == f2[w]);
                assert(f.contains(f[w + 1]));
            }
        }
    }
    assert forall|k: int|
        0 <= k < t2.len() && #[trigger] holds_buffer(t2[k]) && t2[k].spec_is_ready() implies s2[t2[k].buffer_id() as int] is Some by {
        assert(t2[k] == t[k]);
        assert(f.contains(f[0]));
    }
}

// ---------------------------------------------------------------------------
// Inner node steps
// ---------------------------------------------------------------------------

/// Starts consuming the task in slot `idx`: when it is READY with a
/// recorded buffer, moves it to BEING_CONSUMED and returns a handle on that
/// buffer.
fn start_consuming_task_and_get_buf_handle<P>(heap: &mut TaskHeap, pool: &BlockPool<P>, idx: usize) -> (h:
    Option<BufHandle>)
    requires
        old(heap).wf(),
        idx < old(heap)@.len(),
    ensures
        final(heap).wf(),
        final(heap).spec_num_leaves() == old(heap).spec_num_leaves(),
        claimable(old(heap)@[idx as int]) ==> final(heap)@ == old(heap)@.update(
            idx as int,
            consuming(old(heap)@[idx as int]),
        ),
        !claimable(old(heap)@[idx as int]) ==> final(heap)@ == old(heap)@,
        h is Some <==> claimable(old(heap)@[idx as int]) && (old(heap)@[idx as int].buffer_id() as u32)
            < pool.slots().len(),
        h is Some ==> h->0@ == old(heap)@[idx as int].buffer_id() as u32,
{
    let t = *heap.get(idx).unwrap();
    match t {
        Task::Leaf(l) => {
            let mut l = l;
            if let Some(buf_id) = l.get_buf_id_if_ready() {
                if l.try_start_consuming() {
                    heap.set(idx, Task::Leaf(l));
                    if let Some(handle) = pool.claim(buf_id) {
                        return Some(handle);
                    }
                }
            }
        },
        Task::Node(n) => {
            let mut n = n;
            if let Some(buf_id) = n.get_buf_id_if_ready() {
                if n.try_start_consuming() {
                    heap.set(idx, Task::Node(n));
                    if let Some(handle) = pool.claim(buf_id) {
                        return Some(handle);
                    }
                }
            }
        },
    }
    None
}

/// First half of folding the inner node in slot `inner_idx`: checks that
/// both children have reported, moves them to BEING_CONSUMED and takes their
/// results out of their buffers.  Returns the two buffers and the two
/// results, left first.
///
/// When the right child cannot be claimed after the left one was, the left
/// child stays BEING_CONSUMED and its buffer goes back to the pool.
pub fn take_children<P>(heap: &mut TaskHeap, pool: &mut BlockPool<P>, inner_idx: usize) -> (r: Result<
    (BufId, BufId, P, P),
    WorkerError,
>)
    requires
        engine_inv(old(heap), old(pool)),
    ensures
        engine_inv(final(heap), final(pool)),
        final(heap).spec_num_leaves() == old(heap).spec_num_leaves(),
        ({
            let t = old(heap)@;
            let s = old(pool).slots();
            let f = old(pool).free_ids();
            let i = inner_idx as int;
            let l = 2 * i + 1;
            let rt = 2 * i + 2;
            if i >= t.len() {
                &&& r matches Err(WorkerError::TaskNotFound(j)) && j == inner_idx
                &&& final(heap)@ == t && final(pool).slots() == s && final(pool).free_ids() == f
            } else if t[i] is Leaf {
                &&& r matches Err(WorkerError::WrongTaskType(j)) && j == inner_idx
                &&& final(heap)@ == t && final(pool).slots() == s && final(pool).free_ids() == f
            } else if t[i].state() != node_state::WAITING_BOTH_CHILDREN {
                &&& r matches Err(WorkerError::StateTransitionFailed(j, m)) && j == inner_idx && m@
                    == "Node not in WAITING_BOTH_CHILDREN state (current: "@ + decimal(
                    t[i].state() as nat,
                ) + ")"@
                &&& final(heap)@ == t && final(pool).slots() == s && final(pool).free_ids() == f
            } else if !claimable(t[l]) {
                &&& r matches Err(WorkerError::BufferClaimFailed(j)) && j == l
                &&& final(heap)@ == t && final(pool).slots() == s && final(pool).free_ids() == f
            } else if !claimable(t[rt]) {
                &&& r matches Err(WorkerError::BufferClaimFailed(j)) && j == rt
                &&& final(heap)@ == t.update(l, consuming(t[l]))
                &&& final(pool).slots() == s.update(t[l].buffer_id() as int, None)
                &&& final(pool).free_ids() == f.push(t[l].buffer_id() as u32)
            } else {
                let bl = t[l].buffer_id();
                let br = t[rt].buffer_id();
                &&& r matches Ok((lb, rb, lv, rv)) && lb == bl && rb == br && Some(lv) == s[bl as int]
                    && Some(rv) == s[br as int]
                &&& final(heap)@ == t.update(l, consuming(t[l])).update(rt, consuming(t[rt]))
                &&& final(pool).slots() == s.update(bl as int, None).update(br as int, None)
                &&& final(pool).free_ids() == f
            }
        }),
        forall|conv: spec_fn(int) -> P, fold: spec_fn(P, P) -> P|
            #[trigger] values_inv(old(heap), old(pool), conv, fold) ==> values_inv(final(heap), final(pool), conv, fold) && (r
                matches Ok((lb, rb, lv, rv)) ==> lv == heap_value(old(heap), 2 * inner_idx + 1, conv, fold)
                && rv == heap_value(old(heap), 2 * inner_idx + 2, conv, fold)),
{
    let ghost t = heap@;
    let ghost s = pool.slots();
    let ghost f = pool.free_ids();
    let task = match heap.get(inner_idx) {
        Some(task) => *task,
        None => {
            return Err(WorkerError::TaskNotFound(inner_idx));
        },
    };
    let node = match task {
        Task::Node(node) => node,
        Task::Leaf(_) => {
            return Err(WorkerError::WrongTaskType(inner_idx));
        },
    };
    let current_state = node.get_state();
    if current_state != node_state::WAITING_BOTH_CHILDREN {
        let digits = u32_text(current_state);
        let m = join("Node not in WAITING_BOTH_CHILDREN state (current: ", digits.as_str());
        let m = join(m.as_str(), ")");
        return Err(WorkerError::StateTransitionFailed(inner_idx, m));
    }
    proof {
        assert(!(t[inner_idx as int] is Leaf));
        assert(inner_idx < t.len() - heap.spec_num_leaves());
    }
    let left_idx = TaskHeap::left(inner_idx);
    let right_idx = TaskHeap::right(inner_idx);
    let left_handle = match start_consuming_task_and_get_buf_handle(heap, pool, left_idx) {
        Some(h) => h,
        None => {
            proof {
                if claimable(t[left_idx as int]) {
                    assert(holds_buffer(t[left_idx as int]));
                }
            }
            return Err(WorkerError::BufferClaimFailed(left_idx));
        },
    };
    let ghost t1 = heap@;
    let right_handle = match start_consuming_task_and_get_buf_handle(heap, pool, right_idx) {
        Some(h) => h,
        None => {
            left_handle.release(pool);
            proof {
                let bl = t[left_idx as int].buffer_id() as u32;
                assert(holds_buffer(t[left_idx as int]));
                assert(!f.contains(bl));
                if claimable(t1[right_idx as int]) {
                    assert(holds_buffer(t[right_idx as int]));
                }
                assert(ids_distinct(pool.free_ids())) by {
                    assert forall|a: int, b: int|
                        0 <= a < pool.free_ids().len() && 0 <= b < pool.free_ids().len() && a != b implies #[trigger] pool.free_ids()[a]
                        != #[trigger] pool.free_ids()[b] by {
                        if a < f.len() && b < f.len() {
                            assert(pool.free_ids()[a] == f[a]);
                            assert(pool.free_ids()[b] == f[b]);
                        } else if a < f.len() {
                            assert(pool.free_ids()[a] == f[a]);
                            assert(f.contains(f[a]));
                        } else if b < f.len() {
                            assert(pool.free_ids()[b] == f[b]);
                            assert(f.contains(f[b]));
                        }
                    }
                }
                assert forall|k: int| 0 <= k < heap@.len() && #[trigger] holds_buffer(heap@[k]) implies heap@[k].buffer_id()
                    < pool.slots().len() && !pool.free_ids().contains(heap@[k].buffer_id() as u32) by {
                    assert(heap@[k] == t[k]);
                    assert(k != left_idx);
                    if pool.free_ids().contains(heap@[k].buffer_id() as u32) {
                        let w = choose|w: int| 0 <= w < pool.free_ids().len() && pool.free_ids()[w] == heap@[k].buffer_id() as u32;
                        if w < f.len() {
                            assert(f[w] == pool.free_ids()[w]);
                            assert(f.contains(f[w]));
                        }
                    }
                }
                assert forall|k: int|
                    0 <= k < heap@.len() && #[trigger] holds_buffer(heap@[k]) && heap@[k].spec_is_ready() implies pool.slots()[heap@[k].buffer_id() as int] is Some by {
                    assert(heap@[k] == t[k]);
                }
            }
            return Err(WorkerError::BufferClaimFailed(right_idx));
        },
    };
    proof {
        assert(left_idx != right_idx);
        assert(holds_buffer(t[left_idx as int]));
        assert(holds_buffer(t[right_idx as int]));
    }
    let acc_left: P = left_handle.read(pool);
    let acc_right: P = right_handle.read(pool);
    let lb = left_handle.into_id();
    let rb = right_handle.into_id();
    proof {
        assert forall|k: int| 0 <= k < pool.free_ids().len() implies pool.free_ids()[k] == f[k] by {}
        assert forall|k: int| 0 <= k < heap@.len() && #[trigger] holds_buffer(heap@[k]) implies heap@[k] == t[k] && k
            != left_idx && k != right_idx by {}
    }
    Ok((lb, rb, acc_left, acc_right))
}

/// Second half of folding the inner node in slot `inner_idx`.
///
/// `left_buf` and `right_buf` are the buffers that [`take_children`]
/// returned, and `folded` is the fold of the two children's results or the
/// text of the fold error.  On success the children are marked consumed
/// with their buffer ids cleared, the folded result goes into the left
/// buffer, the right buffer goes back to the pool, the node moves through
/// PROCESSING to READY holding the left buffer, and the node reports to its
/// parent; `Ok(Some(p))` names the parent when this report completed its
/// pair.
pub fn complete_inner<P>(
    heap: &mut TaskHeap,
    pool: &mut BlockPool<P>,
    inner_idx: usize,
    left_buf: BufId,
    right_buf: BufId,
    folded: Result<P, String>,
) -> (r: Result<Option<usize>, WorkerError>)
    requires
        engine_inv(old(heap), old(pool)),
        inner_idx < old(heap)@.len(),
        old(heap)@[inner_idx as int] is Node,
        left_buf != right_buf,
        left_buf < old(pool).slots().len(),
        right_buf < old(pool).slots().len(),
        !old(pool).free_ids().contains(left_buf),
        !old(pool).free_ids().contains(right_buf),
        unheld(old(heap)@, left_buf),
        unheld(old(heap)@, right_buf),
    ensures
        engine_inv(final(heap), final(pool)),
        final(heap).spec_num_leaves() == old(heap).spec_num_leaves(),
        ({
            let t = old(heap)@;
            let s = old(pool).slots();
            let f = old(pool).free_ids();
            let i = inner_idx as int;
            let l = 2 * i + 1;
            let rt = 2 * i + 2;
            match folded {
                Err(e) => {
                    &&& r matches Err(WorkerError::FoldOperationFailed(j, m)) && j == inner_idx && m@
                        == e@
                    &&& final(heap)@ == t
                    &&& final(pool).slots() == s.update(left_buf as int, None).update(right_buf as int, None)
                    &&& final(pool).free_ids() == f.push(left_buf).push(right_buf)
                },
                Ok(acc) => {
                    let t1 = t.update(l, consumed_cleared(t[l])).update(rt, consumed_cleared(t[rt]));
                    if t[i].state() == node_state::WAITING_BOTH_CHILDREN {
                        let t2 = t1.update(i, node_with(node_state::READY, left_buf as i64));
                        &&& r == Ok::<Option<usize>, WorkerError>(completed_parent(t2, i))
                        &&& final(heap)@ == report_to_parent(t2, i)
                        &&& final(pool).slots() == s.update(left_buf as int, Some(acc)).update(
                            right_buf as int,
                            None,
                        )
                        &&& final(pool).free_ids() == f.push(right_buf)
                    } else {
                        &&& r matches Err(WorkerError::StateTransitionFailed(j, m)) && j == inner_idx
                            && m@ == "Failed to start processing"@
                        &&& final(heap)@ == t1.update(
                            i,
                            node_with(node_state::WAITING_BOTH_CHILDREN, t[i].buffer_id()),
                        )
                        &&& final(pool).slots() == s.update(left_buf as int, None).update(right_buf as int, None)
                        &&& final(pool).free_ids() == f.push(right_buf).push(left_buf)
                    }
                },
            }
        }),
        forall|conv: spec_fn(int) -> P, fold: spec_fn(P, P) -> P|
            values_inv(old(heap), old(pool), conv, fold) && (folded is Ok ==> folded->Ok_0 == fold(
                heap_value(old(heap), 2 * inner_idx + 1, conv, fold),
                heap_value(old(heap), 2 * inner_idx + 2, conv, fold),
            )) ==> #[trigger] values_inv(final(heap), final(pool), conv, fold),
{
    let ghost t = heap@;
    let ghost s = pool.slots();
    let ghost f = pool.free_ids();
    let left_handle = BufHandle::new(left_buf);
    let right_handle = BufHandle::new(right_buf);
    proof {
        assert(!(t[inner_idx as int] is Leaf));
        assert(inner_idx < t.len() - heap.spec_num_leaves());
    }
    let parent_acc = match folded {
        Ok(acc) => acc,
        Err(e) => {
            left_handle.release(pool);
            right_handle.release(pool);
            proof {
                lemma_free_list_grows(f, left_buf, right_buf);
                assert forall|k: int| 0 <= k < heap@.len() && #[trigger] holds_buffer(heap@[k]) implies heap@[k].buffer_id()
                    < pool.slots().len() && !pool.free_ids().contains(heap@[k].buffer_id() as u32) by {
                    lemma_not_in_pushed(f, left_buf, right_buf, heap@[k].buffer_id() as u32);
                }
            }
            return Err(WorkerError::FoldOperationFailed(inner_idx, e));
        },
    };
    let left_idx = TaskHeap::left(inner_idx);
    let right_idx = TaskHeap::right(inner_idx);
    set_consumed_task(heap, left_idx);
    set_consumed_task(heap, right_idx);
    clear_buffer_id(heap, left_idx);
    clear_buffer_id(heap, right_idx);
    let ghost t1 = heap@;
    proof {
        assert(t1 =~= t.update(left_idx as int, consumed_cleared(t[left_idx as int])).update(
            right_idx as int,
            consumed_cleared(t[right_idx as int]),
        ));
    }
    let result_handle = left_handle;
    right_handle.release(pool);
    result_handle.write(pool, parent_acc);
    let result_buf_id = result_handle.into_id();
    let mut node = match *heap.get(inner_idx).unwrap() {
        Task::Node(n) => n,
        Task::Leaf(_) => {
            proof {
                assert(false);
            }
            return Err(WorkerError::WrongTaskType(inner_idx));
        },
    };
    if !node.try_start_processing(result_buf_id) {
        node.state = node_state::WAITING_BOTH_CHILDREN;
        heap.set(inner_idx, Task::Node(node));
        let release_handle = pool.claim(result_buf_id).unwrap();
        release_handle.release(pool);
        proof {
            lemma_free_list_grows(f, right_buf, left_buf);
            assert forall|k: int| 0 <= k < heap@.len() && #[trigger] holds_buffer(heap@[k]) implies heap@[k].buffer_id()
                < pool.slots().len() && !pool.free_ids().contains(heap@[k].buffer_id() as u32) by {
                assert(heap@[k] == t[k]);
                lemma_not_in_pushed(f, right_buf, left_buf, heap@[k].buffer_id() as u32);
            }
            assert(pool.slots() =~= s.update(left_buf as int, None).update(right_buf as int, None));
        }
        return Err(WorkerError::StateTransitionFailed(inner_idx, "Failed to start processing".to_string()));
    }
    if !node.try_set_ready() {
        node.state = node_state::WAITING_BOTH_CHILDREN;
        node.buffer_id = -1;
        heap.set(inner_idx, Task::Node(node));
        let release_handle = pool.claim(result_buf_id).unwrap();
        release_handle.release(pool);
        return Err(WorkerError::StateTransitionFailed(inner_idx, "Failed to set ready state".to_string()));
    }
    heap.set(inner_idx, Task::Node(node));
    let ghost t2 = heap@;
    proof {
        lemma_free_list_grows(f, right_buf, right_buf);
        assert forall|k: int| 0 <= k < t2.len() && #[trigger] holds_buffer(t2[k]) implies t2[k].buffer_id()
            < pool.slots().len() && !pool.free_ids().contains(t2[k].buffer_id() as u32) by {
            if k != inner_idx {
                assert(t2[k] == t[k]);
            }
            lemma_not_in_pushed(f, right_buf, right_buf, t2[k].buffer_id() as u32);
        }
        assert forall|a: int, b: int|
            0 <= a < t2.len() && 0 <= b < t2.len() && a != b && #[trigger] holds_buffer(t2[a])
                && #[trigger] holds_buffer(t2[b]) implies t2[a].buffer_id() != t2[b].buffer_id() by {
            if a != inner_idx {
                assert(t2[a] == t[a]);
            }
            if b != inner_idx {
                assert(t2[b] == t[b]);
            }
        }
        assert forall|k: int|
            0 <= k < t2.len() && #[trigger] holds_buffer(t2[k]) && t2[k].spec_is_ready() implies pool.slots()[t2[k].buffer_id() as int] is Some by {
            if k != inner_idx {
                assert(t2[k] == t[k]);
            }
        }
    }
    let parent = notify_parent(heap, inner_idx);
    proof {
        let t3 = heap@;
        assert forall|k: int| 0 <= k < t3.len() implies holds_buffer(#[trigger] t3[k]) == holds_buffer(t2[k])
            && t3[k].buffer_id() == t2[k].buffer_id() && t3[k].spec_is_ready() == t2[k].spec_is_ready() by {}
    }
    if inner_idx == 0 {
        set_consumed_task(heap, left_idx);
        set_consumed_task(heap, right_idx);
        proof {
            assert(heap@ =~= report_to_parent(t2, inner_idx as int));
        }
    }
    Ok(parent)
}

proof fn lemma_free_list_grows(f: Seq<BufId>, a: BufId, b: BufId)
    requires
        ids_distinct(f),
        !f.contains(a),
        !f.contains(b),
    ensures
        a != b ==> ids_distinct(f.push(a).push(b)),
        ids_distinct(f.push(b)),
{
    assert forall|x: int, y: int| 0 <= x < f.len() + 1 && 0 <= y < f.len() + 1 && x != y implies #[trigger] f.push(b)[x]
        != #[trigger] f.push(b)[y] by {
        if x < f.len() {
            assert(f.contains(f[x]));
        }
        if y < f.len() {
            assert(f.contains(f[y]));
        }
    }
    if a != b {
        assert forall|x: int, y: int| 0 <= x < f.len() + 2 && 0 <= y < f.len() + 2 && x != y implies #[trigger] f.push(a).push(b)[x]
            != #[trigger] f.push(a).push(b)[y] by {
            if x < f.len() {
                assert(f.contains(f[x]));
            }
            if y < f.len() {
                assert(f.contains(f[y]));
            }
        }
    }
}

proof fn lemma_not_in_pushed(f: Seq<BufId>, a: BufId, b: BufId, x: BufId)
    requires
        !f.contains(x),
        x != a,
        x != b,
    ensures
        !f.push(a).push(b).contains(x),
        !f.push(a).contains(x),
{
    if f.push(a).push(b).contains(x) {
        let w = choose|w: int| 0 <= w < f.len() + 2 && f.push(a).push(b)[w] == x;
        assert(f[w] == x);
    }
    if f.push(a).contains(x) {
        let w = choose|w: int| 0 <= w < f.len() + 1 && f.push(a)[w] == x;
        assert(f[w] == x);
    }
}

} // verus!
