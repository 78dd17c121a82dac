//! Task state machines and the implicit binary heap that lays them out.
//!
//! Every transition is a compare-and-set on the task's state: it takes
//! effect only when the task is in the expected state and reports whether it
//! did.

use vstd::prelude::*;

use super::block_pool::BufId;

pub mod leaf_state;
pub mod node_state;

verus! {

/// The buffer id recorded in a task, read as an optional [`BufId`]
/// (a negative value means that no buffer is assigned).
pub open spec fn recorded_buf_id(id: i64) -> Option<BufId> {
    if id >= 0 {
        Some(id as BufId)
    } else {
        None
    }
}

/// Moves `*state` from `current` to `new` when it holds `current`.
fn compare_exchange(state: &mut u32, current: u32, new: u32) -> (swapped: bool)
    ensures
        swapped == (*old(state) == current),
        *final(state) == if swapped { new } else { *old(state) },
{
    if *state == current {
        *state = new;
        true
    } else {
        false
    }
}

fn read_buf_id(id: i64) -> (r: Option<BufId>)
    ensures
        r == recorded_buf_id(id),
{
    if id >= 0 {
        Some(id as BufId)
    } else {
        None
    }
}

/// State machine of a leaf of the tree.
#[derive(Clone, Copy, Debug)]
pub struct LeafTask {
    /// Buffer holding the leaf's result; -1 when no buffer is assigned.
    pub buffer_id: i64,
    /// One of the constants of [`leaf_state`].
    pub state: u32,
}

/// State machine of an inner node of the tree.
#[derive(Clone, Copy, Debug)]
pub struct NodeTask {
    /// Buffer holding the node's result; -1 when no buffer is assigned.
    pub buffer_id: i64,
    /// One of the constants of [`node_state`].
    pub state: u32,
}

impl LeafTask {
    pub fn new() -> (t: Self)
        ensures
            t.buffer_id == -1,
            t.state == leaf_state::NOT_STARTED,
    {
        LeafTask { buffer_id: -1i64, state: leaf_state::NOT_STARTED }
    }

    /// NOT_STARTED -> PROCESSING, recording `buf_id`.  A refused start
    /// leaves the task as it was, so a READY leaf keeps its buffer id.
    pub fn try_start_processing(&mut self, buf_id: BufId) -> (started: bool)
        ensures
            started == (old(self).state == leaf_state::NOT_STARTED),
            final(self).state == if started { leaf_state::PROCESSING } else { old(self).state },
            final(self).buffer_id == if started { buf_id as i64 } else { old(self).buffer_id },
            (started, *final(self)) == leaf_transition(*old(self), LeafOp::StartProcessing(buf_id)),
    {
        if compare_exchange(&mut self.state, leaf_state::NOT_STARTED, leaf_state::PROCESSING) {
            self.buffer_id = buf_id as i64;
            true
        } else {
            false
        }
    }

    /// PROCESSING -> READY.
    pub fn try_set_ready(&mut self) -> (done: bool)
        ensures
            done == (old(self).state == leaf_state::PROCESSING),
            final(self).state == if done { leaf_state::READY } else { old(self).state },
            final(self).buffer_id == old(self).buffer_id,
            (done, *final(self)) == leaf_transition(*old(self), LeafOp::SetReady),
    {
        compare_exchange(&mut self.state, leaf_state::PROCESSING, leaf_state::READY)
    }

    /// READY -> BEING_CONSUMED.
    pub fn try_start_consuming(&mut self) -> (done: bool)
        ensures
            done == (old(self).state == leaf_state::READY),
            final(self).state == if done { leaf_state::BEING_CONSUMED } else { old(self).state },
            final(self).buffer_id == old(self).buffer_id,
            (done, *final(self)) == leaf_transition(*old(self), LeafOp::StartConsuming),
    {
        compare_exchange(&mut self.state, leaf_state::READY, leaf_state::BEING_CONSUMED)
    }

    /// BEING_CONSUMED -> CONSUMED.
    pub fn try_set_consumed(&mut self) -> (done: bool)
        ensures
            done == (old(self).state == leaf_state::BEING_CONSUMED),
            final(self).state == if done { leaf_state::CONSUMED } else { old(self).state },
            final(self).buffer_id == old(self).buffer_id,
            (done, *final(self)) == leaf_transition(*old(self), LeafOp::SetConsumed),
    {
        compare_exchange(&mut self.state, leaf_state::BEING_CONSUMED, leaf_state::CONSUMED)
    }

    pub fn is_ready(&self) -> (r: bool)
        ensures
            r == (self.state == leaf_state::READY),
    {
        self.state == leaf_state::READY
    }

    pub fn get_buf_id_if_ready(&self) -> (r: Option<BufId>)
        ensures
            r == if self.state == leaf_state::READY {
                recorded_buf_id(self.buffer_id)
            } else {
                None
            },
    {
        if self.is_ready() {
            read_buf_id(self.buffer_id)
        } else {
            None
        }
    }

    pub fn get_state(&self) -> (r: u32)
        ensures
            r == self.state,
    {
        self.state
    }

    pub fn get_buf_id(&self) -> (r: Option<BufId>)
        ensures
            r == recorded_buf_id(self.buffer_id),
    {
        read_buf_id(self.buffer_id)
    }
}

impl NodeTask {
    pub fn new() -> (t: Self)
        ensures
            t.buffer_id == -1,
            t.state == node_state::NOT_STARTED,
    {
        NodeTask { buffer_id: -1i64, state: node_state::NOT_STARTED }
    }

    /// NOT_STARTED -> WAITING_ONE_CHILD.
    pub fn try_got_first_child(&mut self) -> (done: bool)
        ensures
            done == (old(self).state == node_state::NOT_STARTED),
            final(self).state == if done { node_state::WAITING_ONE_CHILD } else { old(self).state },
            final(self).buffer_id == old(self).buffer_id,
            (done, *final(self)) == node_transition(*old(self), NodeOp::GotFirstChild),
    {
        compare_exchange(&mut self.state, node_state::NOT_STARTED, node_state::WAITING_ONE_CHILD)
    }

    /// WAITING_ONE_CHILD -> WAITING_BOTH_CHILDREN.
    pub fn try_got_second_child(&mut self) -> (done: bool)
        ensures
            done == (old(self).state == node_state::WAITING_ONE_CHILD),
            final(self).state == if done {
                node_state::WAITING_BOTH_CHILDREN
            } else {
                old(self).state
            },
            final(self).buffer_id == old(self).buffer_id,
            (done, *final(self)) == node_transition(*old(self), NodeOp::GotSecondChild),
    {
        compare_exchange(
            &mut self.state,
            node_state::WAITING_ONE_CHILD,
            node_state::WAITING_BOTH_CHILDREN,
        )
    }

    /// Records that one child is ready.  Returns `true` exactly when this
    /// report completes the pair, so that the node can now be folded.
    pub fn notify_child_ready(&mut self) -> (both: bool)
        ensures
            both == (old(self).state == node_state::WAITING_ONE_CHILD),
            final(self).state == if old(self).state == node_state::NOT_STARTED {
                node_state::WAITING_ONE_CHILD
            } else if both {
                node_state::WAITING_BOTH_CHILDREN
            } else {
                old(self).state
            },
            final(self).buffer_id == old(self).buffer_id,
            (both, *final(self)) == node_transition(*old(self), NodeOp::NotifyChildReady),
    {
        if self.try_got_first_child() {
            return false;
        }
        self.try_got_second_child()
    }

    /// WAITING_BOTH_CHILDREN -> PROCESSING, recording `buf_id`.  A refused
    /// start leaves the task as it was, so a READY node keeps its buffer id.
    pub fn try_start_processing(&mut self, buf_id: BufId) -> (started: bool)
        ensures
            started == (old(self).state == node_state::WAITING_BOTH_CHILDREN),
            final(self).state == if started { node_state::PROCESSING } else { old(self).state },
            final(self).buffer_id == if started { buf_id as i64 } else { old(self).buffer_id },
            (started, *final(self)) == node_transition(*old(self), NodeOp::StartProcessing(buf_id)),
    {
        if compare_exchange(&mut self.state, node_state::WAITING_BOTH_CHILDREN, node_state::PROCESSING) {
            self.buffer_id = buf_id as i64;
            true
        } else {
            false
        }
    }

    /// PROCESSING -> READY.
    pub fn try_set_ready(&mut self) -> (done: bool)
        ensures
            done == (old(self).state == node_state::PROCESSING),
            final(self).state == if done { node_state::READY } else { old(self).state },
            final(self).buffer_id == old(self).buffer_id,
            (done, *final(self)) == node_transition(*old(self), NodeOp::SetReady),
    {
        compare_exchange(&mut self.state, node_state::PROCESSING, node_state::READY)
    }

    /// READY -> BEING_CONSUMED.
    pub fn try_start_consuming(&mut self) -> (done: bool)
        ensures
            done == (old(self).state == node_state::READY),
            final(self).state == if done { node_state::BEING_CONSUMED } else { old(self).state },
            final(self).buffer_id == old(self).buffer_id,
            (done, *final(self)) == node_transition(*old(self), NodeOp::StartConsuming),
    {
        compare_exchange(&mut self.state, node_state::READY, node_state::BEING_CONSUMED)
    }

    /// BEING_CONSUMED -> CONSUMED.
    pub fn try_set_consumed(&mut self) -> (done: bool)
        ensures
            done == (old(self).state == node_state::BEING_CONSUMED),
            final(self).state == if done { node_state::CONSUMED } else { old(self).state },
            final(self).buffer_id == old(self).buffer_id,
            (done, *final(self)) == node_transition(*old(self), NodeOp::SetConsumed),
    {
        compare_exchange(&mut self.state, node_state::BEING_CONSUMED, node_state::CONSUMED)
    }

    pub fn is_ready(&self) -> (r: bool)
        ensures
            r == (self.state == node_state::READY),
    {
        self.state == node_state::READY
    }

    pub fn has_both_children(&self) -> (r: bool)
        ensures
            r == (self.state == node_state::WAITING_BOTH_CHILDREN),
    {
        self.state == node_state::WAITING_BOTH_CHILDREN
    }

    pub fn get_buf_id_if_ready(&self) -> (r: Option<BufId>)
        ensures
            r == if self.state == node_state::READY {
                recorded_buf_id(self.buffer_id)
            } else {
                None
            },
    {
        if self.is_ready() {
            read_buf_id(self.buffer_id)
        } else {
            None
        }
    }

    pub fn get_state(&self) -> (r: u32)
        ensures
            r == self.state,
    {
        self.state
    }

    pub fn get_buf_id(&self) -> (r: Option<BufId>)
        ensures
            r == recorded_buf_id(self.buffer_id),
    {
        read_buf_id(self.buffer_id)
    }
}

/// A state-changing call on a [`LeafTask`].
#[derive(Clone, Copy, Debug)]
pub enum LeafOp {
    StartProcessing(BufId),
    SetReady,
    StartConsuming,
    SetConsumed,
}

/// A state-changing call on a [`NodeTask`].
#[derive(Clone, Copy, Debug)]
pub enum NodeOp {
    GotFirstChild,
    GotSecondChild,
    NotifyChildReady,
    StartProcessing(BufId),
    SetReady,
    StartConsuming,
    SetConsumed,
}

/// A compare-and-swap of `t`'s state from `from` to `to`.
pub open spec fn leaf_cas(t: LeafTask, from: u32, to: u32) -> (bool, LeafTask) {
    if t.state == from {
        (true, LeafTask { buffer_id: t.buffer_id, state: to })
    } else {
        (false, t)
    }
}

/// A compare-and-swap of `n`'s state from `from` to `to`.
pub open spec fn node_cas(n: NodeTask, from: u32, to: u32) -> (bool, NodeTask) {
    if n.state == from {
        (true, NodeTask { buffer_id: n.buffer_id, state: to })
    } else {
        (false, n)
    }
}

/// What a call returns and leaves of a leaf.
pub open spec fn leaf_transition(t: LeafTask, op: LeafOp) -> (bool, LeafTask) {
    match op {
        LeafOp::StartProcessing(b) => if t.state == leaf_state::NOT_STARTED {
            (true, LeafTask { buffer_id: b as i64, state: leaf_state::PROCESSING })
        } else {
            (false, t)
        },
        LeafOp::SetReady => leaf_cas(t, leaf_state::PROCESSING, leaf_state::READY),
        LeafOp::StartConsuming => leaf_cas(t, leaf_state::READY, leaf_state::BEING_CONSUMED),
        LeafOp::SetConsumed => leaf_cas(t, leaf_state::BEING_CONSUMED, leaf_state::CONSUMED),
    }
}

/// What a call returns and leaves of a node.
pub open spec fn node_transition(n: NodeTask, op: NodeOp) -> (bool, NodeTask) {
    match op {
        NodeOp::GotFirstChild => node_cas(n, node_state::NOT_STARTED, node_state::WAITING_ONE_CHILD),
        NodeOp::GotSecondChild => node_cas(n, node_state::WAITING_ONE_CHILD, node_state::WAITING_BOTH_CHILDREN),
        NodeOp::NotifyChildReady => if n.state == node_state::NOT_STARTED {
            (false, NodeTask { buffer_id: n.buffer_id, state: node_state::WAITING_ONE_CHILD })
        } else {
            node_cas(n, node_state::WAITING_ONE_CHILD, node_state::WAITING_BOTH_CHILDREN)
        },
        NodeOp::StartProcessing(b) => if n.state == node_state::WAITING_BOTH_CHILDREN {
            (true, NodeTask { buffer_id: b as i64, state: node_state::PROCESSING })
        } else {
            (false, n)
        },
        NodeOp::SetReady => node_cas(n, node_state::PROCESSING, node_state::READY),
        NodeOp::StartConsuming => node_cas(n, node_state::READY, node_state::BEING_CONSUMED),
        NodeOp::SetConsumed => node_cas(n, node_state::BEING_CONSUMED, node_state::CONSUMED),
    }
}

/// The leaf that a fresh leaf becomes after the calls `ops`, in order.
pub open spec fn leaf_after(ops: Seq<LeafOp>) -> LeafTask
    decreases ops.len(),
{
    if ops.len() == 0 {
        LeafTask { buffer_id: -1i64, state: leaf_state::NOT_STARTED }
    } else {
        leaf_transition(leaf_after(ops.drop_last()), ops.last()).1
    }
}

/// The node that a fresh node becomes after the calls `ops`, in order.
pub open spec fn node_after(ops: Seq<NodeOp>) -> NodeTask
    decreases ops.len(),
{
    if ops.len() == 0 {
        NodeTask { buffer_id: -1i64, state: node_state::NOT_STARTED }
    } else {
        node_transition(node_after(ops.drop_last()), ops.last()).1
    }
}

/// A leaf call moves the state up by one when it succeeds and changes
/// nothing when it fails; nothing leaves CONSUMED.
pub proof fn lemma_leaf_step(t: LeafTask, op: LeafOp)
    requires
        t.state <= leaf_state::CONSUMED,
    ensures
        ({
            let (done, t2) = leaf_transition(t, op);
            &&& done ==> t2.state == t.state + 1
            &&& !done ==> t2 == t
            &&& t2.state <= leaf_state::CONSUMED
            &&& t.state == leaf_state::CONSUMED ==> !done
        }),
{
}

/// Every leaf reached from a fresh one by its calls is in one of the five
/// states, and from PROCESSING on it records a buffer.
pub proof fn lemma_leaf_reachable(ops: Seq<LeafOp>)
    ensures
        leaf_after(ops).state <= leaf_state::CONSUMED,
        leaf_after(ops).state >= leaf_state::PROCESSING ==> leaf_after(ops).buffer_id >= 0,
    decreases ops.len(),
{
    if ops.len() > 0 {
        lemma_leaf_reachable(ops.drop_last());
    }
}

/// A node call moves the state up by at most one, by exactly one when it
/// succeeds, and changes nothing when it leaves the state as it was; nothing
/// leaves CONSUMED.
pub proof fn lemma_node_step(n: NodeTask, op: NodeOp)
    requires
        n.state <= node_state::CONSUMED,
    ensures
        ({
            let (done, n2) = node_transition(n, op);
            &&& n2.state == n.state || n2.state == n.state + 1
            &&& done ==> n2.state == n.state + 1
            &&& n2.state == n.state ==> n2 == n
            &&& n2.state <= node_state::CONSUMED
            &&& n.state == node_state::CONSUMED ==> !done
        }),
{
}

/// Every node reached from a fresh one by its calls is in one of the seven
/// states, and from PROCESSING on it records a buffer.
pub proof fn lemma_node_reachable(ops: Seq<NodeOp>)
    ensures
        node_after(ops).state <= node_state::CONSUMED,
        node_after(ops).state >= node_state::PROCESSING ==> node_after(ops).buffer_id >= 0,
    decreases ops.len(),
{
    if ops.len() > 0 {
        lemma_node_reachable(ops.drop_last());
    }
}

/// A task of the heap: a leaf or an inner node.
#[derive(Clone, Copy, Debug)]
pub enum Task {
    Leaf(LeafTask),
    Node(NodeTask),
}

impl Task {
    /// The state of the task, whatever its kind.
    pub open spec fn state(self) -> u32 {
        match self {
            Task::Leaf(l) => l.state,
            Task::Node(n) => n.state,
        }
    }

    /// The buffer id recorded in the task, whatever its kind.
    pub open spec fn buffer_id(self) -> i64 {
        match self {
            Task::Leaf(l) => l.buffer_id,
            Task::Node(n) => n.buffer_id,
        }
    }

    /// The READY state of the task's kind.
    pub open spec fn ready_state(self) -> u32 {
        match self {
            Task::Leaf(_) => leaf_state::READY,
            Task::Node(_) => node_state::READY,
        }
    }

    /// The task holds a result in its buffer.
    pub open spec fn spec_is_ready(self) -> bool {
        self.state() == self.ready_state()
    }

    /// The buffer id a ready task publishes.
    pub open spec fn spec_buf_id_if_ready(self) -> Option<BufId> {
        if self.spec_is_ready() {
            recorded_buf_id(self.buffer_id())
        } else {
            None
        }
    }

    pub fn new_leaf() -> (t: Self)
        ensures
            t == fresh_leaf_task(),
    {
        Task::Leaf(LeafTask::new())
    }

    pub fn new_node() -> (t: Self)
        ensures
            t == fresh_node_task(),
    {
        Task::Node(NodeTask::new())
    }

    pub fn is_ready(&self) -> (r: bool)
        ensures
            r == self.spec_is_ready(),
    {
        match self {
            Task::Leaf(l) => l.is_ready(),
            Task::Node(n) => n.is_ready(),
        }
    }

    pub fn get_buf_id_if_ready(&self) -> (r: Option<BufId>)
        ensures
            r == self.spec_buf_id_if_ready(),
    {
        match self {
            Task::Leaf(l) => l.get_buf_id_if_ready(),
            Task::Node(n) => n.get_buf_id_if_ready(),
        }
    }
}

/// A leaf that no worker has touched.
pub open spec fn fresh_leaf_task() -> Task {
    Task::Leaf(LeafTask { buffer_id: -1i64, state: leaf_state::NOT_STARTED })
}

/// An inner node that no child has reported to.
pub open spec fn fresh_node_task() -> Task {
    Task::Node(NodeTask { buffer_id: -1i64, state: node_state::NOT_STARTED })
}

/// The shape of a heap of tasks with `num_leaves` leaves: a complete binary
/// tree stored level by level, whose last `num_leaves` entries are the leaves.
pub open spec fn heap_shape(tasks: Seq<Task>, num_leaves: nat) -> bool {
    &&& num_leaves >= 1
    &&& tasks.len() == 2 * num_leaves - 1
    &&& forall|i: int|
        0 <= i < tasks.len() ==> (#[trigger] tasks[i] is Leaf <==> i >= tasks.len() - num_leaves)
}

/// Index of the parent of slot `i` (none for the root).
pub open spec fn parent_of(i: int) -> Option<int> {
    if i == 0 {
        None
    } else {
        Some((i - 1) / 2)
    }
}

/// Index of the left child of slot `i`.
pub open spec fn left_of(i: int) -> int {
    2 * i + 1
}

/// Index of the right child of slot `i`.
pub open spec fn right_of(i: int) -> int {
    2 * i + 2
}

/// All tasks of a heap laid out as a complete binary tree.
pub struct TaskHeap {
    tasks: Vec<Task>,
    size: usize,
    num_leaves: usize,
}

impl View for TaskHeap {
    type V = Seq<Task>;

    closed spec fn view(&self) -> Seq<Task> {
        self.tasks@
    }
}

impl TaskHeap {
    /// Number of leaves of the heap.
    pub closed spec fn spec_num_leaves(&self) -> nat {
        self.num_leaves as nat
    }

    /// Number of tasks of the heap.
    pub closed spec fn spec_size(&self) -> nat {
        self.size as nat
    }

    /// First leaf slot.
    pub open spec fn spec_leaf_start(&self) -> int {
        self.spec_size() - self.spec_num_leaves()
    }

    /// The heap is a complete binary tree of tasks whose recorded size
    /// matches its contents.
    pub open spec fn wf(&self) -> bool {
        &&& self.spec_size() == self@.len()
        &&& self.spec_size() <= usize::MAX
        &&& heap_shape(self@, self.spec_num_leaves())
    }

    /// Builds the heap for `2^k` leaves: `2^(k+1) - 1` fresh tasks, the last
    /// `2^k` of which are leaves.
    pub fn new(k: usize) -> (heap: Self)
        requires
            k + 1 < usize::BITS,
        ensures
            heap.wf(),
            heap.spec_num_leaves() == vstd::arithmetic::power2::pow2(k as nat),
            forall|i: int|
                0 <= i < heap@.len() ==> #[trigger] heap@[i] == if i >= heap.spec_leaf_start() {
                    fresh_leaf_task()
                } else {
                    fresh_node_task()
                },
    {
        proof {
            vstd::bits::lemma_usize_pow2_no_overflow((k + 1) as nat);
            vstd::arithmetic::power2::lemma_pow2_unfold((k + 1) as nat);
            vstd::bits::lemma_usize_shl_is_mul(1, k);
        }
        let num_leaves: usize = 1usize << k;
        let size: usize = (2 * num_leaves) - 1;
        let mut tasks: Vec<Task> = Vec::with_capacity(size);
        let mut i: usize = 0;
        while i < size
            invariant
                i <= size,
                size == 2 * num_leaves - 1,
                num_leaves >= 1,
                tasks.len() == i,
                forall|j: int|
                    0 <= j < i ==> #[trigger] tasks@[j] == if j >= size - num_leaves {
                        fresh_leaf_task()
                    } else {
                        fresh_node_task()
                    },
            decreases size - i,
        {
            if i >= size - num_leaves {
                tasks.push(Task::new_leaf());
            } else {
                tasks.push(Task::new_node());
            }
            i = i + 1;
        }
        TaskHeap { tasks, size, num_leaves }
    }

    pub fn parent(i: usize) -> (p: Option<usize>)
        ensures
            p == match parent_of(i as int) {
                Some(q) => Some(q as usize),
                None => None::<usize>,
            },
    {
        if i == 0 {
            None
        } else {
            Some((i - 1) / 2)
        }
    }

    pub fn left(i: usize) -> (l: usize)
        requires
            2 * i + 1 <= usize::MAX,
        ensures
            l == left_of(i as int),
    {
        2 * i + 1
    }

    pub fn right(i: usize) -> (r: usize)
        requires
            2 * i + 2 <= usize::MAX,
        ensures
            r == right_of(i as int),
    {
        2 * i + 2
    }

    pub fn is_leaf(&self, i: usize) -> (r: bool)
        requires
            self.wf(),
        ensures
            r == (i >= self.spec_leaf_start()),
    {
        i >= self.size - self.num_leaves
    }

    pub fn get(&self, i: usize) -> (t: Option<&Task>)
        ensures
            t == if i < self@.len() {
                Some(&self@[i as int])
            } else {
                None::<&Task>
            },
    {
        if i < self.tasks.len() {
            Some(&self.tasks[i])
        } else {
            None
        }
    }

    pub fn size(&self) -> (r: usize)
        ensures
            r == self.spec_size(),
    {
        self.size
    }

    pub fn num_leaves(&self) -> (r: usize)
        ensures
            r == self.spec_num_leaves(),
    {
        self.num_leaves
    }

    pub fn leaf_start(&self) -> (r: usize)
        requires
            self.wf(),
        ensures
            r == self.spec_leaf_start(),
    {
        self.size - self.num_leaves
    }

    pub fn is_ready(&self, index: usize) -> (r: bool)
        ensures
            r == (index < self@.len() && self@[index as int].spec_is_ready()),
    {
        match self.get(index) {
            Some(t) => t.is_ready(),
            None => false,
        }
    }

    pub fn get_buf_id_if_ready(&self, index: usize) -> (r: Option<BufId>)
        ensures
            r == if index < self@.len() {
                self@[index as int].spec_buf_id_if_ready()
            } else {
                None
            },
    {
        match self.get(index) {
            Some(t) => t.get_buf_id_if_ready(),
            None => None,
        }
    }

    /// Replaces the task in slot `i` by one of the same kind.
    pub fn set(&mut self, i: usize, task: Task)
        requires
            old(self).wf(),
            i < old(self)@.len(),
            (task is Leaf) == (old(self)@[i as int] is Leaf),
        ensures
            final(self).wf(),
            final(self)@ == old(self)@.update(i as int, task),
            final(self).spec_num_leaves() == old(self).spec_num_leaves(),
    {
        self.tasks.set(i, task);
    }
}

/// Heap links: an inner node's children are in the heap and name it as their
/// parent, and every slot but the root has an inner node as parent, of which
/// it is the left or the right child.
pub proof fn lemma_heap_links(heap: &TaskHeap, i: int)
    requires
        heap.wf(),
        0 <= i < heap@.len(),
    ensures
        i < heap.spec_leaf_start() ==> right_of(i) < heap@.len() && parent_of(left_of(i)) == Some(i)
            && parent_of(right_of(i)) == Some(i),
        i > 0 ==> ({
            let p = parent_of(i)->0;
            &&& 0 <= p < heap.spec_leaf_start()
            &&& heap@[p] is Node
            &&& (left_of(p) == i || right_of(p) == i)
        }),
        (heap@[i] is Leaf) == (i >= heap.spec_leaf_start()),
{
    if i > 0 {
        let p = (i - 1) / 2;
        assert(heap@[p] is Leaf <==> p >= heap@.len() - heap.spec_num_leaves());
    }
}

} // verus!
