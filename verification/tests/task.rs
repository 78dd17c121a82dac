//! Task state machines and the heap layout.

use nova_tree::parallel_tree::task::{leaf_state, node_state, LeafTask, NodeTask, Task, TaskHeap};

#[test]
fn leaf_task_lifecycle() {
    let mut leaf = LeafTask::new();
    assert_eq!(leaf.get_state(), leaf_state::NOT_STARTED);
    assert_eq!(leaf.get_buf_id(), None);
    assert!(!leaf.try_set_ready());
    assert!(leaf.try_start_processing(3));
    assert_eq!(leaf.get_state(), leaf_state::PROCESSING);
    assert_eq!(leaf.get_buf_id(), Some(3));
    assert_eq!(leaf.get_buf_id_if_ready(), None);
    assert!(!leaf.is_ready());
    assert!(leaf.try_set_ready());
    assert!(leaf.is_ready());
    assert_eq!(leaf.get_buf_id_if_ready(), Some(3));
    assert!(!leaf.try_set_consumed());
    assert!(leaf.try_start_consuming());
    assert_eq!(leaf.get_state(), leaf_state::BEING_CONSUMED);
    assert!(leaf.try_set_consumed());
    assert_eq!(leaf.get_state(), leaf_state::CONSUMED);
    assert_eq!(leaf.get_buf_id(), Some(3));
}

#[test]
fn leaf_task_refused_start_keeps_buffer() {
    let mut leaf = LeafTask::new();
    assert!(leaf.try_start_processing(1));
    assert!(!leaf.try_start_processing(2));
    assert_eq!(leaf.get_state(), leaf_state::PROCESSING);
    assert_eq!(leaf.get_buf_id(), Some(1));
    assert!(leaf.try_set_ready());
    // A READY leaf keeps its buffer when another start is refused.
    assert!(!leaf.try_start_processing(3));
    assert_eq!(leaf.get_buf_id_if_ready(), Some(1));
}

#[test]
fn node_task_refused_start_keeps_buffer() {
    let mut node = NodeTask::new();
    node.notify_child_ready();
    node.notify_child_ready();
    assert!(node.try_start_processing(7));
    assert!(node.try_set_ready());
    assert!(!node.try_start_processing(8));
    assert_eq!(node.get_buf_id_if_ready(), Some(7));
}

#[test]
fn consumed_is_final() {
    let mut leaf = LeafTask::new();
    leaf.try_start_processing(0);
    leaf.try_set_ready();
    leaf.try_start_consuming();
    leaf.try_set_consumed();
    assert!(!leaf.try_start_processing(1));
    assert!(!leaf.try_set_ready());
    assert!(!leaf.try_start_consuming());
    assert!(!leaf.try_set_consumed());
    assert_eq!(leaf.get_state(), leaf_state::CONSUMED);
    assert_eq!(leaf.get_buf_id(), Some(0));
}

#[test]
fn node_task_lifecycle() {
    let mut node = NodeTask::new();
    assert_eq!(node.get_state(), node_state::NOT_STARTED);
    assert!(!node.try_start_processing(0));
    assert!(!node.notify_child_ready());
    assert_eq!(node.get_state(), node_state::WAITING_ONE_CHILD);
    assert!(!node.has_both_children());
    assert!(node.notify_child_ready());
    assert!(node.has_both_children());
    // A third report changes nothing.
    assert!(!node.notify_child_ready());
    assert_eq!(node.get_state(), node_state::WAITING_BOTH_CHILDREN);
    assert!(node.try_start_processing(5));
    assert!(node.try_set_ready());
    assert_eq!(node.get_buf_id_if_ready(), Some(5));
    assert!(node.try_start_consuming());
    assert!(node.try_set_consumed());
    assert_eq!(node.get_state(), node_state::CONSUMED);
}

#[test]
fn node_task_child_steps() {
    let mut node = NodeTask::new();
    assert!(!node.try_got_second_child());
    assert!(node.try_got_first_child());
    assert!(!node.try_got_first_child());
    assert!(node.try_got_second_child());
    assert_eq!(node.get_state(), node_state::WAITING_BOTH_CHILDREN);
}

#[test]
fn task_enum_queries() {
    let leaf = Task::new_leaf();
    let node = Task::new_node();
    assert!(!leaf.is_ready());
    assert!(!node.is_ready());
    assert_eq!(leaf.get_buf_id_if_ready(), None);
    let mut l = LeafTask::new();
    l.try_start_processing(4);
    l.try_set_ready();
    let t = Task::Leaf(l);
    assert!(t.is_ready());
    assert_eq!(t.get_buf_id_if_ready(), Some(4));
}

#[test]
fn heap_layout() {
    let heap = TaskHeap::new(2);
    assert_eq!(heap.size(), 7);
    assert_eq!(heap.num_leaves(), 4);
    assert_eq!(heap.leaf_start(), 3);
    for i in 0..7 {
        assert_eq!(heap.is_leaf(i), i >= 3);
        match heap.get(i) {
            Some(Task::Leaf(_)) => assert!(i >= 3),
            Some(Task::Node(_)) => assert!(i < 3),
            None => panic!("slot {} missing", i),
        }
    }
    assert!(heap.get(7).is_none());
    assert!(heap.is_leaf(7));
    assert!(!heap.is_ready(0));
    assert_eq!(heap.get_buf_id_if_ready(9), None);
}

#[test]
fn heap_links() {
    assert_eq!(TaskHeap::parent(0), None);
    assert_eq!(TaskHeap::parent(1), Some(0));
    assert_eq!(TaskHeap::parent(2), Some(0));
    assert_eq!(TaskHeap::parent(6), Some(2));
    assert_eq!(TaskHeap::left(2), 5);
    assert_eq!(TaskHeap::right(2), 6);
    for i in 0..100 {
        assert_eq!(TaskHeap::parent(TaskHeap::left(i)), Some(i));
        assert_eq!(TaskHeap::parent(TaskHeap::right(i)), Some(i));
    }
}

#[test]
fn single_leaf_heap() {
    let heap = TaskHeap::new(0);
    assert_eq!(heap.size(), 1);
    assert_eq!(heap.num_leaves(), 1);
    assert_eq!(heap.leaf_start(), 0);
    assert!(heap.is_leaf(0));
}

#[test]
fn heap_set_replaces_a_slot() {
    let mut heap = TaskHeap::new(1);
    let mut l = LeafTask::new();
    l.try_start_processing(0);
    l.try_set_ready();
    heap.set(1, Task::Leaf(l));
    assert!(heap.is_ready(1));
    assert_eq!(heap.get_buf_id_if_ready(1), Some(0));
}
