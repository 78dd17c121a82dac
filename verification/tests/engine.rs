//! The folding engine driven step by step on one thread: leaves are handed
//! to workers' queues, and each worker first folds parents whose children
//! are both ready, then converts leaf inputs.

use nova_tree::parallel_tree::block_pool::BlockPool;
use nova_tree::parallel_tree::scheduler::{
    get_root_result, is_computation_complete, leaf_assignments, worker_count,
};
use nova_tree::parallel_tree::task::{leaf_state, node_state, Task, TaskHeap};
use nova_tree::parallel_tree::worker::{
    complete_inner, finish_leaf, process_leaf_input, start_leaf, take_children, LeafProgress,
    LeafStart, WorkerError,
};
use std::collections::VecDeque;

/// Folds the parent `inner_idx` by combining its children with `fold`.
fn fold_parent<P>(
    heap: &mut TaskHeap,
    pool: &mut BlockPool<P>,
    ready_q: &mut VecDeque<usize>,
    inner_idx: usize,
    fold: &dyn Fn(P, P) -> P,
) -> Result<(), WorkerError> {
    let (left_buf, right_buf, left, right) = take_children(heap, pool, inner_idx)?;
    match complete_inner(heap, pool, inner_idx, left_buf, right_buf, Ok(fold(left, right)))? {
        Some(parent) => ready_q.push_back(parent),
        None => {}
    }
    Ok(())
}

/// Runs the engine on `values` for a heap of `2^depth` leaves with
/// `num_workers` workers and `num_cores * 2` buffers; returns the heap, the
/// pool and the number of failed steps.
fn run_engine(
    depth: usize,
    num_cores: usize,
    num_workers: usize,
    values: &[u32],
) -> (TaskHeap, BlockPool<u32>, usize) {
    run_engine_with(depth, num_cores, num_workers, values, &|a: u32, b: u32| a + b)
}

fn run_engine_with<P: Clone>(
    depth: usize,
    num_cores: usize,
    num_workers: usize,
    values: &[P],
    fold: &dyn Fn(P, P) -> P,
) -> (TaskHeap, BlockPool<P>, usize) {
    let mut heap = TaskHeap::new(depth);
    let mut pool = BlockPool::<P>::new(num_cores);
    let workers = worker_count(num_workers);
    let mut leaf_queues: Vec<VecDeque<(P, usize)>> = (0..workers).map(|_| VecDeque::new()).collect();
    let mut ready_queues: Vec<VecDeque<usize>> = (0..workers).map(|_| VecDeque::new()).collect();
    let assignments = leaf_assignments(heap.leaf_start(), heap.num_leaves(), workers, values.len());
    for (k, (leaf_idx, worker)) in assignments.iter().enumerate() {
        leaf_queues[*worker].push_back((values[k].clone(), *leaf_idx));
    }
    let mut failures = 0;
    loop {
        let mut progressed = false;
        for w in 0..workers {
            if let Some(inner_idx) = ready_queues[w].pop_front() {
                if fold_parent(&mut heap, &mut pool, &mut ready_queues[w], inner_idx, fold).is_err() {
                    failures += 1;
                }
                progressed = true;
                continue;
            }
            if let Some((value, leaf_idx)) = leaf_queues[w].pop_front() {
                match process_leaf_input(&mut heap, &mut pool, leaf_idx, Ok(value.clone())) {
                    Ok(LeafProgress::Ready(Some(parent))) => {
                        ready_queues[w].push_back(parent);
                        progressed = true;
                    }
                    Ok(LeafProgress::Ready(None)) => progressed = true,
                    // No buffer: the input waits for one to come back.
                    Ok(LeafProgress::NoBuffer(_)) => leaf_queues[w].push_front((value, leaf_idx)),
                    Err(_) => {
                        failures += 1;
                        progressed = true;
                    }
                }
            }
        }
        if !progressed {
            break;
        }
    }
    (heap, pool, failures)
}

fn root_sum(depth: usize, num_cores: usize, num_workers: usize, values: &[u32]) -> Option<u32> {
    let (heap, mut pool, failures) = run_engine(depth, num_cores, num_workers, values);
    assert_eq!(failures, 0);
    if !is_computation_complete(&heap) {
        return None;
    }
    get_root_result(&heap, &mut pool)
}

#[test]
fn scheduler_sums_four_leaf_nodes() {
    let result = root_sum(2, 16, 16, &[1, 2, 3, 4]);
    assert_eq!(result, Some(10), "expected sum of 1+2+3+4 = 10");
}

#[test]
fn scheduler_sums_two_leaf_nodes() {
    let result = root_sum(1, 16, 16, &[5, 7]);
    assert_eq!(result, Some(12), "expected sum of 5+7 = 12");
}

#[test]
fn scheduler_stress_test_sixteen_leaves() {
    let values: Vec<u32> = (1..=16).collect();
    let expected_sum = (1..=16).sum::<u32>();
    let result = root_sum(4, 32, 4, &values);
    assert_eq!(result, Some(expected_sum), "expected sum of 1..=16 = {}", expected_sum);
}

#[test]
fn worker_processes_single_leaf() {
    let mut heap = TaskHeap::new(1);
    let mut pool = BlockPool::<u32>::new(1);
    let leaf_idx = 1;
    let r = process_leaf_input(&mut heap, &mut pool, leaf_idx, Ok(42));
    assert!(matches!(r, Ok(LeafProgress::Ready(None))));
    match heap.get(leaf_idx) {
        Some(Task::Leaf(leaf)) => {
            assert_eq!(leaf.get_state(), leaf_state::READY);
            let buf = leaf.get_buf_id_if_ready().expect("leaf holds a buffer");
            assert_eq!(pool.claim(buf).unwrap().read(&mut pool), 42);
        }
        _ => panic!("Expected leaf task at index {}", leaf_idx),
    }
    // The parent has heard from one child.
    match heap.get(0) {
        Some(Task::Node(node)) => assert_eq!(node.get_state(), node_state::WAITING_ONE_CHILD),
        _ => panic!("root should be a node"),
    }
}

fn assert_final_processing_state(heap: &TaskHeap, pool: &mut BlockPool<u32>, expected: u32) {
    for idx in 1..heap.size() {
        match heap.get(idx).unwrap() {
            Task::Leaf(leaf) => assert_eq!(leaf.get_state(), leaf_state::CONSUMED),
            Task::Node(node) => assert_eq!(node.get_state(), node_state::CONSUMED),
        }
    }
    assert!(is_computation_complete(heap));
    assert_eq!(get_root_result(heap, pool), Some(expected));
}

#[test]
fn worker_merges_two_leaves_into_parent() {
    let (heap, mut pool, failures) = run_engine(1, 1, 1, &[10, 20]);
    assert_eq!(failures, 0);
    assert_final_processing_state(&heap, &mut pool, 30);
}

#[test]
fn worker_processes_four_leaves_into_root() {
    let (heap, mut pool, failures) = run_engine(2, 4, 1, &[1, 2, 3, 4]);
    assert_eq!(failures, 0);
    assert_final_processing_state(&heap, &mut pool, 10);
}

#[test]
fn engine_runs_with_the_fewest_buffers() {
    // Two buffers are enough for two leaves, and the root reuses one.
    assert_eq!(root_sum(1, 1, 2, &[3, 4]), Some(7));
    // Eight leaves on two buffers: leaves wait for buffers to come back.
    let values: Vec<u32> = (1..=8).collect();
    let (heap, _pool, _failures) = run_engine(3, 1, 1, &values);
    assert!(!is_computation_complete(&heap));
}

#[test]
fn engine_ignores_surplus_leaf_inputs() {
    assert_eq!(root_sum(1, 4, 2, &[1, 2, 100, 200]), Some(3));
}

#[test]
fn engine_incomplete_without_all_leaves() {
    let (heap, mut pool, failures) = run_engine(2, 4, 1, &[1, 2, 3]);
    assert_eq!(failures, 0);
    assert!(!is_computation_complete(&heap));
    assert_eq!(get_root_result(&heap, &mut pool), None);
}

#[test]
fn leaf_step_errors() {
    let mut heap = TaskHeap::new(1);
    let mut pool = BlockPool::<u32>::new(1);
    match process_leaf_input(&mut heap, &mut pool, 7, Ok(1)) {
        Err(WorkerError::TaskNotFound(7)) => {}
        _ => panic!("expected TaskNotFound"),
    }
    match process_leaf_input(&mut heap, &mut pool, 0, Ok(1)) {
        Err(WorkerError::WrongTaskType(0)) => {}
        _ => panic!("expected WrongTaskType"),
    }
    let e = process_leaf_input(&mut heap, &mut pool, 1, Err("bad".to_string())).unwrap_err();
    assert_eq!(e.message(), "Processing failed for task 1: strict_to_acc failed: bad");
    // The leaf went back to NOT_STARTED and the buffer back to the pool.
    assert_eq!(pool.free_count(), 2);
    match heap.get(1) {
        Some(Task::Leaf(leaf)) => {
            assert_eq!(leaf.get_state(), leaf_state::NOT_STARTED);
            assert_eq!(leaf.get_buf_id(), None);
        }
        _ => panic!("expected a leaf"),
    }
    assert!(process_leaf_input(&mut heap, &mut pool, 1, Ok(5)).is_ok());
    let e = process_leaf_input(&mut heap, &mut pool, 1, Ok(6)).unwrap_err();
    assert_eq!(e.message(), "Processing failed for task 1: Failed to start processing");
}

#[test]
fn leaf_step_without_buffer_hands_input_back() {
    let mut heap = TaskHeap::new(2);
    let mut pool = BlockPool::<u32>::new(1);
    assert!(process_leaf_input(&mut heap, &mut pool, 3, Ok(1)).is_ok());
    assert!(process_leaf_input(&mut heap, &mut pool, 5, Ok(2)).is_ok());
    match process_leaf_input(&mut heap, &mut pool, 4, Ok(9)) {
        Ok(LeafProgress::NoBuffer(Ok(9))) => {}
        _ => panic!("expected the input back"),
    }
    match heap.get(4) {
        Some(Task::Leaf(leaf)) => assert_eq!(leaf.get_state(), leaf_state::NOT_STARTED),
        _ => panic!("expected a leaf"),
    }
}

#[test]
fn take_children_errors() {
    let mut heap = TaskHeap::new(1);
    let mut pool = BlockPool::<u32>::new(2);
    match take_children(&mut heap, &mut pool, 9) {
        Err(WorkerError::TaskNotFound(9)) => {}
        _ => panic!("expected TaskNotFound"),
    }
    match take_children(&mut heap, &mut pool, 1) {
        Err(WorkerError::WrongTaskType(1)) => {}
        _ => panic!("expected WrongTaskType"),
    }
    let e = take_children(&mut heap, &mut pool, 0).unwrap_err();
    assert_eq!(
        e.message(),
        "State transition failed for task 0: Node not in WAITING_BOTH_CHILDREN state (current: 0)"
    );
    assert!(process_leaf_input(&mut heap, &mut pool, 1, Ok(1)).is_ok());
    assert!(process_leaf_input(&mut heap, &mut pool, 2, Ok(2)).is_ok());
    let (l, r, lv, rv) = take_children(&mut heap, &mut pool, 0).unwrap();
    assert_ne!(l, r);
    assert_eq!((lv, rv), (1, 2));
    let e = complete_inner(&mut heap, &mut pool, 0, l, r, Err("no fold".to_string())).unwrap_err();
    assert_eq!(e.message(), "Fold operation failed for task 0: no fold");
    // Both buffers went back to the pool.
    assert_eq!(pool.free_count(), 4);
    let e = take_children(&mut heap, &mut pool, 0).unwrap_err();
    assert_eq!(e.message(), "Buffer claim failed for task 1");
}

#[test]
fn worker_error_messages() {
    assert_eq!(WorkerError::TaskNotFound(12).message(), "Task not found at index 12");
    assert_eq!(WorkerError::WrongTaskType(0).message(), "Wrong task type at index 0");
    assert_eq!(WorkerError::BufferClaimFailed(305).message(), "Buffer claim failed for task 305");
    assert_eq!(
        WorkerError::StateTransitionFailed(4, "x".to_string()).message(),
        "State transition failed for task 4: x"
    );
}

#[test]
fn root_is_the_ordered_fold_of_the_leaves() {
    // Concatenation is associative but not commutative: the root spells the
    // leaves from left to right, whatever the order the workers folded in.
    let values: Vec<String> = "abcdefgh".chars().map(|c| c.to_string()).collect();
    for workers in [1, 2, 3, 8] {
        let (heap, mut pool, failures) =
            run_engine_with(3, 8, workers, &values, &|a: String, b: String| a + &b);
        assert_eq!(failures, 0);
        assert!(is_computation_complete(&heap));
        assert_eq!(get_root_result(&heap, &mut pool), Some("abcdefgh".to_string()));
    }
}

#[test]
fn leaf_step_in_two_halves() {
    let mut heap = TaskHeap::new(1);
    let mut pool = BlockPool::<u32>::new(1);
    let buf = match start_leaf(&mut heap, &mut pool, 2) {
        Ok(LeafStart::Started(b)) => b,
        _ => panic!("expected a start"),
    };
    assert_eq!(buf, 0);
    match heap.get(2) {
        Some(Task::Leaf(leaf)) => {
            assert_eq!(leaf.get_state(), leaf_state::PROCESSING);
            assert_eq!(leaf.get_buf_id(), Some(0));
        }
        _ => panic!("expected a leaf"),
    }
    // A second start of the same leaf is refused and changes nothing.
    let e = start_leaf(&mut heap, &mut pool, 2).unwrap_err();
    assert_eq!(e.message(), "Processing failed for task 2: Failed to start processing");
    assert_eq!(finish_leaf(&mut heap, &mut pool, 2, buf, Ok(8)).unwrap(), None);
    assert!(heap.is_ready(2));
    assert_eq!(heap.get_buf_id_if_ready(2), Some(0));
    // The other leaf fails to convert: it goes back to NOT_STARTED.
    let b1 = match start_leaf(&mut heap, &mut pool, 1) {
        Ok(LeafStart::Started(b)) => b,
        _ => panic!("expected a start"),
    };
    let e = finish_leaf(&mut heap, &mut pool, 1, b1, Err("x".to_string())).unwrap_err();
    assert_eq!(e.message(), "Processing failed for task 1: strict_to_acc failed: x");
    assert_eq!(pool.free_count(), 1);
    let b1 = match start_leaf(&mut heap, &mut pool, 1) {
        Ok(LeafStart::Started(b)) => b,
        _ => panic!("expected a start"),
    };
    assert_eq!(finish_leaf(&mut heap, &mut pool, 1, b1, Ok(4)).unwrap(), Some(0));
    // No buffer left.
    let mut heap2 = TaskHeap::new(2);
    assert_eq!(start_leaf(&mut heap2, &mut pool, 3).unwrap(), LeafStart::NoBuffer);
}
