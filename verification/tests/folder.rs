//! Configuration of a tree fold, the scheduling arithmetic and the outcome
//! of a run.

use nova_tree::parallel_tree::parallel_tree_folder::{run_outcome, ParallelTreeError, ParallelTreeFolder};
use nova_tree::parallel_tree::scheduler::{leaf_assignments, leaf_worker_index, worker_count, LeafProducer};
use nova_tree::parallel_tree::sha256_chain_folder::{check_message_count, power_of_two, Sha256ChainError};

#[test]
fn test_folder_properties() {
    let folder = ParallelTreeFolder::with_workers(3, 4);

    assert_eq!(folder.depth(), 3);
    assert_eq!(folder.num_leaves(), 8); // 2^3
    assert_eq!(folder.num_workers(), 4);
}

#[test]
fn folder_pool_size_covers_workers_and_leaves() {
    // Four buffers per worker when that exceeds the leaf count.
    assert_eq!(ParallelTreeFolder::with_workers(3, 4).pool_size(), 16);
    // One per leaf otherwise.
    assert_eq!(ParallelTreeFolder::with_workers(8, 2).pool_size(), 256);
    assert_eq!(ParallelTreeFolder::with_workers(0, 0).pool_size(), 1);
}

#[test]
fn folder_new_uses_available_cpus() {
    let folder = ParallelTreeFolder::new(10);
    assert_eq!(folder.depth(), 10);
    assert_eq!(folder.num_leaves(), 1024);
    assert!(folder.num_workers() >= 1);
    assert!(folder.pool_size() >= 1024);
    assert!(folder.pool_size() >= folder.num_workers() * 4);
}

#[test]
fn run_outcome_cases() {
    assert_eq!(run_outcome(true, Some(10u32)), Ok(10));
    assert_eq!(run_outcome::<u32>(true, None), Err(ParallelTreeError::NoRootResult));
    assert_eq!(run_outcome(false, Some(10u32)), Err(ParallelTreeError::ComputationTimeout));
    assert_eq!(run_outcome::<u32>(false, None), Err(ParallelTreeError::ComputationTimeout));
}

#[test]
fn parallel_tree_error_messages() {
    assert_eq!(ParallelTreeError::PoolCreationFailed.message(), "Failed to create buffer pool");
    assert_eq!(ParallelTreeError::ComputationTimeout.message(), "Computation timed out");
    assert_eq!(ParallelTreeError::NoRootResult.message(), "No result available from root node");
}

#[test]
fn leaves_split_into_contiguous_chunks() {
    // 8 leaves over 3 workers: 0,0,0,1,1,1,2,2
    let expected = [0, 0, 0, 1, 1, 1, 2, 2];
    for (k, w) in expected.iter().enumerate() {
        assert_eq!(leaf_worker_index(k, 3, 8), *w);
    }
    // More workers than leaves.
    assert_eq!(leaf_worker_index(0, 8, 2), 0);
    assert_eq!(leaf_worker_index(1, 8, 2), 4);
    // One worker takes everything.
    assert_eq!(leaf_worker_index(5, 1, 8), 0);
}

#[test]
fn leaf_assignments_slots_and_queues() {
    let a = leaf_assignments(7, 8, 2, 8);
    assert_eq!(a, vec![(7, 0), (8, 0), (9, 0), (10, 0), (11, 1), (12, 1), (13, 1), (14, 1)]);
    // Fewer inputs than leaves.
    assert_eq!(leaf_assignments(3, 4, 4, 2), vec![(3, 0), (4, 1)]);
    // More inputs than leaves: the surplus is dropped.
    assert_eq!(leaf_assignments(1, 2, 1, 5), vec![(1, 0), (2, 0)]);
    assert_eq!(leaf_assignments(1, 2, 1, 0), vec![]);
}

#[test]
fn worker_count_is_at_least_one() {
    assert_eq!(worker_count(0), 1);
    assert_eq!(worker_count(1), 1);
    assert_eq!(worker_count(6), 6);
}

#[test]
fn leaf_producer_keeps_its_stream() {
    let p = LeafProducer::new(vec![3u8, 1, 2], 2);
    assert_eq!(p.into_stream(), vec![3, 1, 2]);
}

#[test]
fn powers_of_two() {
    assert!(!power_of_two(0));
    assert!(power_of_two(1));
    assert!(power_of_two(2));
    assert!(!power_of_two(3));
    assert!(power_of_two(64));
    assert!(!power_of_two(96));
    assert!(power_of_two(1 << 40));
    assert!(check_message_count(1 << 10).is_ok());
    assert!(!power_of_two(usize::MAX));
}

#[test]
fn chain_message_count_checks() {
    match check_message_count(0) {
        Err(Sha256ChainError::InvalidInput(m)) => assert_eq!(m, "Messages list cannot be empty"),
        _ => panic!("expected an empty-list error"),
    }
    match check_message_count(6) {
        Err(Sha256ChainError::InvalidInput(m)) => {
            assert_eq!(m, "Number of messages must be a power of 2, got 6")
        }
        _ => panic!("expected a power-of-two error"),
    }
    assert!(check_message_count(1).is_ok());
    assert!(check_message_count(64).is_ok());
}

#[test]
fn chain_error_from_tree_error() {
    let e: Sha256ChainError = ParallelTreeError::ComputationTimeout.into();
    assert!(matches!(e, Sha256ChainError::ParallelTreeFailed(ParallelTreeError::ComputationTimeout)));
}
