//! Buffer pool bookkeeping.

use nova_tree::parallel_tree::block_pool::BlockPool;
use std::collections::HashSet;

#[derive(Clone, Copy, Debug)]
struct Dummy;

/// Buffer-ID bookkeeping: every ID is unique, in-range, and the stack empties.
#[test]
fn block_pool_buffer_id_management() {
    let num_cores = 3;
    let mut pool = BlockPool::<Dummy>::new(num_cores);
    let num_blocks = num_cores * 2;

    let mut seen = HashSet::with_capacity(num_blocks);

    // Allocate until exhaustion.
    while let Some(handle) = pool.allocate() {
        let id = handle.into_id();
        assert!(seen.insert(id), "duplicate BufId {id}");
        assert!((id as usize) < num_blocks, "BufId out of range");
    }

    // We must have obtained exactly `num_blocks` unique IDs.
    assert_eq!(seen.len(), num_blocks);

    // Pool must now be exhausted – another alloc returns None.
    assert!(pool.allocate().is_none());

    // Clean-up: return the buffers.
    for id in seen {
        pool.free(id);
    }
}

/// End-to-end: allocate via `BufHandle`, write bytes, read them back.
#[derive(Clone, PartialEq, Eq, Debug)]
struct Pattern([u8; 32]);

#[test]
fn block_pool_bufhandle_write_read_roundtrip() {
    let mut pool = BlockPool::<Pattern>::new(1);

    let pattern = Pattern({
        let mut a = [0u8; 32];
        for i in 0..32 {
            a[i] = i as u8;
        }
        a
    });

    let handle = pool.allocate().expect("allocation failed");
    handle.write(&mut pool, pattern.clone());

    // Read back the value via a freshly claimed handle.
    let id = handle.into_id();
    let read_back = pool.claim(id).unwrap().read(&mut pool);
    assert_eq!(read_back, pattern);

    // Explicitly free the block.
    pool.free(id);

    // The pool should report the block as free again.
    assert!(pool.is_free(id));
}

#[test]
fn fresh_pool_hands_out_ids_from_zero() {
    let mut pool = BlockPool::<u8>::new(2);
    assert_eq!(pool.num_blocks(), 4);
    assert_eq!(pool.free_count(), 4);
    let ids: Vec<u32> = (0..4).map(|_| pool.allocate().unwrap().into_id()).collect();
    assert_eq!(ids, vec![0, 1, 2, 3]);
    assert_eq!(pool.free_count(), 0);
    // Freed ids come back in the order they were freed.
    pool.free(1);
    pool.free(3);
    assert_eq!(pool.allocate().unwrap().into_id(), 1);
    assert_eq!(pool.allocate().unwrap().into_id(), 3);
}

#[test]
fn claim_checks_the_range() {
    let pool = BlockPool::<u8>::new(1);
    assert_eq!(pool.claim(1).map(|h| h.into_id()), Some(1));
    assert!(pool.claim(2).is_none());
}

#[test]
fn is_free_and_release() {
    let mut pool = BlockPool::<u8>::new(1);
    assert!(!pool.is_free(5));
    let h = pool.allocate().unwrap();
    let id = h.into_id();
    assert!(!pool.is_free(id));
    let h = pool.claim(id).unwrap();
    h.write(&mut pool, 9);
    let h = pool.claim(id).unwrap();
    h.release(&mut pool);
    assert!(pool.is_free(id));
    assert_eq!(pool.free_count(), 2);
}

#[test]
fn is_free_keeps_the_free_list_order() {
    let mut pool = BlockPool::<u8>::new(2);
    assert!(pool.is_free(2));
    assert!(pool.is_free(0));
    let ids: Vec<u32> = (0..4).map(|_| pool.allocate().unwrap().into_id()).collect();
    assert_eq!(ids, vec![0, 1, 2, 3]);
}
