//! Bit extraction for the split bits, and whole-shuffle witness preparation.

use nova_tree::shuffling::rs_shuffle::data_structures::SortedRow;
use nova_tree::shuffling::rs_shuffle::witness_preparation::{
    build_level, bytes_to_bits, find_msb_position, prepare_witness_levels, push_bits_except_msb,
};

#[test]
fn bytes_to_bits_least_significant_first() {
    assert_eq!(bytes_to_bits(&[]), Vec::<bool>::new());
    assert_eq!(
        bytes_to_bits(&[0b0000_0101]),
        vec![true, false, true, false, false, false, false, false]
    );
    let bits = bytes_to_bits(&[0x00, 0x80]);
    assert_eq!(bits.len(), 16);
    assert!(bits[15]);
    assert!(bits[..15].iter().all(|b| !b));
}

#[test]
fn msb_position_is_the_highest_set_bit() {
    assert_eq!(find_msb_position(&[]), 0);
    assert_eq!(find_msb_position(&[false, false, false]), 0);
    assert_eq!(find_msb_position(&[true, false, false]), 0);
    assert_eq!(find_msb_position(&[true, true, false, true, false]), 3);
    assert_eq!(find_msb_position(&bytes_to_bits(&[0x00, 0x10])), 12);
}

#[test]
fn push_bits_skips_the_msb_and_stops_at_n() {
    let mut level_bits = Vec::new();
    // 0b1101: msb at 3, kept bits 1,0,1.
    push_bits_except_msb(&mut level_bits, &[true, false, true, true], 10);
    assert_eq!(level_bits, vec![true, false, true]);
    // Only two more bits fit.
    push_bits_except_msb(&mut level_bits, &[false, true, true, false, true], 5);
    assert_eq!(level_bits, vec![true, false, true, false, true]);
    // Already full: nothing is added.
    push_bits_except_msb(&mut level_bits, &[true, true], 5);
    assert_eq!(level_bits.len(), 5);
    // All zeros: the bit at position 0 is dropped.
    let mut zeros = Vec::new();
    push_bits_except_msb(&mut zeros, &[false, false, false], 8);
    assert_eq!(zeros, vec![false, false]);
}

#[test]
fn prepare_witness_levels_chains_build_level() {
    let bits_mat: [[bool; 4]; 2] = [[true, false, true, false], [false, true, true, false]];
    let w = prepare_witness_levels::<4, 2>(&bits_mat);
    assert_eq!(w.bits_mat, bits_mat);

    let init: [SortedRow; 4] = std::array::from_fn(|i| SortedRow::new_with_bucket(i as u16, 4, 0));
    let (uns0, nxt0) = build_level::<4>(&init, &bits_mat[0]);
    let (uns1, nxt1) = build_level::<4>(&nxt0, &bits_mat[1]);
    assert_eq!(w.uns_levels[0], uns0);
    assert_eq!(w.next_levels[0], nxt0);
    assert_eq!(w.uns_levels[1], uns1);
    assert_eq!(w.next_levels[1], nxt1);

    // Level 0 puts the zeros (cards 1, 3) before the ones (cards 0, 2).
    let order0: Vec<u16> = nxt0.iter().map(|r| r.idx).collect();
    assert_eq!(order0, vec![1, 3, 0, 2]);
    let buckets0: Vec<u16> = nxt0.iter().map(|r| r.bucket).collect();
    assert_eq!(buckets0, vec![0, 0, 1, 1]);
    // Level 1 splits each bucket again: [1 | 3] and [2 | 0].
    let order1: Vec<u16> = nxt1.iter().map(|r| r.idx).collect();
    assert_eq!(order1, vec![1, 3, 2, 0]);

    // Every row's length is the size of its bucket in the next level.
    for level in [&nxt0, &nxt1] {
        for row in level.iter() {
            let size = level.iter().filter(|r| r.bucket == row.bucket).count();
            assert_eq!(row.length as usize, size);
        }
    }
}

#[test]
fn lengths_follow_uneven_buckets() {
    let init: [SortedRow; 6] = std::array::from_fn(|i| SortedRow::new_with_bucket(i as u16, 6, 0));
    let (_, nxt) = build_level::<6>(&init, &[true, false, false, true, false, false]);
    let lengths: Vec<u16> = nxt.iter().map(|r| r.length).collect();
    assert_eq!(lengths, vec![4, 4, 4, 4, 2, 2]);
    let (_, nxt2) = build_level::<6>(&nxt, &[true, true, false, true, false, true]);
    for row in nxt2.iter() {
        let size = nxt2.iter().filter(|r| r.bucket == row.bucket).count();
        assert_eq!(row.length as usize, size);
    }
}
