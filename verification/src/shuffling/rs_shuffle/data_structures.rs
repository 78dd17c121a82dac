//! Rows of the radix-sort shuffle witness.

use vstd::prelude::*;

verus! {

/// A row of a level's sorted array: the original card index, the length of
/// the bucket the row belongs to, and that bucket's id.
#[derive(Clone, Copy, Debug, PartialEq, Eq, Structural)]
pub struct SortedRow {
    pub idx: u16,
    pub length: u16,
    pub bucket: u16,
}

impl SortedRow {
    pub fn new_with_bucket(idx: u16, length: u16, bucket: u16) -> (r: Self)
        ensures
            r.idx == idx,
            r.length == length,
            r.bucket == bucket,
    {
        SortedRow { idx, length, bucket }
    }
}

/// A row of a level's unsorted array: the split bit of the row, the running
/// counts of zeros and ones before it in its run, the totals of its bucket,
/// the card index, the destination slot, and the bucket id.
#[derive(Clone, Copy, Debug, PartialEq, Eq, Structural)]
pub struct UnsortedRow {
    pub bit: bool,
    pub num_zeros: u16,
    pub num_ones: u16,
    pub num_zeros_in_bucket: u16,
    pub bucket_length: u16,
    pub idx: u16,
    pub next_pos: u16,
    pub bucket_id: u16,
}

impl UnsortedRow {
    pub fn new(
        bit: bool,
        num_zeros: u16,
        num_ones: u16,
        num_zeros_in_bucket: u16,
        bucket_length: u16,
        idx: u16,
        next_pos: u16,
        bucket_id: u16,
    ) -> (r: Self)
        ensures
            r.bit == bit,
            r.num_zeros == num_zeros,
            r.num_ones == num_ones,
            r.num_zeros_in_bucket == num_zeros_in_bucket,
            r.bucket_length == bucket_length,
            r.idx == idx,
            r.next_pos == next_pos,
            r.bucket_id == bucket_id,
    {
        UnsortedRow {
            bit,
            num_zeros,
            num_ones,
            num_zeros_in_bucket,
            bucket_length,
            idx,
            next_pos,
            bucket_id,
        }
    }
}

/// The witness of a whole shuffle: the split bits of every level, and every
/// level's unsorted and sorted tables.
pub struct WitnessData<const N: usize, const LEVELS: usize> {
    pub bits_mat: [[bool; N]; LEVELS],
    pub uns_levels: [[UnsortedRow; N]; LEVELS],
    pub next_levels: [[SortedRow; N]; LEVELS],
}

} // verus!
