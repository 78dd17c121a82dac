//! Card shuffling: witness preparation for the radix-sort shuffle.

pub mod rs_shuffle;
