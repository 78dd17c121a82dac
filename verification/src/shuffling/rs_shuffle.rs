//! Radix-sort shuffle: each level stably splits every bucket of rows by one
//! bit, zeros first.

pub mod data_structures;
pub mod witness_preparation;
