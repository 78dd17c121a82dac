//! Folding schemes.

pub mod hypernova;
