//! States of a leaf task.

use vstd::prelude::*;

verus! {

/// The leaf has not been picked up by any worker.
pub const NOT_STARTED: u32 = 0;
/// A worker owns the leaf and is converting its input.
pub const PROCESSING: u32 = 1;
/// The leaf's result sits in its buffer.
pub const READY: u32 = 2;
/// The parent is reading the leaf's result.
pub const BEING_CONSUMED: u32 = 3;
/// The parent has taken the result.
pub const CONSUMED: u32 = 4;

} // verus!
