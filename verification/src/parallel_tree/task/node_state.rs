//! States of an inner node task.

use vstd::prelude::*;

verus! {

/// Neither child has reported.
pub const NOT_STARTED: u32 = 0;
/// One child has reported; waiting for the other.
pub const WAITING_ONE_CHILD: u32 = 1;
/// Both children have reported; the node can be folded.
pub const WAITING_BOTH_CHILDREN: u32 = 2;
/// A worker is folding the children.
pub const PROCESSING: u32 = 3;
/// The node's result sits in its buffer.
pub const READY: u32 = 4;
/// The parent is reading the node's result.
pub const BEING_CONSUMED: u32 = 5;
/// The parent has taken the result.
pub const CONSUMED: u32 = 6;

} // verus!
