//! The SHA-256 constraint system.

use vstd::prelude::*;

verus! {

/// Marker for the CCS that constrains one SHA-256 compression.
pub struct Sha256Constraint;

} // verus!
