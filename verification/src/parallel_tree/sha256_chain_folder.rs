//! Folding chains of SHA-256 hashes through the tree folder: its errors and
//! the check on the length of a chain.

use vstd::prelude::*;

use super::parallel_tree_folder::ParallelTreeError;
use crate::text::{decimal, with_index};
use vstd::arithmetic::power::pow;
use vstd::arithmetic::power2::{is_pow2, pow2};

verus! {

/// Failure of a SHA-256 chain fold.
#[derive(Debug)]
pub enum Sha256ChainError {
    /// Setup failed.
    SetupFailed(String),
    /// Invalid input.
    InvalidInput(String),
    /// The parallel tree computation failed.
    ParallelTreeFailed(ParallelTreeError),
}

impl From<ParallelTreeError> for Sha256ChainError {
    fn from(err: ParallelTreeError) -> (r: Self) {
        Sha256ChainError::ParallelTreeFailed(err)
    }
}

impl vstd::std_specs::convert::FromSpecImpl<ParallelTreeError> for Sha256ChainError {
    open spec fn obeys_from_spec() -> bool {
        true
    }

    open spec fn from_spec(v: ParallelTreeError) -> Self {
        Sha256ChainError::ParallelTreeFailed(v)
    }
}

/// Whether `n` is a power of two.
pub fn power_of_two(n: usize) -> (r: bool)
    ensures
        r == is_pow2(n as int),
{
    reveal(is_pow2);
    let mut m: usize = n;
    while m > 1 && m % 2 == 0
        invariant
            is_pow2(m as int) == is_pow2(n as int),
        decreases m,
    {
        proof {
            reveal(is_pow2);
        }
        m = m / 2;
    }
    m == 1
}

/// A chain of as many messages as a tree of `2^depth` leaves has passes the
/// count check.
pub proof fn lemma_tree_sized_chain_accepted(depth: nat)
    ensures
        is_pow2(pow2(depth) as int),
{
    vstd::arithmetic::power2::is_pow2_equiv(pow2(depth) as int);
    vstd::arithmetic::power::lemma_pow_positive(2, depth);
    assert(pow(2, depth) == pow2(depth) as int);
}

/// The check of a chain's length before it is folded: the chain must hold
/// at least one message, and a power of two of them, so that they fill the
/// leaves of a complete binary tree.
pub fn check_message_count(num_messages: usize) -> (r: Result<(), Sha256ChainError>)
    ensures
        num_messages == 0 ==> (r matches Err(Sha256ChainError::InvalidInput(m)) && m@
            == "Messages list cannot be empty"@),
        num_messages > 0 && !is_pow2(num_messages as int) ==> (r matches Err(
            Sha256ChainError::InvalidInput(m),
        ) && m@ == "Number of messages must be a power of 2, got "@ + decimal(num_messages as nat)),
        num_messages > 0 && is_pow2(num_messages as int) ==> r is Ok,
{
    if num_messages == 0 {
        return Err(Sha256ChainError::InvalidInput("Messages list cannot be empty".to_string()));
    }
    if !power_of_two(num_messages) {
        return Err(
            Sha256ChainError::InvalidInput(
                with_index("Number of messages must be a power of 2, got ", num_messages),
            ),
        );
    }
    Ok(())
}

} // verus!
