//! Configuration of a parallel tree fold: tree depth, worker count and the
//! number of payload buffers.

use vstd::prelude::*;

verus! {

/// `num_cpus::get`: the number of logical CPUs available to this process,
/// which its documentation promises is at least 1.
#[verifier::external_body]
fn available_cpus() -> (n: usize)
    ensures
        n >= 1,
{
    num_cpus::get()
}

/// Number of buffers a fold needs: four per worker, and at least one per
/// leaf.
pub open spec fn spec_pool_size(num_workers: nat, depth: nat) -> nat {
    vstd::math::max((num_workers * 4) as int, vstd::arithmetic::power2::pow2(depth) as int) as nat
}

/// Number of polls of the completion flag, one per millisecond, before a
/// run gives up.
pub const RUN_TIMEOUT_ITERATIONS: usize = 10000;

/// Parameters of a parallel fold over a complete binary tree of
/// `2^depth` leaves.
pub struct ParallelTreeFolder {
    depth: usize,
    num_workers: usize,
    pool_size: usize,
}

impl ParallelTreeFolder {
    pub closed spec fn spec_depth(&self) -> nat {
        self.depth as nat
    }

    pub closed spec fn spec_num_workers(&self) -> nat {
        self.num_workers as nat
    }

    pub closed spec fn spec_pool_size_field(&self) -> nat {
        self.pool_size as nat
    }

    /// The depth addresses a `usize` leaf count and the buffer count fits.
    pub open spec fn wf(&self) -> bool {
        &&& self.spec_depth() < usize::BITS
        &&& self.spec_num_workers() * 4 <= usize::MAX
        &&& self.spec_pool_size_field() == spec_pool_size(self.spec_num_workers(), self.spec_depth())
    }

    /// A fold with one worker per available CPU.  A count of CPUs above
    /// `usize::MAX / 4` is taken as `usize::MAX / 4`, so that the buffer
    /// count fits.
    pub fn new(depth: usize) -> (f: Self)
        requires
            depth < usize::BITS,
        ensures
            f.wf(),
            f.spec_depth() == depth,
            f.spec_num_workers() >= 1,
    {
        let cpus = available_cpus();
        let num_workers: usize = if cpus <= usize::MAX / 4 {
            cpus
        } else {
            usize::MAX / 4
        };
        Self::with_workers(depth, num_workers)
    }

    /// A fold with `num_workers` workers.
    pub fn with_workers(depth: usize, num_workers: usize) -> (f: Self)
        requires
            depth < usize::BITS,
            num_workers * 4 <= usize::MAX,
        ensures
            f.wf(),
            f.spec_depth() == depth,
            f.spec_num_workers() == num_workers,
    {
        let num_leaves = Self::leaves_of(depth);
        let by_workers: usize = num_workers * 4;
        let pool_size: usize = if by_workers >= num_leaves {
            by_workers
        } else {
            num_leaves
        };
        ParallelTreeFolder { depth, num_workers, pool_size }
    }

    fn leaves_of(depth: usize) -> (n: usize)
        requires
            depth < usize::BITS,
        ensures
            n == vstd::arithmetic::power2::pow2(depth as nat),
    {
        proof {
            vstd::bits::lemma_usize_pow2_no_overflow(depth as nat);
            vstd::bits::lemma_usize_shl_is_mul(1, depth);
        }
        1usize << depth
    }

    /// Number of leaves: `2^depth`.
    pub fn num_leaves(&self) -> (n: usize)
        requires
            self.wf(),
        ensures
            n == vstd::arithmetic::power2::pow2(self.spec_depth()),
    {
        Self::leaves_of(self.depth)
    }

    pub fn num_workers(&self) -> (n: usize)
        ensures
            n == self.spec_num_workers(),
    {
        self.num_workers
    }

    pub fn depth(&self) -> (n: usize)
        ensures
            n == self.spec_depth(),
    {
        self.depth
    }

    /// Number of buffers of the run's pool.
    pub fn pool_size(&self) -> (n: usize)
        ensures
            n == self.spec_pool_size_field(),
    {
        self.pool_size
    }
}

/// Failure of a parallel tree fold.
#[derive(Debug, Clone, Copy, PartialEq, Eq, Structural)]
pub enum ParallelTreeError {
    /// Failed to create the buffer pool.
    PoolCreationFailed,
    /// The computation did not complete within the timeout.
    ComputationTimeout,
    /// No result available from the root node.
    NoRootResult,
}

impl ParallelTreeError {
    /// The text of the error.
    pub open spec fn text(&self) -> Seq<char> {
        match self {
            ParallelTreeError::PoolCreationFailed => "Failed to create buffer pool"@,
            ParallelTreeError::ComputationTimeout => "Computation timed out"@,
            ParallelTreeError::NoRootResult => "No result available from root node"@,
        }
    }

    /// The text of the error.
    pub fn message(&self) -> (s: String)
        ensures
            s@ == self.text(),
    {
        match self {
            ParallelTreeError::PoolCreationFailed => "Failed to create buffer pool".to_string(),
            ParallelTreeError::ComputationTimeout => "Computation timed out".to_string(),
            ParallelTreeError::NoRootResult => "No result available from root node".to_string(),
        }
    }
}

/// Outcome of a run once polling stopped: a timeout when the computation
/// did not complete, otherwise the root's result or the lack of one.
pub fn run_outcome<P>(complete: bool, root: Option<P>) -> (r: Result<P, ParallelTreeError>)
    ensures
        !complete ==> r == Err::<P, ParallelTreeError>(ParallelTreeError::ComputationTimeout),
        complete ==> r == match root {
            Some(v) => Ok::<P, ParallelTreeError>(v),
            None => Err(ParallelTreeError::NoRootResult),
        },
{
    if !complete {
        return Err(ParallelTreeError::ComputationTimeout);
    }
    match root {
        Some(v) => Ok(v),
        None => Err(ParallelTreeError::NoRootResult),
    }
}

} // verus!
