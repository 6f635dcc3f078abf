//! Size of the worker pool used for data-parallel kernels.

use vstd::prelude::*;

verus! {

/// Calls `rayon::current_num_threads`. Per rayon-core's source the count is
/// the number of worker threads of the current pool (the global pool outside
/// any pool), built from a requested or default thread count that is at
/// least 1, so the result is at least 1. Which value comes back depends on
/// the machine and the environment and is not stated; the call panics when
/// the global pool cannot be created.
#[verifier::external_body]
fn current_num_threads() -> (n: usize)
    ensures
        n >= 1,
{
    rayon::current_num_threads()
}

/// Number of worker threads available to the data-parallel kernels.
pub fn num_threads() -> (n: usize)
    ensures
        n >= 1,
{
    current_num_threads()
}

} // verus!
