//! Thread pools for the server's connection handling.

use vstd::prelude::*;

pub mod naive;

pub use naive::NaiveThreadPool;

verus! {

/// A pool that runs jobs handed to it. Implementations live with the
/// callers that own the threads; nothing is promised of when or where a job
/// runs.
pub trait ThreadPool: Sized {
    /// Creates a pool with capacity for `threads` concurrent jobs.
    fn new(threads: u32) -> Result<Self, crate::KvsError>;

    /// Hands a job to the pool.
    fn spawn<F: FnOnce() + Send + 'static>(&self, job: F);
}

} // verus!
