//! The simplest pool: no pooling at all.

use vstd::prelude::*;

verus! {

/// It is actually not a pool: a caller that owns threads runs each spawned
/// job on a fresh one. The type itself holds no state.
pub struct NaiveThreadPool;

impl NaiveThreadPool {
    /// Creating it never fails; the thread count is ignored.
    pub fn new(_threads: u32) -> (r: Result<NaiveThreadPool, crate::KvsError>)
        ensures
            r is Ok,
    {
        Ok(NaiveThreadPool)
    }
}

} // verus!
