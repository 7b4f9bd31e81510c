use crate::protocol::KvsError;
use vstd::prelude::*;

verus! {

/// A set of worker threads that run the jobs handed to them.
pub trait ThreadPool {
    /// A pool of `threads` workers.
    fn new(threads: u32) -> Result<Self, KvsError> where Self: Sized;

    /// Hands `job` to a worker.  A job that panics leaves the pool as large as
    /// it was.
    fn spawn<F>(&self, job: F) where F: FnOnce() + Send + 'static;
}

} // verus!
