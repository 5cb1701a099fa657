//! What the server asks of a worker pool.

use crate::error::KvError;
use vstd::prelude::*;

verus! {

/// A pool of worker threads that runs jobs handed to it.
///
/// Clones share one pool. A job that panics must not take a worker down
/// with it.
pub trait ThreadPool: Clone + Send + 'static {
    /// Starts a pool of `threads_num` workers; fails with `PoolBuild`
    /// where the threads cannot be created.
    fn new(threads_num: usize) -> Result<Self, KvError> where Self: Sized;

    /// Hands `job` to the pool and returns at once.
    fn spawn<F>(&self, job: F) where F: FnOnce() + Send + 'static;
}

} // verus!
