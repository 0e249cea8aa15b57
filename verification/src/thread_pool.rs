//! The work-dispatcher interface.
//!
//! The store itself performs only short synchronous operations; a caller
//! that wants them off its own thread runs them through an implementation
//! of this trait. The store requires nothing of the dispatcher beyond "a
//! way to run a closure on another thread", so implementations live with
//! the callers that need them.

use vstd::prelude::*;
use crate::errors::KvsError;

verus! {

/// A simple thread pool: somewhere to run a closure.
pub trait ThreadPool: Sized {
    /// Creates a pool that runs jobs on up to `threads` worker threads.
    fn new(threads: u32) -> Result<Self, KvsError>;

    /// Schedules a job to run on some thread of the pool.
    fn spawn<T: FnOnce() + Send + 'static>(&self, job: T);
}

} // verus!
