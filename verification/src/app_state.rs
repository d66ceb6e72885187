//! Global application state shared by background tasks.

use vstd::prelude::*;

verus! {

/// Bookkeeping for the number of background tasks in flight.  The
/// surrounding application mirrors this count in an atomic; the library
/// states how the count moves.
pub struct AppState {
    pub async_task_num: usize,
}

impl AppState {
    pub fn new() -> (r: Self)
        ensures
            r.async_task_num == 0,
    {
        AppState { async_task_num: 0 }
    }

    /// One more task has been handed to the background pool.
    pub fn task_started(&mut self)
        requires
            old(self).async_task_num < usize::MAX,
        ensures
            final(self).async_task_num == old(self).async_task_num + 1,
    {
        self.async_task_num = self.async_task_num + 1;
    }

    /// A background task has finished.
    pub fn task_finished(&mut self)
        requires
            old(self).async_task_num > 0,
        ensures
            final(self).async_task_num == old(self).async_task_num - 1,
    {
        self.async_task_num = self.async_task_num - 1;
    }
}

} // verus!
