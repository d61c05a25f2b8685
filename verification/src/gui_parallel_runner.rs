use vstd::prelude::*;

verus! {

/// Admission control for front-end-triggered computations: at most
/// one task runs at a time.  This is the decision core alone; a
/// front end shares it behind its own lock and spawns the worker
/// thread after a successful acquisition, releasing on completion.
pub struct GuiParallelRunner {
    pub is_running: bool,
}

impl GuiParallelRunner {
    pub fn new() -> (r: GuiParallelRunner)
        ensures
            !r.is_running,
    {
        GuiParallelRunner { is_running: false }
    }

    /// Atomically decides admission: refuses when a task is already
    /// running, otherwise takes the slot.
    pub fn try_acquire(&mut self) -> (r: bool)
        ensures
            r == !old(self).is_running,
            final(self).is_running,
    {
        if self.is_running {
            return false;
        }
        self.is_running = true;
        true
    }

    /// Returns the slot when the running task finishes (or fails).
    pub fn release(&mut self)
        ensures
            !final(self).is_running,
    {
        self.is_running = false;
    }

    pub fn is_running(&self) -> (r: bool)
        ensures
            r == self.is_running,
    {
        self.is_running
    }
}

} // verus!
