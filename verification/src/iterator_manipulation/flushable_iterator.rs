use vstd::prelude::*;

verus! {

/// A pipeline stage that buffers items in a reprioritizing queue: the queue
/// can be emptied on demand, leaving the stage usable for whatever its input
/// still holds.
pub trait FlushableIterator<Item>: Sized {
    /// Whether the stage is in a flushable state.
    spec fn flush_ready(&self) -> bool;

    /// Hand out the queue's current contents in dequeue order; the input is
    /// not consulted.
    fn flush(&mut self) -> (r: Vec<Item>)
        requires
            old(self).flush_ready(),
        ensures
            final(self).flush_ready(),
    ;
}

} // verus!
