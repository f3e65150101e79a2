//! The outbound task queue.
//!
//! Protocol handlers enqueue lifecycle events here; the external renderer
//! drains them in FIFO order, all currently queued tasks in one pass, once
//! per its own tick.  The queue has no bounded capacity and drops no task:
//! tasks accumulate until drained.  The mutual-exclusion discipline that
//! shares the queue with the renderer's thread is the embedder's concern;
//! this type supplies the FIFO behaviour it guards.

use vstd::prelude::*;

verus! {

use crate::types::WayVRTask;

/// A FIFO queue of lifecycle events, produced by protocol handlers and
/// consumed in batches by the external renderer.
pub struct TaskQueue {
    /// Queued tasks, oldest first.
    pub items: Vec<WayVRTask>,
}

impl TaskQueue {
    /// Creates an empty queue.
    pub fn new() -> (r: TaskQueue)
        ensures
            r.items@ =~= Seq::<WayVRTask>::empty(),
    {
        TaskQueue { items: Vec::new() }
    }

    /// Enqueues one task at the back. Non-blocking; never drops a task.
    pub fn send(&mut self, task: WayVRTask)
        ensures
            final(self).items@ == old(self).items@.push(task),
    {
        self.items.push(task);
    }

    /// Removes and returns all currently queued tasks in FIFO order in one
    /// pass; afterwards the queue is empty.  A second drain with nothing
    /// enqueued in between yields nothing.
    pub fn drain(&mut self) -> (r: Vec<WayVRTask>)
        ensures
            r@ == old(self).items@,
            final(self).items@ =~= Seq::<WayVRTask>::empty(),
    {
        let mut drained: Vec<WayVRTask> = Vec::new();
        std::mem::swap(&mut drained, &mut self.items);
        drained
    }

    /// How many tasks are queued.
    pub fn len(&self) -> (r: usize)
        ensures
            r == self.items@.len(),
    {
        self.items.len()
    }
}

} // verus!
