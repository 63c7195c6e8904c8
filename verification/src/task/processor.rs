//! The processor: the task that runs on it, and the context of the idle
//! loop that picks the next task.
use crate::task::context::TaskContext;
use vstd::prelude::*;

verus! {

/// The state of the one processor.
pub struct Processor {
    /// Identifier of the task on the processor, if there is one.
    pub current: Option<usize>,
    /// The saved context of the idle loop.
    pub idle_task_cx: TaskContext,
}

impl Processor {
    /// A processor that runs no task; the context of its idle loop is a
    /// context of zeros, to be filled by the first switch to a task.
    pub fn new() -> (r: Self)
        ensures
            r.current is None,
            r.idle_task_cx.ra == 0,
            r.idle_task_cx.sp == 0,
            forall|i: int| 0 <= i < 12 ==> r.idle_task_cx.s@[i] == 0,
    {
        Self { current: None, idle_task_cx: TaskContext::zero_init() }
    }

    /// Takes the running task off the processor.
    pub fn take_current(&mut self) -> (r: Option<usize>)
        ensures
            r == old(self).current,
            final(self).current is None,
            final(self).idle_task_cx == old(self).idle_task_cx,
    {
        self.current.take()
    }

    /// The running task.
    pub fn current(&self) -> (r: Option<usize>)
        ensures
            r == self.current,
    {
        self.current
    }
}

/// Takes the running task off `processor`.
pub fn take_current_task(processor: &mut Processor) -> (r: Option<usize>)
    ensures
        r == old(processor).current,
        final(processor).current is None,
        final(processor).idle_task_cx == old(processor).idle_task_cx,
{
    processor.take_current()
}

/// The task that runs on `processor`.
pub fn current_task(processor: &Processor) -> (r: Option<usize>)
    ensures
        r == processor.current,
{
    processor.current()
}

} // verus!
