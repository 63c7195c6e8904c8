//! The queue of the tasks that are ready to run.
use std::collections::VecDeque;
use vstd::prelude::*;

verus! {

/// The tasks that wait for the processor, by identifier, in the order in
/// which they run.
pub struct TaskManager {
    /// The identifiers of the ready tasks, the next to run first.
    pub ready_queue: VecDeque<usize>,
}

impl TaskManager {
    /// A manager with no ready task.
    pub fn new() -> (r: Self)
        ensures
            r.ready_queue@.len() == 0,
    {
        Self { ready_queue: VecDeque::new() }
    }

    /// Puts `task` at the end of the queue.
    pub fn add(&mut self, task: usize)
        ensures
            final(self).ready_queue@ == old(self).ready_queue@.push(task),
    {
        self.ready_queue.push_back(task);
    }

    /// Takes the task at the front of the queue, if there is one.
    pub fn fetch(&mut self) -> (r: Option<usize>)
        ensures
            old(self).ready_queue@.len() == 0 ==> r is None && final(self).ready_queue@ == old(self).ready_queue@,
            old(self).ready_queue@.len() > 0 ==> r == Some(old(self).ready_queue@[0]) && final(self).ready_queue@ == old(self).ready_queue@.subrange(
                1,
                old(self).ready_queue@.len() as int,
            ),
    {
        self.ready_queue.pop_front()
    }
}

/// Puts `task` at the end of the ready queue of `manager`.
pub fn add_task(manager: &mut TaskManager, task: usize)
    ensures
        final(manager).ready_queue@ == old(manager).ready_queue@.push(task),
{
    manager.add(task);
}

/// Takes the task at the front of the ready queue of `manager`, if there
/// is one.
pub fn fetch_task(manager: &mut TaskManager) -> (r: Option<usize>)
    ensures
        old(manager).ready_queue@.len() == 0 ==> r is None && final(manager).ready_queue@ == old(manager).ready_queue@,
        old(manager).ready_queue@.len() > 0 ==> r == Some(old(manager).ready_queue@[0]) && final(manager).ready_queue@ == old(manager).ready_queue@.subrange(
            1,
            old(manager).ready_queue@.len() as int,
        ),
{
    manager.fetch()
}

} // verus!
