//! The signals of the running task.
use crate::mm::access::same_shape;
use crate::task::exit::exit_result;
use crate::task::kernel::Kernel;
use crate::task::signal::{spec_check_error, SignalFlags};
use crate::task::task::TaskControlBlock;
use vstd::prelude::*;

verus! {

/// Two tasks that differ at most in the signals that were sent to them.
pub open spec fn same_but_signals(a: &TaskControlBlock, b: &TaskControlBlock) -> bool {
    &&& a.pid == b.pid
    &&& a.kernel_stack == b.kernel_stack
    &&& a.inner.task_cx == b.inner.task_cx
    &&& a.inner.task_status == b.inner.task_status
    &&& a.inner.trap_cx_ppn == b.inner.trap_cx_ppn
    &&& a.inner.base_size == b.inner.base_size
    &&& a.inner.memory_set == b.inner.memory_set
    &&& a.inner.parent == b.inner.parent
    &&& a.inner.children == b.inner.children
    &&& a.inner.exit_code == b.inner.exit_code
    &&& a.inner.fd_table == b.inner.fd_table
    &&& a.inner.signal_mask == b.inner.signal_mask
    &&& a.inner.handling_sig == b.inner.handling_sig
    &&& a.inner.signal_actions == b.inner.signal_actions
    &&& a.inner.killed == b.inner.killed
    &&& a.inner.frozen == b.inner.frozen
    &&& a.inner.trap_ctx_backup == b.inner.trap_ctx_backup
}

/// What sending the signals `signal` to the task `p` makes of the
/// kernel: the task has them beside the signals that it had; all else is as
/// it was.
pub open spec fn signal_added(before: &Kernel, after: &Kernel, p: usize, signal: SignalFlags) -> bool {
    &&& after.res == before.res
    &&& after.manager == before.manager
    &&& after.processor == before.processor
    &&& after.initproc == before.initproc
    &&& after.ticks == before.ticks
    &&& after.tasks@.len() == before.tasks@.len()
    &&& forall|q: int|
        0 <= q < before.tasks@.len() && q != p ==> #[trigger] after.tasks@[q] == before.tasks@[q]
    &&& after.live(p)
    &&& same_but_signals(&before.task(p), &after.task(p))
    &&& after.task(p).inner.signals.bits == before.task(p).inner.signals.bits | signal.bits
}

impl Kernel {
    /// Sends the signals `signal` to the running task.
    pub fn current_add_signal(&mut self, signal: SignalFlags)
        requires
            old(self).wf(),
            old(self).processor.current is Some,
        ensures
            final(self).wf(),
            signal_added(old(self), final(self), old(self).processor.current->Some_0, signal),
    {
        proof {
            Self::lemma_current(old(self));
        }
        let p = match self.processor.current {
            Some(p) => p,
            None => 0,
        };
        let slot = self.tasks[p].take();
        match slot {
            Some(mut t) => {
                t.inner.signals = t.inner.signals.union(signal);
                self.tasks[p] = Some(t);
            },
            None => {},
        }
        proof {
            let s0 = old(self).task(p).inner.memory_set;
            assert(same_shape(&s0, &self.task(p).inner.memory_set)) by {
                reveal(same_shape);
            }
            Self::lemma_standing_change(old(self), self, p);
        }
    }

    /// The exit code and the message for the first fatal signal that was
    /// sent to the running task, or nothing where it got none.
    pub fn check_signals_error_of_current(&self) -> (r: Option<(i32, &'static str)>)
        requires
            self.wf(),
            self.processor.current is Some,
        ensures
            match r {
                Some((code, text)) => spec_check_error(
                    self.task(self.processor.current->Some_0).inner.signals.bits,
                ) == Some((code, text@)),
                None => spec_check_error(
                    self.task(self.processor.current->Some_0).inner.signals.bits,
                ) is None,
            },
    {
        proof {
            Self::lemma_current(self);
        }
        match self.processor.current {
            Some(p) => match &self.tasks[p] {
                Some(t) => t.inner.signals.check_error(),
                None => None,
            },
            None => None,
        }
    }

    /// Looks at the signals of the running task on the way back to user
    /// mode. A task that got a fatal signal is ended with the exit code of
    /// the signal, and the next task runs; the code and the message of the
    /// signal are the result, for the log. The initial task is not ended:
    /// the kernel stays as it is, and it is for the caller to stop. Without
    /// a fatal signal nothing happens.
    pub fn handle_fatal_signal(&mut self) -> (r: Option<(i32, &'static str)>)
        requires
            old(self).wf(),
            old(self).processor.current is Some,
        ensures
            final(self).wf(),
            match spec_check_error(
                old(self).task(old(self).processor.current->Some_0).inner.signals.bits,
            ) {
                None => r is None && *final(self) == *old(self),
                Some((code, text)) => r is Some && r->Some_0.0 == code && r->Some_0.1@ == text
                    && if old(self).exit_ready() {
                    exit_result(
                        old(self),
                        final(self),
                        old(self).processor.current->Some_0,
                        code,
                        final(self).processor.current,
                    )
                } else {
                    *final(self) == *old(self)
                },
            },
    {
        match self.check_signals_error_of_current() {
            None => None,
            Some((code, text)) => {
                if self.can_exit() {
                    self.exit_current_and_run_next(code);
                }
                Some((code, text))
            },
        }
    }
}

} // verus!
