//! Tasks: their control blocks, identifiers and kernel stacks, the ready
//! queue and the processor that runs them.
pub mod action;
pub mod args;
pub mod budget;
pub mod context;
pub mod exec;
pub mod exit;
pub mod kernel;
pub mod lookup;
pub mod manager;
pub mod pid;
pub mod processor;
pub mod registers;
pub mod signal;
pub mod signals;
pub mod spawn;
pub mod task;
pub mod wait;

pub use action::{SignalAction, SignalActions};
pub use context::TaskContext;
pub use kernel::Kernel;
pub use manager::{add_task, fetch_task, TaskManager};
pub use processor::{current_task, take_current_task, Processor};
pub use signal::{SignalFlags, MAX_SIG};
pub use task::{TaskControlBlock, TaskControlBlockInner, TaskStatus};

use crate::mm::address::VirtPageNum;
use crate::mm::elf::{le64, spec_headers};
use crate::mm::frame_allocator::{with_words, zeros};
use crate::mm::loader::{max_end, program_space, user_stack_top};
use crate::mm::memory_set::TRAP_CONTEXT_VPN;
use crate::task::exit::exit_result;
use crate::task::kernel::same_but_status;
use crate::task::pid::kstack_top;
use crate::task::spawn::spawned;
use crate::trap::context::TrapContext;
use vstd::prelude::*;

verus! {

/// Takes the running task off the processor, puts it at the end of the
/// ready queue and runs the task at the front of the queue; see
/// `Kernel::suspend_current_and_run_next`.
pub fn suspend_current_and_run_next(kernel: &mut Kernel) -> (r: usize)
    requires
        old(kernel).wf(),
        old(kernel).processor.current is Some,
    ensures
        final(kernel).wf(),
        final(kernel).res == old(kernel).res,
        final(kernel).initproc == old(kernel).initproc,
        final(kernel).ticks == old(kernel).ticks,
        final(kernel).tasks@.len() == old(kernel).tasks@.len(),
        r == old(kernel).manager.ready_queue@.push(old(kernel).processor.current->Some_0)[0],
        final(kernel).processor.current == Some(r),
        final(kernel).manager.ready_queue@ == old(kernel).manager.ready_queue@.push(
            old(kernel).processor.current->Some_0,
        ).subrange(1, old(kernel).manager.ready_queue@.len() as int + 1),
        Kernel::only_status_changed(old(kernel), final(kernel)),
        final(kernel).status(r) == TaskStatus::Running,
        r != old(kernel).processor.current->Some_0 ==> final(kernel).status(
            old(kernel).processor.current->Some_0,
        ) == TaskStatus::Ready,
{
    kernel.suspend_current_and_run_next()
}

/// Ends the running task with the exit code `exit_code` and runs the
/// task at the front of the ready queue; see
/// `Kernel::exit_current_and_run_next`.
pub fn exit_current_and_run_next(kernel: &mut Kernel, exit_code: i32) -> (r: Option<usize>)
    requires
        old(kernel).wf(),
        old(kernel).exit_ready(),
    ensures
        final(kernel).wf(),
        exit_result(
            old(kernel),
            final(kernel),
            old(kernel).processor.current->Some_0,
            exit_code,
            r,
        ),
{
    kernel.exit_current_and_run_next(exit_code)
}

/// Makes the initial task from the program in the ELF file `elf_data` and
/// puts it at the end of the ready queue; see `Kernel::add_initproc`.
pub fn add_initproc(kernel: &mut Kernel, elf_data: &[u8])
    requires
        old(kernel).booted(),
        old(kernel).startable(elf_data@),
    ensures
        final(kernel).wf(),
        final(kernel).initproc == old(kernel).res.pid_allocator.next_pid(),
        spawned(old(kernel), final(kernel), final(kernel).initproc, None),
        program_space(
            &final(kernel).task(final(kernel).initproc).inner.memory_set,
            elf_data@,
            old(kernel).res.strampoline,
        ),
        final(kernel).task(final(kernel).initproc).inner.trap_cx_words() == TrapContext::spec_app_init(
            le64(elf_data@, 24),
            user_stack_top(max_end(spec_headers(elf_data@))),
            (8u64 << 60) | old(kernel).res.kernel_space.page_table.root_ppn.0,
            kstack_top(final(kernel).initproc),
            old(kernel).res.trap_handler,
            old(kernel).res.sstatus,
        ),
        final(kernel).task(final(kernel).initproc).inner.memory_set.page(
            VirtPageNum(TRAP_CONTEXT_VPN),
        ) == with_words(
            zeros(4096),
            0,
            final(kernel).task(final(kernel).initproc).inner.trap_cx_words(),
        ),
        final(kernel).task(final(kernel).initproc).inner.fd_table@.len() == 3,
        final(kernel).task(final(kernel).initproc).inner.exit_code == 0,
        final(kernel).tasks@.len() == if old(kernel).tasks@.len() > final(kernel).initproc {
            old(kernel).tasks@.len() as int
        } else {
            final(kernel).initproc + 1
        },
{
    kernel.add_initproc(elf_data);
}

/// One turn of the idle loop; see `Kernel::run_tasks`.
pub fn run_tasks(kernel: &mut Kernel) -> (r: Option<usize>)
    requires
        old(kernel).wf(),
        old(kernel).processor.current is None,
    ensures
        final(kernel).wf(),
        final(kernel).res == old(kernel).res,
        final(kernel).initproc == old(kernel).initproc,
        final(kernel).ticks == old(kernel).ticks,
        final(kernel).tasks@.len() == old(kernel).tasks@.len(),
        old(kernel).manager.ready_queue@.len() == 0 ==> r is None && *final(kernel) == *old(kernel),
        old(kernel).manager.ready_queue@.len() > 0 ==> {
            let p = old(kernel).manager.ready_queue@[0];
            &&& r == Some(p)
            &&& final(kernel).processor.current == Some(p)
            &&& final(kernel).manager.ready_queue@ == old(kernel).manager.ready_queue@.subrange(
                1,
                old(kernel).manager.ready_queue@.len() as int,
            )
            &&& final(kernel).live(p)
            &&& final(kernel).status(p) == TaskStatus::Running
            &&& same_but_status(&old(kernel).task(p), &final(kernel).task(p))
            &&& forall|q: int|
                0 <= q < old(kernel).tasks@.len() && q != p ==> #[trigger] final(kernel).tasks@[q]
                    == old(kernel).tasks@[q]
        },
{
    kernel.run_tasks()
}

} // verus!
