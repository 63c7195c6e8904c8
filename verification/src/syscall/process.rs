//! The system calls on tasks.
use crate::mm::address::VirtPageNum;
use crate::mm::elf::{le64, spec_headers};
use crate::mm::frame_allocator::{with_words, zeros};
use crate::mm::loader::{max_end, program_layout, user_stack_top};
use crate::mm::memory_set::TRAP_CONTEXT_VPN;
use crate::task::args::{arg_seqs, args_low, args_on_stack, args_sp, clear_below, stack_image};
use crate::task::exec::execed;
use crate::task::exit::exit_result;
use crate::task::kernel::Kernel;
use crate::task::pid::kstack_top;
use crate::task::spawn::spawned;
use crate::task::task::FileRef;
use crate::task::wait::{reaped, waitpid_result};
use crate::trap::context::TrapContext;
use vstd::prelude::*;

verus! {

/// Ends the running task with the exit code `exit_code` and runs the
/// next task. Gives the identifier of the task that runs now, if there is
/// one; the call does not return to the task that made it.
pub fn sys_exit(kernel: &mut Kernel, exit_code: i32) -> (r: Option<usize>)
    requires
        old(kernel).wf(),
        old(kernel).exit_ready(),
    ensures
        final(kernel).wf(),
        exit_result(
            old(kernel),
            final(kernel),
            old(kernel).processor.current->Some_0,
            exit_code,
            r,
        ),
{
    kernel.exit_current_and_run_next(exit_code)
}

/// The diagnostic call on the tasks: it changes nothing and returns zero.
pub fn sys_taskinfo() -> (r: isize)
    ensures
        r == 0,
{
    0
}

/// Gives up the processor: the running task goes to the end of the ready
/// queue and the task at the front of the queue runs. The call returns
/// zero to the task that made it.
pub fn sys_yield(kernel: &mut Kernel) -> (r: isize)
    requires
        old(kernel).wf(),
        old(kernel).processor.current is Some,
    ensures
        final(kernel).wf(),
        r == 0,
        Kernel::only_status_changed(old(kernel), final(kernel)),
        final(kernel).processor.current == Some(
            old(kernel).manager.ready_queue@.push(old(kernel).processor.current->Some_0)[0],
        ),
        final(kernel).manager.ready_queue@ == old(kernel).manager.ready_queue@.push(
            old(kernel).processor.current->Some_0,
        ).subrange(1, old(kernel).manager.ready_queue@.len() as int + 1),
        final(kernel).ticks == old(kernel).ticks,
{
    kernel.suspend_current_and_run_next();
    0
}

/// The time since the start of the machine in milliseconds, from the
/// value of the timer.
pub fn sys_get_time(kernel: &Kernel) -> (r: isize)
    ensures
        r == (kernel.ticks / 12500) as isize,
{
    let ms: u64 = kernel.ticks / (crate::config::CLOCK_FREQ / 1000);
    #[verifier::truncate]
    (ms as isize)
}

/// The identifier of the running task.
pub fn sys_getpid(kernel: &Kernel) -> (r: isize)
    requires
        kernel.wf(),
        kernel.processor.current is Some,
    ensures
        r == kernel.processor.current->Some_0,
{
    proof {
        Kernel::lemma_current(kernel);
        Kernel::lemma_task(kernel, kernel.processor.current->Some_0);
    }
    match kernel.processor.current {
        Some(p) => p as isize,
        None => 0,
    }
}

/// Makes a child of the running task, which sees zero as the result of
/// the call. Gives the identifier of the child, the result of the call for
/// the task that made it.
pub fn sys_fork(kernel: &mut Kernel) -> (r: isize)
    requires
        old(kernel).wf(),
        old(kernel).forkable(),
    ensures
        final(kernel).wf(),
        r == old(kernel).res.pid_allocator.next_pid(),
        spawned(old(kernel), final(kernel), r as usize, old(kernel).processor.current),
        final(kernel).task(r as usize).inner.trap_cx_words() == old(kernel).task(
            old(kernel).processor.current->Some_0,
        ).inner.trap_cx_words().update(35, kstack_top(r as usize)).update(10, 0),
        final(kernel).task(r as usize).inner.memory_set.page(VirtPageNum(TRAP_CONTEXT_VPN))
            == with_words(
            old(kernel).task(old(kernel).processor.current->Some_0).inner.memory_set.page(
                VirtPageNum(TRAP_CONTEXT_VPN),
            ),
            0,
            old(kernel).task(old(kernel).processor.current->Some_0).inner.trap_cx_words().update(
                35,
                kstack_top(r as usize),
            ).update(10, 0),
        ),
{
    let c = kernel.fork_current();
    c as isize
}

/// Replaces the program of the running task by the program in the ELF
/// file `elf_data`, started with the arguments `args`. Gives the number of
/// arguments.
pub fn sys_exec(kernel: &mut Kernel, elf_data: &[u8], args: Vec<String>) -> (r: isize)
    requires
        old(kernel).wf(),
        old(kernel).exec_ready(elf_data@, args@),
    ensures
        final(kernel).wf(),
        r == args@.len(),
        execed(old(kernel), final(kernel), old(kernel).processor.current->Some_0),
        program_layout(
            &final(kernel).task(old(kernel).processor.current->Some_0).inner.memory_set,
            elf_data@,
            old(kernel).res.strampoline,
        ),
        args_on_stack(
            stack_image(
                &final(kernel).task(old(kernel).processor.current->Some_0).inner.memory_set,
                user_stack_top(max_end(spec_headers(elf_data@))),
            ),
            (user_stack_top(max_end(spec_headers(elf_data@))) - 8192) as u64,
            arg_seqs(args@),
        ),
        clear_below(
            stack_image(
                &final(kernel).task(old(kernel).processor.current->Some_0).inner.memory_set,
                user_stack_top(max_end(spec_headers(elf_data@))),
            ),
            args_low(arg_seqs(args@)),
        ),
        final(kernel).task(old(kernel).processor.current->Some_0).inner.memory_set.page(
            VirtPageNum(TRAP_CONTEXT_VPN),
        ) == with_words(
            zeros(4096),
            0,
            final(kernel).task(old(kernel).processor.current->Some_0).inner.trap_cx_words(),
        ),
        final(kernel).task(old(kernel).processor.current->Some_0).inner.trap_cx_words()
            == TrapContext::spec_app_init(
            le64(elf_data@, 24),
            args_sp(user_stack_top(max_end(spec_headers(elf_data@))), arg_seqs(args@)),
            (8u64 << 60) | old(kernel).res.kernel_space.page_table.root_ppn.0,
            kstack_top(old(kernel).processor.current->Some_0),
            old(kernel).res.trap_handler,
            old(kernel).res.sstatus,
        ).update(10, args@.len() as u64).update(
            11,
            (user_stack_top(max_end(spec_headers(elf_data@))) - 8 * (args@.len() + 1)) as u64,
        ),
{
    kernel.exec_current(elf_data, args)
}

/// Waits for a child of the running task; see
/// `Kernel::waitpid_current`.
pub fn sys_waitpid(kernel: &mut Kernel, pid: isize, exit_code_ptr: u64) -> (r: isize)
    requires
        old(kernel).wf(),
        old(kernel).wait_ready(pid, exit_code_ptr),
    ensures
        final(kernel).wf(),
        r == waitpid_result(old(kernel), old(kernel).processor.current->Some_0, pid),
        r < 0 ==> *final(kernel) == *old(kernel),
        r >= 0 ==> reaped(
            old(kernel),
            final(kernel),
            old(kernel).processor.current->Some_0,
            r as usize,
            exit_code_ptr,
        ),
{
    kernel.waitpid_current(pid, exit_code_ptr)
}

/// The file that a write to the descriptor `fd` of the running task goes
/// to: the open file of that descriptor, unless it is the console for
/// reading, which cannot be written. Nothing where there is no such file.
pub open spec fn write_target(kernel: &Kernel, fd: usize) -> Option<FileRef> {
    let table = kernel.task(kernel.processor.current->Some_0).inner.fd_table@;
    if fd < table.len() && table[fd as int] is Some && table[fd as int] != Some(FileRef::Stdin) {
        table[fd as int]
    } else {
        None
    }
}

/// Whether the running task can write the `len` bytes at `buf` to the
/// descriptor `fd`: a task runs, and where the descriptor names a file that
/// can be written, every byte of the buffer lies in a page of the task that
/// has a frame, and the number of bytes can be the result of the call.
pub open spec fn write_ready(kernel: &Kernel, fd: usize, buf: u64, len: usize) -> bool {
    &&& kernel.processor.current is Some
    &&& write_target(kernel, fd) is Some ==> len <= isize::MAX && kernel.task(
        kernel.processor.current->Some_0,
    ).inner.memory_set.buffer_backed(buf, len as int)
}

/// The file that a write to the descriptor `fd` of the running task goes
/// to, if there is one.
pub fn write_file(kernel: &Kernel, fd: usize) -> (r: Option<FileRef>)
    requires
        kernel.wf(),
        kernel.processor.current is Some,
    ensures
        r == write_target(kernel, fd),
{
    proof {
        Kernel::lemma_current(kernel);
    }
    match kernel.processor.current {
        Some(p) => match &kernel.tasks[p] {
            Some(t) => {
                if fd < t.inner.fd_table.len() {
                    match t.inner.fd_table[fd] {
                        Some(FileRef::Stdin) => None,
                        Some(FileRef::Stdout) => Some(FileRef::Stdout),
                        Some(FileRef::Open(n)) => Some(FileRef::Open(n)),
                        None => None,
                    }
                } else {
                    None
                }
            },
            None => None,
        },
        None => None,
    }
}

/// Whether the running task can write the `len` bytes at `buf` to the
/// descriptor `fd`.
pub fn can_write(kernel: &Kernel, fd: usize, buf: u64, len: usize) -> (r: bool)
    requires
        kernel.wf(),
    ensures
        r == write_ready(kernel, fd, buf, len),
{
    let p = match kernel.processor.current {
        Some(p) => p,
        None => {
            return false;
        },
    };
    proof {
        Kernel::lemma_current(kernel);
        Kernel::lemma_task(kernel, p);
    }
    if write_file(kernel, fd).is_none() {
        return true;
    }
    if len > isize::MAX as usize {
        return false;
    }
    match &kernel.tasks[p] {
        Some(t) => t.inner.memory_set.is_buffer_backed(buf, len),
        None => false,
    }
}

/// Writes the `len` bytes at `buf` of the running task to its descriptor
/// `fd`. Gives the result of the call and what is to be put out: where the
/// descriptor names no file that can be written, -1 and nothing; else the
/// number of bytes, and the file with the bytes of the buffer, which the
/// caller puts out. The kernel stays as it is.
pub fn sys_write(kernel: &Kernel, fd: usize, buf: u64, len: usize) -> (r: (
    isize,
    Option<(FileRef, Vec<u8>)>,
))
    requires
        kernel.wf(),
        write_ready(kernel, fd, buf, len),
    ensures
        match write_target(kernel, fd) {
            None => r.0 == -1 && r.1 is None,
            Some(file) => r.0 == len && r.1 is Some && r.1->Some_0.0 == file && r.1->Some_0.1@
                == kernel.task(kernel.processor.current->Some_0).inner.memory_set.buffer_bytes(
                buf,
                len as int,
            ),
        },
{
    let p = match kernel.processor.current {
        Some(p) => p,
        None => 0,
    };
    proof {
        Kernel::lemma_current(kernel);
        Kernel::lemma_task(kernel, p);
    }
    match write_file(kernel, fd) {
        None => (-1, None),
        Some(file) => {
            let bytes = match &kernel.tasks[p] {
                Some(t) => t.inner.memory_set.read_buffer(buf, len),
                None => Vec::new(),
            };
            (len as isize, Some((file, bytes)))
        },
    }
}

} // verus!
