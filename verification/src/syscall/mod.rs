//! The system calls that touch the tasks of the kernel.
pub mod process;

use crate::mm::address::VirtPageNum;
use crate::mm::frame_allocator::with_words;
use crate::mm::memory_set::TRAP_CONTEXT_VPN;
use crate::task::kernel::Kernel;
use crate::task::pid::kstack_top;
use crate::task::spawn::spawned;
use crate::task::wait::{reaped, waitpid_result};
use process::{
    can_write, sys_fork, sys_get_time, sys_getpid, sys_taskinfo, sys_waitpid, sys_write, sys_yield,
    write_ready, write_target,
};
use vstd::prelude::*;

verus! {

/// Number of the call that lists the tasks.
pub const SYSCALL_TASKINFO: usize = 22;

/// Number of the call that writes to a file.
pub const SYSCALL_WRITE: usize = 64;

/// Number of the call that ends the task.
pub const SYSCALL_EXIT: usize = 93;

/// Number of the call that gives up the processor.
pub const SYSCALL_YIELD: usize = 124;

/// Number of the call that reads the time.
pub const SYSCALL_GET_TIME: usize = 169;

/// Number of the call that gives the identifier of the task.
pub const SYSCALL_GETPID: usize = 172;

/// Number of the call that makes a child.
pub const SYSCALL_FORK: usize = 220;

/// Number of the call that replaces the program of the task.
pub const SYSCALL_EXEC: usize = 221;

/// Number of the call that waits for a child.
pub const SYSCALL_WAITPID: usize = 260;

/// Exit code of a task that the kernel ends because it asked for a
/// system call whose number is the number of no system call. It is not zero, so the parent sees
/// that the task did not end of its own accord.
pub const UNKNOWN_SYSCALL_EXIT_CODE: i32 = -1;

/// Whether `id` is the number of a system call that `syscall` knows:
/// task information, write, exit, yield, time, identifier, fork or wait.
pub open spec fn known_call(id: usize) -> bool {
    id == 22 || id == 64 || id == 93 || id == 124 || id == 169 || id == 172 || id == 220 || id
        == 260
}

/// Whether `id` is the number of a system call that `syscall` knows.
pub fn is_known_call(id: usize) -> (r: bool)
    ensures
        r == known_call(id),
{
    id == SYSCALL_TASKINFO || id == SYSCALL_WRITE || id == SYSCALL_EXIT || id == SYSCALL_YIELD
        || id == SYSCALL_GET_TIME || id == SYSCALL_GETPID || id == SYSCALL_FORK || id
        == SYSCALL_WAITPID
}

/// Whether `id` is the number of a system call of the kernel: one that
/// `syscall` knows, or one of duplicate, open, close, pipe, read, kill, the
/// three signal calls and exec, which work on files, signal handlers and
/// programs by name and are handled outside `syscall`.
pub open spec fn listed_call(id: usize) -> bool {
    known_call(id) || id == 24 || id == 56 || id == 57 || id == 59 || id == 63 || id == 129 || id
        == 134 || id == 135 || id == 139 || id == 221
}

/// Whether `id` is the number of a system call of the kernel.
pub fn is_listed_call(id: usize) -> (r: bool)
    ensures
        r == listed_call(id),
{
    is_known_call(id) || id == 24 || id == 56 || id == 57 || id == 59 || id == 63 || id == 129
        || id == 134 || id == 135 || id == 139 || id == 221
}

/// Whether `syscall` handles the call with number `id` and arguments
/// `args` in the state `kernel`: a task runs; the number is one that
/// `syscall` knows, or the number of no system call at all; the initial
/// task does not end, neither by exit nor by a call that does not exist; a
/// call that writes has its buffer in pages of the task; a call that forks
/// finds an identifier and the frames for the child; and a call that waits
/// and finds a child that ended has a place for its exit code.
pub open spec fn syscall_ok(kernel: &Kernel, id: usize, args: [usize; 3]) -> bool {
    &&& kernel.processor.current is Some
    &&& known_call(id) || !listed_call(id)
    &&& !listed_call(id) ==> kernel.exit_ready()
    &&& id == 64 ==> write_ready(kernel, args[0], args[1] as u64, args[2])
    &&& id == 93 ==> kernel.exit_ready()
    &&& id == 220 ==> kernel.forkable()
    &&& id == 260 ==> kernel.wait_ready(args[0] as isize, args[1] as u64)
}

/// Whether `syscall` handles the call with number `id` and arguments
/// `args` in the state `kernel`.
pub fn can_syscall(kernel: &Kernel, id: usize, args: [usize; 3]) -> (r: bool)
    requires
        kernel.wf(),
    ensures
        r == syscall_ok(kernel, id, args),
{
    if kernel.processor.current.is_none() {
        false
    } else if !is_listed_call(id) {
        kernel.can_exit()
    } else if !is_known_call(id) {
        false
    } else if id == SYSCALL_WRITE {
        can_write(kernel, args[0], args[1] as u64, args[2])
    } else if id == SYSCALL_EXIT {
        kernel.can_exit()
    } else if id == SYSCALL_FORK {
        kernel.can_fork()
    } else if id == SYSCALL_WAITPID {
        let pid = #[verifier::truncate] (args[0] as isize);
        kernel.can_wait(pid, args[1] as u64)
    } else {
        true
    }
}

/// What `syscall` makes of the kernel and returns for the call with
/// number `id` and arguments `args`: nothing changes for task information,
/// write, time and identifier, and the other calls do what `exit_result`,
/// `only_status_changed`, `spawned` and `reaped` say. A call that does not
/// exist ends the task that asked for it, with the exit code
/// `UNKNOWN_SYSCALL_EXIT_CODE`, and does not return.
pub open spec fn syscall_done(
    before: &Kernel,
    after: &Kernel,
    id: usize,
    args: [usize; 3],
    r: Option<isize>,
) -> bool {
    let p = before.processor.current->Some_0;
    let next = before.res.pid_allocator.next_pid();
    &&& !known_call(id) ==> r is None && crate::task::exit::exit_result(
        before,
        after,
        p,
        UNKNOWN_SYSCALL_EXIT_CODE,
        after.processor.current,
    )
    &&& id == 22 ==> r == Some(0isize) && *after == *before
    &&& id == 64 ==> *after == *before && r == Some(
        if write_target(before, args[0]) is Some {
            args[2] as isize
        } else {
            -1isize
        },
    )
    &&& id == 93 ==> r is None && crate::task::exit::exit_result(
        before,
        after,
        p,
        args[0] as i32,
        after.processor.current,
    )
    &&& id == 124 ==> r == Some(0isize) && Kernel::only_status_changed(before, after)
        && after.processor.current == Some(before.manager.ready_queue@.push(p)[0])
        && after.manager.ready_queue@ == before.manager.ready_queue@.push(p).subrange(
        1,
        before.manager.ready_queue@.len() as int + 1,
    )
    &&& id == 169 ==> r == Some((before.ticks / 12500) as isize) && *after == *before
    &&& id == 172 ==> r == Some(p as isize) && *after == *before
    &&& id == 220 ==> r == Some(next as isize) && spawned(
        before,
        after,
        next,
        before.processor.current,
    ) && after.task(next).inner.trap_cx_words() == before.task(p).inner.trap_cx_words().update(
        35,
        kstack_top(next),
    ).update(10, 0) && after.task(next).inner.memory_set.page(VirtPageNum(TRAP_CONTEXT_VPN))
        == with_words(
        before.task(p).inner.memory_set.page(VirtPageNum(TRAP_CONTEXT_VPN)),
        0,
        before.task(p).inner.trap_cx_words().update(35, kstack_top(next)).update(10, 0),
    )
    &&& id == 260 ==> r == Some(waitpid_result(before, p, args[0] as isize) as isize) && (r->Some_0
        < 0 ==> *after == *before) && (r->Some_0 >= 0 ==> reaped(
        before,
        after,
        p,
        r->Some_0 as usize,
        args[1] as u64,
    ))
}

/// Handles the system call with number `syscall_id` and arguments `args`
/// of the running task. Gives the value that the call returns to the
/// task, or nothing where the call does not return: after exit, and after
/// a call that does not exist, which ends the task. The bytes that a write
/// puts out are those that `sys_write` gives for the same arguments.
pub fn syscall(kernel: &mut Kernel, syscall_id: usize, args: [usize; 3]) -> (r: Option<isize>)
    requires
        old(kernel).wf(),
        syscall_ok(old(kernel), syscall_id, args),
    ensures
        final(kernel).wf(),
        syscall_done(old(kernel), final(kernel), syscall_id, args, r),
{
    if !is_known_call(syscall_id) {
        kernel.exit_current_and_run_next(UNKNOWN_SYSCALL_EXIT_CODE);
        None
    } else if syscall_id == SYSCALL_WRITE {
        let (ret, _) = sys_write(kernel, args[0], args[1] as u64, args[2]);
        Some(ret)
    } else if syscall_id == SYSCALL_EXIT {
        let code = #[verifier::truncate] (args[0] as i32);
        kernel.exit_current_and_run_next(code);
        None
    } else if syscall_id == SYSCALL_TASKINFO {
        Some(sys_taskinfo())
    } else if syscall_id == SYSCALL_YIELD {
        Some(sys_yield(kernel))
    } else if syscall_id == SYSCALL_GET_TIME {
        Some(sys_get_time(kernel))
    } else if syscall_id == SYSCALL_GETPID {
        Some(sys_getpid(kernel))
    } else if syscall_id == SYSCALL_FORK {
        Some(sys_fork(kernel))
    } else {
        let pid = #[verifier::truncate] (args[0] as isize);
        Some(sys_waitpid(kernel, pid, args[1] as u64))
    }
}

} // verus!
