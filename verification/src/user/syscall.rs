//! The system calls as a user program makes them: the number of the call
//! in register `a7`, its arguments in `a0` to `a2`.
use vstd::prelude::*;

verus! {

/// Number of the call `ls`.
pub const SYSCALL_LS: usize = 22;

/// Number of the call `dup`.
pub const SYSCALL_DUP: usize = 24;

/// Number of the call `open`.
pub const SYSCALL_OPEN: usize = 56;

/// Number of the call `close`.
pub const SYSCALL_CLOSE: usize = 57;

/// Number of the call `pipe`.
pub const SYSCALL_PIPE: usize = 59;

/// Number of the call `read`.
pub const SYSCALL_READ: usize = 63;

/// Number of the call `write`.
pub const SYSCALL_WRITE: usize = 64;

/// Number of the call `exit`.
pub const SYSCALL_EXIT: usize = 93;

/// Number of the call `yield`.
pub const SYSCALL_YIELD: usize = 124;

/// Number of the call `get_time`.
pub const SYSCALL_GET_TIME: usize = 169;

/// Number of the call `getpid`.
pub const SYSCALL_GETPID: usize = 172;

/// Number of the call `fork`.
pub const SYSCALL_FORK: usize = 220;

/// Number of the call `exec`.
pub const SYSCALL_EXEC: usize = 221;

/// Number of the call `waitpid`.
pub const SYSCALL_WAITPID: usize = 260;

/// Number of the call `kill`.
pub const SYSCALL_KILL: usize = 129;

/// Number of the call `sigaction`.
pub const SYSCALL_SIGACTION: usize = 134;

/// Number of the call `sigprocmask`.
pub const SYSCALL_SIGPROCMASK: usize = 135;

/// Number of the call `sigreturn`.
pub const SYSCALL_SIGRETURN: usize = 139;

/// A system call: its number and its three arguments.
#[derive(Copy, Clone, Debug)]
pub struct SyscallRequest {
    /// Number of the call, for register `a7`.
    pub id: usize,
    /// The arguments, for registers `a0`, `a1` and `a2`.
    pub args: [usize; 3],
}

/// The call with number `id` and arguments `args`.
pub fn syscall(id: usize, args: [usize; 3]) -> (r: SyscallRequest)
    ensures
        r.id == id,
        r.args == args,
{
    SyscallRequest { id, args }
}

/// Lists the files under the path whose address is `path`.
pub fn sys_ls(path: usize) -> (r: SyscallRequest)
    ensures
        r.id == 22,
        r.args@ == seq![path, 0usize, 0usize],
{
    let r = syscall(SYSCALL_LS, [path, 0, 0]);
    assert(r.args@ =~= seq![path, 0usize, 0usize]);
    r
}

/// Duplicates the open file `fd` under a new descriptor, the result of
/// the call; -1 where `fd` is no open file.
pub fn sys_dup(fd: usize) -> (r: SyscallRequest)
    ensures
        r.id == 24,
        r.args@ == seq![fd, 0usize, 0usize],
{
    let r = syscall(SYSCALL_DUP, [fd, 0, 0]);
    assert(r.args@ =~= seq![fd, 0usize, 0usize]);
    r
}

/// Opens the file whose name is at the address `path` with the flags
/// `flags`; the result of the call is the descriptor, or -1.
pub fn sys_open(path: usize, flags: u32) -> (r: SyscallRequest)
    ensures
        r.id == 56,
        r.args@ == seq![path, flags as usize, 0usize],
{
    let r = syscall(SYSCALL_OPEN, [path, flags as usize, 0]);
    assert(r.args@ =~= seq![path, flags as usize, 0usize]);
    r
}

/// Closes the open file `fd`; the result of the call is 0, or -1.
pub fn sys_close(fd: usize) -> (r: SyscallRequest)
    ensures
        r.id == 57,
        r.args@ == seq![fd, 0usize, 0usize],
{
    let r = syscall(SYSCALL_CLOSE, [fd, 0, 0]);
    assert(r.args@ =~= seq![fd, 0usize, 0usize]);
    r
}

/// Opens a pipe and stores the descriptors of its two ends, the reading
/// end first, at the address `pipe`.
pub fn sys_pipe(pipe: usize) -> (r: SyscallRequest)
    ensures
        r.id == 59,
        r.args@ == seq![pipe, 0usize, 0usize],
{
    let r = syscall(SYSCALL_PIPE, [pipe, 0, 0]);
    assert(r.args@ =~= seq![pipe, 0usize, 0usize]);
    r
}

/// Reads up to `len` bytes from the open file `fd` to the address
/// `buffer`; the result of the call is the number of bytes read, or -1.
pub fn sys_read(fd: usize, buffer: usize, len: usize) -> (r: SyscallRequest)
    ensures
        r.id == 63,
        r.args@ == seq![fd, buffer, len],
{
    let r = syscall(SYSCALL_READ, [fd, buffer, len]);
    assert(r.args@ =~= seq![fd, buffer, len]);
    r
}

/// Writes the `len` bytes at the address `buffer` to the open file `fd`;
/// the result of the call is the number of bytes written.
pub fn sys_write(fd: usize, buffer: usize, len: usize) -> (r: SyscallRequest)
    ensures
        r.id == 64,
        r.args@ == seq![fd, buffer, len],
{
    let r = syscall(SYSCALL_WRITE, [fd, buffer, len]);
    assert(r.args@ =~= seq![fd, buffer, len]);
    r
}

/// Ends the program with the exit code `xstate`; the call does not
/// return.
pub fn sys_exit(xstate: i32) -> (r: SyscallRequest)
    ensures
        r.id == 93,
        r.args@ == seq![xstate as usize, 0usize, 0usize],
{
    let r = syscall(SYSCALL_EXIT, [#[verifier::truncate] (xstate as usize), 0, 0]);
    assert(r.args@ =~= seq![xstate as usize, 0usize, 0usize]);
    r
}

/// Gives up the processor; the result of the call is 0.
pub fn sys_yield() -> (r: SyscallRequest)
    ensures
        r.id == 124,
        r.args@ == seq![0usize, 0usize, 0usize],
{
    let r = syscall(SYSCALL_YIELD, [0, 0, 0]);
    assert(r.args@ =~= seq![0usize, 0usize, 0usize]);
    r
}

/// Reads the time since the start of the machine, in milliseconds.
pub fn sys_get_time() -> (r: SyscallRequest)
    ensures
        r.id == 169,
        r.args@ == seq![0usize, 0usize, 0usize],
{
    let r = syscall(SYSCALL_GET_TIME, [0, 0, 0]);
    assert(r.args@ =~= seq![0usize, 0usize, 0usize]);
    r
}

/// Reads the identifier of the task.
pub fn sys_getpid() -> (r: SyscallRequest)
    ensures
        r.id == 172,
        r.args@ == seq![0usize, 0usize, 0usize],
{
    let r = syscall(SYSCALL_GETPID, [0, 0, 0]);
    assert(r.args@ =~= seq![0usize, 0usize, 0usize]);
    r
}

/// Makes a child; the result of the call is 0 in the child and the
/// identifier of the child in the parent.
pub fn sys_fork() -> (r: SyscallRequest)
    ensures
        r.id == 220,
        r.args@ == seq![0usize, 0usize, 0usize],
{
    let r = syscall(SYSCALL_FORK, [0, 0, 0]);
    assert(r.args@ =~= seq![0usize, 0usize, 0usize]);
    r
}

/// Replaces the program by the one whose name is at the address `path`,
/// with the arguments whose addresses are in the array at `args`; the
/// call returns -1 where there is no such program.
pub fn sys_exec(path: usize, args: usize) -> (r: SyscallRequest)
    ensures
        r.id == 221,
        r.args@ == seq![path, args, 0usize],
{
    let r = syscall(SYSCALL_EXEC, [path, args, 0]);
    assert(r.args@ =~= seq![path, args, 0usize]);
    r
}

/// Waits for the child `pid`, or for any child where `pid` is -1, and
/// stores its exit code at the address `exit_code`; the result of the
/// call is -1 where there is no such child, -2 where none has ended, else
/// the identifier of the child.
pub fn sys_waitpid(pid: isize, exit_code: usize) -> (r: SyscallRequest)
    ensures
        r.id == 260,
        r.args@ == seq![pid as usize, exit_code, 0usize],
{
    let r = syscall(SYSCALL_WAITPID, [#[verifier::truncate] (pid as usize), exit_code, 0]);
    assert(r.args@ =~= seq![pid as usize, exit_code, 0usize]);
    r
}

/// Sends the signal `signal` to the task `pid`.
pub fn sys_kill(pid: usize, signal: i32) -> (r: SyscallRequest)
    ensures
        r.id == 129,
        r.args@ == seq![pid, signal as usize, 0usize],
{
    let r = syscall(SYSCALL_KILL, [pid, #[verifier::truncate] (signal as usize), 0]);
    assert(r.args@ =~= seq![pid, signal as usize, 0usize]);
    r
}

/// Sets the action of the signal `signum` to the one at the address
/// `action` and stores the action that it had at `old_action`.
pub fn sys_sigaction(signum: i32, action: usize, old_action: usize) -> (r: SyscallRequest)
    ensures
        r.id == 134,
        r.args@ == seq![signum as usize, action, old_action],
{
    let r = syscall(SYSCALL_SIGACTION, [#[verifier::truncate] (signum as usize), action, old_action]);
    assert(r.args@ =~= seq![signum as usize, action, old_action]);
    r
}

/// Sets the signals that the task holds back to `mask`; the result of the
/// call is the mask that it had, or -1.
pub fn sys_sigprocmask(mask: u32) -> (r: SyscallRequest)
    ensures
        r.id == 135,
        r.args@ == seq![mask as usize, 0usize, 0usize],
{
    let r = syscall(SYSCALL_SIGPROCMASK, [mask as usize, 0, 0]);
    assert(r.args@ =~= seq![mask as usize, 0usize, 0usize]);
    r
}

/// Returns from a signal handler.
pub fn sys_sigreturn() -> (r: SyscallRequest)
    ensures
        r.id == 139,
        r.args@ == seq![0usize, 0usize, 0usize],
{
    let r = syscall(SYSCALL_SIGRETURN, [0, 0, 0]);
    assert(r.args@ =~= seq![0usize, 0usize, 0usize]);
    r
}

} // verus!
