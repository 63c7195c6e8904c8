//! The library of user programs: the system calls by name, and the
//! decisions of the loops that wait and sleep.
pub mod start;
pub mod syscall;

use syscall::{
    sys_close, sys_dup, sys_exec, sys_exit, sys_fork, sys_get_time, sys_getpid, sys_kill, sys_ls,
    sys_open, sys_pipe, sys_read, sys_sigaction, sys_sigprocmask, sys_sigreturn, sys_waitpid,
    sys_write, sys_yield, SyscallRequest,
};
use vstd::prelude::*;

verus! {

/// Size of the heap of a user program, in bytes.
pub const USER_HEAP_SIZE: usize = 16384;

/// Open for reading only.
pub const RDONLY: u32 = 0;

/// Open for writing only.
pub const WRONLY: u32 = 1;

/// Open for reading and writing.
pub const RDWR: u32 = 2;

/// Create the file where it does not exist.
pub const CREATE: u32 = 512;

/// Empty the file on opening.
pub const TRUNC: u32 = 1024;

/// How a file is opened.
#[derive(Copy, Clone, Debug, PartialEq, Eq, Structural)]
pub struct OpenFlags {
    /// The flags, one bit each.
    pub bits: u32,
}

impl OpenFlags {
    /// The flags whose bits are set in `bits`, or nothing where `bits`
    /// has a bit that is no flag.
    pub fn from_bits(bits: u32) -> (r: Option<Self>)
        ensures
            r == if bits & !1539u32 == 0 {
                Some(OpenFlags { bits })
            } else {
                None
            },
    {
        if bits & !1539u32 == 0 {
            Some(OpenFlags { bits })
        } else {
            None
        }
    }

    /// The flags as a number.
    pub fn bits(&self) -> (r: u32)
        ensures
            r == self.bits,
    {
        self.bits
    }
}

/// A set of signals as a user program passes it, one bit for each signal
/// number.
#[derive(Copy, Clone, Debug, PartialEq, Eq, Structural)]
pub struct SignalFlags {
    /// The signals, bit `n` for signal number `n`.
    pub bits: i32,
}

impl SignalFlags {
    /// No signal.
    pub fn empty() -> (r: Self)
        ensures
            r.bits == 0,
    {
        SignalFlags { bits: 0 }
    }
}

/// The handler of a signal and the signals that are held back while it
/// runs, as a user program passes them.
#[derive(Copy, Clone, Debug)]
pub struct SignalAction {
    /// Address of the handler.
    pub handler: usize,
    /// Signals held back while the handler runs.
    pub mask: SignalFlags,
}

impl Default for SignalAction {
    /// No handler, and no signal held back.
    fn default() -> (r: Self)
        ensures
            r.handler == 0,
            r.mask.bits == 0,
    {
        Self { handler: 0, mask: SignalFlags::empty() }
    }
}

/// Number of the signal for default handling.
pub const SIGDEF: i32 = 0;

/// Number of the hang-up signal.
pub const SIGHUP: i32 = 1;

/// Number of the interrupt signal.
pub const SIGINT: i32 = 2;

/// Number of the quit signal.
pub const SIGQUIT: i32 = 3;

/// Number of the signal for an illegal instruction.
pub const SIGILL: i32 = 4;

/// Number of the trap signal.
pub const SIGTRAP: i32 = 5;

/// Number of the abort signal.
pub const SIGABRT: i32 = 6;

/// Number of the signal for a bus error.
pub const SIGBUS: i32 = 7;

/// Number of the signal for an arithmetic error.
pub const SIGFPE: i32 = 8;

/// Number of the kill signal.
pub const SIGKILL: i32 = 9;

/// Number of the first user signal.
pub const SIGUSR1: i32 = 10;

/// Number of the signal for an invalid memory access.
pub const SIGSEGV: i32 = 11;

/// Number of the second user signal.
pub const SIGUSR2: i32 = 12;

/// Number of the signal for a broken pipe.
pub const SIGPIPE: i32 = 13;

/// Number of the alarm signal.
pub const SIGALRM: i32 = 14;

/// Number of the termination signal.
pub const SIGTERM: i32 = 15;

/// Duplicates the open file `fd`. See `sys_dup`.
pub fn dup(fd: usize) -> (r: SyscallRequest)
    ensures
        r.id == 24,
        r.args@ == seq![fd, 0usize, 0usize],
{
    sys_dup(fd)
}

/// Opens the file whose name is at the address `path`. See `sys_open`.
pub fn open(path: usize, flags: OpenFlags) -> (r: SyscallRequest)
    ensures
        r.id == 56,
        r.args@ == seq![path, flags.bits as usize, 0usize],
{
    sys_open(path, flags.bits)
}

/// Closes the open file `fd`. See `sys_close`.
pub fn close(fd: usize) -> (r: SyscallRequest)
    ensures
        r.id == 57,
        r.args@ == seq![fd, 0usize, 0usize],
{
    sys_close(fd)
}

/// Opens a pipe and stores the descriptors of its ends at the address
/// `pipe_fd`. See `sys_pipe`.
pub fn pipe(pipe_fd: usize) -> (r: SyscallRequest)
    ensures
        r.id == 59,
        r.args@ == seq![pipe_fd, 0usize, 0usize],
{
    sys_pipe(pipe_fd)
}

/// Lists the files under the path whose address is `path`. See `sys_ls`.
pub fn ls(path: usize) -> (r: SyscallRequest)
    ensures
        r.id == 22,
        r.args@ == seq![path, 0usize, 0usize],
{
    sys_ls(path)
}

/// Reads up to `len` bytes from the open file `fd` to the address `buf`.
/// See `sys_read`.
pub fn read(fd: usize, buf: usize, len: usize) -> (r: SyscallRequest)
    ensures
        r.id == 63,
        r.args@ == seq![fd, buf, len],
{
    sys_read(fd, buf, len)
}

/// Writes the `len` bytes at the address `buf` to the open file `fd`. See
/// `sys_write`.
pub fn write(fd: usize, buf: usize, len: usize) -> (r: SyscallRequest)
    ensures
        r.id == 64,
        r.args@ == seq![fd, buf, len],
{
    sys_write(fd, buf, len)
}

/// Ends the program with the exit code `exit_code`. See `sys_exit`.
pub fn exit(exit_code: i32) -> (r: SyscallRequest)
    ensures
        r.id == 93,
        r.args@ == seq![exit_code as usize, 0usize, 0usize],
{
    sys_exit(exit_code)
}

/// Gives up the processor. See `sys_yield`.
pub fn yield_() -> (r: SyscallRequest)
    ensures
        r.id == 124,
        r.args@ == seq![0usize, 0usize, 0usize],
{
    sys_yield()
}

/// Reads the time since the start of the machine, in milliseconds. See
/// `sys_get_time`.
pub fn get_time() -> (r: SyscallRequest)
    ensures
        r.id == 169,
        r.args@ == seq![0usize, 0usize, 0usize],
{
    sys_get_time()
}

/// Reads the identifier of the task. See `sys_getpid`.
pub fn getpid() -> (r: SyscallRequest)
    ensures
        r.id == 172,
        r.args@ == seq![0usize, 0usize, 0usize],
{
    sys_getpid()
}

/// Makes a child. See `sys_fork`.
pub fn fork() -> (r: SyscallRequest)
    ensures
        r.id == 220,
        r.args@ == seq![0usize, 0usize, 0usize],
{
    sys_fork()
}

/// Replaces the program by the one whose name is at the address `path`.
/// See `sys_exec`.
pub fn exec(path: usize, args: usize) -> (r: SyscallRequest)
    ensures
        r.id == 221,
        r.args@ == seq![path, args, 0usize],
{
    sys_exec(path, args)
}

/// Sends the signal `signal` to the task `pid`. See `sys_kill`.
pub fn kill(pid: usize, signal: i32) -> (r: SyscallRequest)
    ensures
        r.id == 129,
        r.args@ == seq![pid, signal as usize, 0usize],
{
    sys_kill(pid, signal)
}

/// Sets the action of the signal `signum`. See `sys_sigaction`.
pub fn sigaction(signum: i32, action: usize, old_action: usize) -> (r: SyscallRequest)
    ensures
        r.id == 134,
        r.args@ == seq![signum as usize, action, old_action],
{
    sys_sigaction(signum, action, old_action)
}

/// Sets the signals that the task holds back. See `sys_sigprocmask`.
pub fn sigprocmask(mask: u32) -> (r: SyscallRequest)
    ensures
        r.id == 135,
        r.args@ == seq![mask as usize, 0usize, 0usize],
{
    sys_sigprocmask(mask)
}

/// Returns from a signal handler. See `sys_sigreturn`.
pub fn sigreturn() -> (r: SyscallRequest)
    ensures
        r.id == 139,
        r.args@ == seq![0usize, 0usize, 0usize],
{
    sys_sigreturn()
}

/// Waits for any child to end: the call to make. See `wait_result` for
/// what to do with its result.
pub fn wait(exit_code: usize) -> (r: SyscallRequest)
    ensures
        r.id == 260,
        r.args@ == seq![(-1isize) as usize, exit_code, 0usize],
{
    sys_waitpid(-1, exit_code)
}

/// Waits for the child `pid` to end: the call to make. See `wait_result`
/// for what to do with its result.
pub fn waitpid(pid: usize, exit_code: usize) -> (r: SyscallRequest)
    ensures
        r.id == 260,
        r.args@ == seq![(pid as isize) as usize, exit_code, 0usize],
{
    sys_waitpid(#[verifier::truncate] (pid as isize), exit_code)
}

/// Asks once whether the child `pid` has ended: the call to make, whose
/// result is taken as it is.
pub fn waitpid_nb(pid: usize, exit_code: usize) -> (r: SyscallRequest)
    ensures
        r.id == 260,
        r.args@ == seq![(pid as isize) as usize, exit_code, 0usize],
{
    sys_waitpid(#[verifier::truncate] (pid as isize), exit_code)
}

/// What a program that waits does with the result `ret` of the call:
/// where no child that it waits for has ended, it gives up the processor
/// and makes the call again, and this function gives nothing; else the
/// result stands, -1 or the identifier of the child.
pub fn wait_result(ret: isize) -> (r: Option<isize>)
    ensures
        r == if ret == -2 {
            None
        } else {
            Some(ret)
        },
{
    if ret == -2 {
        None
    } else {
        Some(ret)
    }
}

/// Whether a program that has slept since the time `start` and wants to
/// sleep `period_ms` milliseconds gives up the processor once more at the
/// time `now`: it does while the period has not passed.
pub fn sleep(start: isize, now: isize, period_ms: usize) -> (r: bool)
    requires
        period_ms <= isize::MAX,
        start + period_ms <= isize::MAX,
    ensures
        r == (now < start + period_ms),
{
    now < start + period_ms as isize
}

/// Sets the handler of the signal `signum` to `handler`: the action to
/// store at the address `action`, and the call to make with it. The action
/// that the signal had is stored at `old_action`.
pub fn signal(signum: i32, handler: usize, action: usize, old_action: usize) -> (r: (
    SignalAction,
    SyscallRequest,
))
    ensures
        r.0.handler == handler,
        r.0.mask.bits == 0,
        r.1.id == 134,
        r.1.args@ == seq![signum as usize, action, old_action],
{
    let mut new = SignalAction::default();
    new.handler = handler;
    (new, sigaction(signum, action, old_action))
}

} // verus!
