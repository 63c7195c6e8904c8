//! The signals of a task, as a set of flags.
use vstd::prelude::*;

verus! {

/// Highest signal number.
pub const MAX_SIG: usize = 31;

/// Default signal handling.
pub const SIGDEF: u32 = 1;

/// Hang-up.
pub const SIGHUP: u32 = 1 << 1;

/// Interrupt.
pub const SIGINT: u32 = 1 << 2;

/// Quit.
pub const SIGQUIT: u32 = 1 << 3;

/// Illegal instruction.
pub const SIGILL: u32 = 1 << 4;

/// Breakpoint or trap instruction.
pub const SIGTRAP: u32 = 1 << 5;

/// Abort.
pub const SIGABRT: u32 = 1 << 6;

/// Bus error.
pub const SIGBUS: u32 = 1 << 7;

/// Arithmetic error.
pub const SIGFPE: u32 = 1 << 8;

/// Kill.
pub const SIGKILL: u32 = 1 << 9;

/// First user signal.
pub const SIGUSR1: u32 = 1 << 10;

/// Invalid memory access.
pub const SIGSEGV: u32 = 1 << 11;

/// Second user signal.
pub const SIGUSR2: u32 = 1 << 12;

/// Write to a pipe without a reader.
pub const SIGPIPE: u32 = 1 << 13;

/// Alarm.
pub const SIGALRM: u32 = 1 << 14;

/// Termination.
pub const SIGTERM: u32 = 1 << 15;

/// Stack fault.
pub const SIGSTKFLT: u32 = 1 << 16;

/// A child stopped or ended.
pub const SIGCHLD: u32 = 1 << 17;

/// Continue.
pub const SIGCONT: u32 = 1 << 18;

/// Stop.
pub const SIGSTOP: u32 = 1 << 19;

/// Stop from the terminal.
pub const SIGTSTP: u32 = 1 << 20;

/// Background read from the terminal.
pub const SIGTTIN: u32 = 1 << 21;

/// Background write to the terminal.
pub const SIGTTOU: u32 = 1 << 22;

/// Urgent data on a socket.
pub const SIGURG: u32 = 1 << 23;

/// Processor time used up.
pub const SIGXCPU: u32 = 1 << 24;

/// File size limit exceeded.
pub const SIGXFSZ: u32 = 1 << 25;

/// Virtual timer expired.
pub const SIGVTALRM: u32 = 1 << 26;

/// Profiling timer expired.
pub const SIGPROF: u32 = 1 << 27;

/// Window size changed.
pub const SIGWINCH: u32 = 1 << 28;

/// Input or output possible.
pub const SIGIO: u32 = 1 << 29;

/// Power failure.
pub const SIGPWR: u32 = 1 << 30;

/// Bad system call.
pub const SIGSYS: u32 = 1 << 31;

/// A set of signals, one bit for each signal number.
#[derive(Copy, Clone, Debug, PartialEq, Eq, Structural)]
pub struct SignalFlags {
    /// The signals, bit `n` for signal number `n`.
    pub bits: u32,
}

/// The exit code and the message for the first fatal signal in `bits`, in
/// the order interrupt, illegal instruction, abort, arithmetic error,
/// kill, invalid memory access.
pub open spec fn spec_check_error(bits: u32) -> Option<(i32, Seq<char>)> {
    if bits & 0x4 == 0x4 {
        Some((-2i32, "Killed, SIGINT=2"@))
    } else if bits & 0x10 == 0x10 {
        Some((-4i32, "Illegal Instruction, SIGILL=4"@))
    } else if bits & 0x40 == 0x40 {
        Some((-6i32, "Aborted, SIGABRT=6"@))
    } else if bits & 0x100 == 0x100 {
        Some((-8i32, "Erroneous Arithmetic Operation, SIGFPE=8"@))
    } else if bits & 0x200 == 0x200 {
        Some((-9i32, "Killed, SIGKILL=9"@))
    } else if bits & 0x800 == 0x800 {
        Some((-11i32, "Segmentation Fault, SIGSEGV=11"@))
    } else {
        None
    }
}

impl SignalFlags {
    /// No signal.
    pub fn empty() -> (r: Self)
        ensures
            r.bits == 0,
    {
        SignalFlags { bits: 0 }
    }

    /// The signals whose bits are set in `bits`. Every bit is a signal,
    /// so every value is accepted.
    pub fn from_bits(bits: u32) -> (r: Option<Self>)
        ensures
            r == Some(SignalFlags { bits }),
    {
        Some(SignalFlags { bits })
    }

    /// The signals as a number.
    pub fn bits(&self) -> (r: u32)
        ensures
            r == self.bits,
    {
        self.bits
    }

    /// Whether every signal of `other` is in `self`.
    pub fn contains(&self, other: SignalFlags) -> (r: bool)
        ensures
            r == (self.bits & other.bits == other.bits),
    {
        self.bits & other.bits == other.bits
    }

    /// The signals of `self` and of `other` together.
    pub fn union(self, other: SignalFlags) -> (r: Self)
        ensures
            r.bits == self.bits | other.bits,
    {
        SignalFlags { bits: self.bits | other.bits }
    }

    /// The exit code and the message for the first fatal signal of the
    /// set, or nothing where it holds none.
    pub fn check_error(&self) -> (r: Option<(i32, &'static str)>)
        ensures
            match r {
                Some((code, text)) => spec_check_error(self.bits) == Some((code, text@)),
                None => spec_check_error(self.bits) is None,
            },
    {
        if self.contains(SignalFlags { bits: 0x4 }) {
            Some((-2, "Killed, SIGINT=2"))
        } else if self.contains(SignalFlags { bits: 0x10 }) {
            Some((-4, "Illegal Instruction, SIGILL=4"))
        } else if self.contains(SignalFlags { bits: 0x40 }) {
            Some((-6, "Aborted, SIGABRT=6"))
        } else if self.contains(SignalFlags { bits: 0x100 }) {
            Some((-8, "Erroneous Arithmetic Operation, SIGFPE=8"))
        } else if self.contains(SignalFlags { bits: 0x200 }) {
            Some((-9, "Killed, SIGKILL=9"))
        } else if self.contains(SignalFlags { bits: 0x800 }) {
            Some((-11, "Segmentation Fault, SIGSEGV=11"))
        } else {
            None
        }
    }
}

} // verus!
