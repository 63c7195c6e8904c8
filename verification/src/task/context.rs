//! The task context: the registers that a switch between tasks saves and
//! restores.
use vstd::prelude::*;

verus! {

/// The return address, the stack pointer and the callee-saved registers
/// `s0` to `s11` of a task that is not running.
#[derive(Copy, Clone, Debug)]
pub struct TaskContext {
    /// The address at which the task goes on after a switch.
    pub ra: u64,
    /// The stack pointer of the task.
    pub sp: u64,
    /// The registers `s0` to `s11`.
    pub s: [u64; 12],
}

impl TaskContext {
    /// A context of zeros.
    pub fn zero_init() -> (r: Self)
        ensures
            r.ra == 0,
            r.sp == 0,
            forall|i: int| 0 <= i < 12 ==> r.s@[i] == 0,
    {
        Self { ra: 0, sp: 0, s: [0u64;12] }
    }

    /// The context of a task that goes on at `trap_return`, the kernel's
    /// code that returns to user mode, with its kernel stack at
    /// `kstack_ptr`.
    pub fn goto_trap_return(kstack_ptr: u64, trap_return: u64) -> (r: Self)
        ensures
            r.ra == trap_return,
            r.sp == kstack_ptr,
            forall|i: int| 0 <= i < 12 ==> r.s@[i] == 0,
    {
        Self { ra: trap_return, sp: kstack_ptr, s: [0u64;12] }
    }
}

} // verus!
