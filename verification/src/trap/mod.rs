//! The register frame that is saved when a user program traps into the
//! kernel, and the handling of the trap by which a program asks for a
//! system call.
pub mod context;

pub use context::TrapContext;

use crate::syscall::process::{sys_write, write_target};
use crate::syscall::{
    can_syscall, is_known_call, known_call, syscall, syscall_done, syscall_ok,
    UNKNOWN_SYSCALL_EXIT_CODE,
};
use crate::task::kernel::Kernel;
use crate::task::registers::context_stored;
use crate::task::task::{FileRef, TaskStatus};
use vstd::prelude::*;

verus! {

/// What came of a system call.
#[derive(Debug, PartialEq, Eq)]
pub enum CallOutcome {
    /// The call was handled and returns this value to the task that made
    /// it.
    Returned(isize),
    /// The call was a write that was handled: it returns this value to
    /// the task that made it, and the bytes are to be put out to the file.
    Wrote(isize, FileRef, Vec<u8>),
    /// The call was handled and does not return.
    NoReturn,
    /// The call does not exist: the task that asked for it was ended with
    /// this exit code.
    Unknown(i32),
    /// The call cannot be handled, and the kernel is as it was but for
    /// the address at which the task goes on.
    Refused,
}

/// The saved registers `words` with the address to go on at moved over
/// the instruction of four bytes that made the call.
pub open spec fn stepped(words: Seq<u64>) -> Seq<u64> {
    words.update(
        33,
        if words[33] <= u64::MAX - 4 {
            (words[33] + 4) as u64
        } else {
            (words[33] + 4 - 0x1_0000_0000_0000_0000) as u64
        },
    )
}

/// The steps of the handling of a system call of the running task of
/// `before`, with the kernel after the first step, `s1`, after the second,
/// `s2`, and in the end, `after`. First the address at which the task goes
/// on is moved over the instruction that made the call. Then the call whose
/// number is in register `a7` is handled with the arguments `args` of
/// registers `a0` to `a2`, if it can be; if not, nothing more is done. Last,
/// where the call returns a value, the value is stored in register `a0` of
/// the task that made the call. A write gives the bytes to put out beside
/// its value; a call that does not exist ends the task.
pub open spec fn env_call_steps(
    before: &Kernel,
    s1: &Kernel,
    s2: &Kernel,
    after: &Kernel,
    args: [usize; 3],
    r: CallOutcome,
) -> bool {
    let p = before.processor.current->Some_0;
    let w0 = before.task(p).inner.trap_cx_words();
    let id = w0[17] as usize;
    &&& args@ == seq![w0[10] as usize, w0[11] as usize, w0[12] as usize]
    &&& context_stored(before, s1, p, stepped(w0))
    &&& s1.wf()
    &&& match r {
        CallOutcome::Refused => !syscall_ok(s1, id, args) && *s2 == *s1 && *after == *s1,
        CallOutcome::NoReturn => syscall_ok(s1, id, args) && known_call(id) && syscall_done(
            s1,
            s2,
            id,
            args,
            None,
        ) && *after == *s2,
        CallOutcome::Unknown(code) => syscall_ok(s1, id, args) && !known_call(id) && code
            == UNKNOWN_SYSCALL_EXIT_CODE && syscall_done(s1, s2, id, args, None) && *after == *s2,
        CallOutcome::Returned(v) => syscall_ok(s1, id, args) && !(id == 64 && write_target(
            s1,
            args[0],
        ) is Some) && syscall_done(s1, s2, id, args, Some(v)) && s2.wf() && context_stored(
            s2,
            after,
            p,
            s2.task(p).inner.trap_cx_words().update(10, v as u64),
        ),
        CallOutcome::Wrote(v, file, bytes) => syscall_ok(s1, id, args) && id == 64 && write_target(
            s1,
            args[0],
        ) == Some(file) && bytes@ == s1.task(p).inner.memory_set.buffer_bytes(
            args[1] as u64,
            args[2] as int,
        ) && syscall_done(s1, s2, id, args, Some(v)) && s2.wf() && context_stored(
            s2,
            after,
            p,
            s2.task(p).inner.trap_cx_words().update(10, v as u64),
        ),
    }
}

/// Handles the trap by which the running task asks for a system call:
/// the call is read from the saved registers of the task, handled, and its
/// result stored in them, as `env_call_steps` says. A task that asks for a
/// call that does not exist is ended. A call is refused where it cannot be
/// handled: where it works on files, signal handlers or programs by name,
/// where the frames for a child are missing, where the place for an exit
/// code or a buffer has no frame, or where the initial task would end.
pub fn user_env_call(kernel: &mut Kernel) -> (r: CallOutcome)
    requires
        old(kernel).wf(),
        old(kernel).processor.current is Some,
    ensures
        final(kernel).wf(),
        exists|s1: Kernel, s2: Kernel, args: [usize; 3]| #[trigger]
            env_call_steps(old(kernel), &s1, &s2, final(kernel), args, r),
{
    let p = match kernel.processor.current {
        Some(p) => p,
        None => 0,
    };
    let mut cx = kernel.current_trap_cx();
    let id = cx.syscall_id();
    let args = cx.syscall_args();
    let ghost w0 = old(kernel).task(p).inner.trap_cx_words();
    proof {
        assert(cx.words() == w0);
        assert(w0.len() == 37);
        assert(cx.words()[17] == cx.x@[17]);
        assert(cx.words()[10] == cx.x@[10]);
        assert(cx.words()[11] == cx.x@[11]);
        assert(cx.words()[12] == cx.x@[12]);
    }
    cx.step_over_call();
    proof {
        assert(cx.words() =~= stepped(w0));
    }
    kernel.set_current_trap_cx(&cx);
    let ghost s1 = *kernel;
    if !can_syscall(kernel, id, args) {
        proof {
            assert(env_call_steps(old(kernel), &s1, &s1, kernel, args, CallOutcome::Refused));
        }
        return CallOutcome::Refused;
    }
    let output = if id == crate::syscall::SYSCALL_WRITE {
        sys_write(kernel, args[0], args[1] as u64, args[2]).1
    } else {
        None
    };
    let ret = syscall(kernel, id, args);
    let ghost s2 = *kernel;
    match ret {
        None => {
            if is_known_call(id) {
                proof {
                    assert(env_call_steps(
                        old(kernel),
                        &s1,
                        &s2,
                        kernel,
                        args,
                        CallOutcome::NoReturn,
                    ));
                }
                CallOutcome::NoReturn
            } else {
                proof {
                    assert(env_call_steps(
                        old(kernel),
                        &s1,
                        &s2,
                        kernel,
                        args,
                        CallOutcome::Unknown(UNKNOWN_SYSCALL_EXIT_CODE),
                    ));
                }
                CallOutcome::Unknown(UNKNOWN_SYSCALL_EXIT_CODE)
            }
        },
        Some(v) => {
            proof {
                Kernel::lemma_current(&s1);
                lemma_caller_lives(&s1, &s2, id, args, v);
                reveal(Kernel::tasks_ok);
            }
            let mut back = match &kernel.tasks[p] {
                Some(t) => t.inner.get_trap_cx(),
                None => cx,
            };
            let ghost w2 = back.words();
            back.set_return(v);
            proof {
                assert(back.words() =~= w2.update(10, v as u64));
            }
            kernel.set_trap_cx(p, &back);
            match output {
                Some((file, bytes)) => {
                    let r = CallOutcome::Wrote(v, file, bytes);
                    proof {
                        assert(env_call_steps(old(kernel), &s1, &s2, kernel, args, r));
                    }
                    r
                },
                None => {
                    proof {
                        assert(env_call_steps(
                            old(kernel),
                            &s1,
                            &s2,
                            kernel,
                            args,
                            CallOutcome::Returned(v),
                        ));
                    }
                    CallOutcome::Returned(v)
                },
            }
        },
    }
}

/// The task that made a system call which returns a value lives after
/// the call and has not ended.
pub proof fn lemma_caller_lives(before: &Kernel, after: &Kernel, id: usize, args: [usize; 3], v: isize)
    requires
        before.wf(),
        after.wf(),
        syscall_ok(before, id, args),
        syscall_done(before, after, id, args, Some(v)),
    ensures
        after.live(before.processor.current->Some_0),
        after.status(before.processor.current->Some_0) != TaskStatus::Zombie,
{
    let p = before.processor.current->Some_0;
    Kernel::lemma_current(before);
    if id == 220 {
        let c = before.res.pid_allocator.next_pid();
        assert(!before.live(c));
        assert(after.live(p) == before.live(p));
        assert(after.task(p).inner.task_status == before.task(p).inner.task_status);
    } else if id == 260 {
        if v >= 0 {
            let c = v as usize;
            reveal(Kernel::sched_ok);
            assert(after.processor == before.processor);
            assert(after.live(p));
            assert(p != c);
            assert(after.task(p).inner.task_status == before.task(p).inner.task_status);
        }
    } else if id == 124 {
        assert(after.live(p) == before.live(p));
        assert(crate::task::kernel::same_but_status(&before.task(p), &after.task(p)));
    }
}

} // verus!
