use sv39_kernel::user::syscall::{
    sys_exec, sys_exit, sys_kill, sys_open, sys_read, sys_sigaction, sys_waitpid, sys_write,
    sys_yield, syscall,
};
use sv39_kernel::user::{
    close, dup, exec, exit, fork, get_time, getpid, kill, ls, open, pipe, read, sigaction,
    sigprocmask, sigreturn, signal, sleep, wait, wait_result, waitpid, waitpid_nb, yield_,
    OpenFlags, SignalAction, CREATE, RDWR, SIGUSR1, TRUNC, USER_HEAP_SIZE, WRONLY,
};

#[test]
fn call_numbers_and_arguments() {
    let r = syscall(7, [1, 2, 3]);
    assert_eq!((r.id, r.args), (7, [1, 2, 3]));
    assert_eq!((dup(3).id, dup(3).args), (24, [3, 0, 0]));
    let flags = OpenFlags::from_bits(WRONLY | CREATE).unwrap();
    assert_eq!((open(0x1000, flags).id, open(0x1000, flags).args), (56, [0x1000, 513, 0]));
    assert_eq!((close(4).id, close(4).args), (57, [4, 0, 0]));
    assert_eq!((pipe(0x2000).id, pipe(0x2000).args), (59, [0x2000, 0, 0]));
    assert_eq!((ls(0x3000).id, ls(0x3000).args), (22, [0x3000, 0, 0]));
    assert_eq!((read(0, 0x4000, 16).id, read(0, 0x4000, 16).args), (63, [0, 0x4000, 16]));
    let w = sv39_kernel::user::write(1, 0x5000, 5);
    assert_eq!((w.id, w.args), (64, [1, 0x5000, 5]));
    assert_eq!((exit(42).id, exit(42).args), (93, [42, 0, 0]));
    assert_eq!((yield_().id, yield_().args), (124, [0, 0, 0]));
    assert_eq!((get_time().id, get_time().args), (169, [0, 0, 0]));
    assert_eq!((getpid().id, getpid().args), (172, [0, 0, 0]));
    assert_eq!((fork().id, fork().args), (220, [0, 0, 0]));
    assert_eq!((exec(0x6000, 0x7000).id, exec(0x6000, 0x7000).args), (221, [0x6000, 0x7000, 0]));
    assert_eq!((kill(5, SIGUSR1).id, kill(5, SIGUSR1).args), (129, [5, 10, 0]));
    assert_eq!((sigaction(10, 0x10, 0x20).id, sigaction(10, 0x10, 0x20).args), (134, [10, 0x10, 0x20]));
    assert_eq!((sigprocmask(6).id, sigprocmask(6).args), (135, [6, 0, 0]));
    assert_eq!((sigreturn().id, sigreturn().args), (139, [0, 0, 0]));
}

#[test]
fn raw_calls() {
    assert_eq!(sys_exit(-1).args, [usize::MAX, 0, 0]);
    assert_eq!(sys_open(8, RDWR | TRUNC).args, [8, 1026, 0]);
    assert_eq!(sys_read(2, 3, 4).id, 63);
    assert_eq!(sys_write(2, 3, 4).id, 64);
    assert_eq!(sys_yield().id, 124);
    assert_eq!(sys_exec(1, 2).args, [1, 2, 0]);
    assert_eq!(sys_waitpid(-1, 0x40).args, [usize::MAX, 0x40, 0]);
    assert_eq!(sys_kill(3, 9).args, [3, 9, 0]);
    assert_eq!(sys_sigaction(2, 3, 4).args, [2, 3, 4]);
}

#[test]
fn open_flags() {
    assert_eq!(USER_HEAP_SIZE, 16 * 1024);
    assert_eq!(OpenFlags::from_bits(0), Some(OpenFlags { bits: 0 }));
    assert_eq!(OpenFlags::from_bits(1539).unwrap().bits(), 1539);
    assert_eq!(OpenFlags::from_bits(4), None);
}

#[test]
fn waiting() {
    assert_eq!((wait(0x100).id, wait(0x100).args), (260, [usize::MAX, 0x100, 0]));
    assert_eq!((waitpid(7, 0x100).id, waitpid(7, 0x100).args), (260, [7, 0x100, 0]));
    assert_eq!(waitpid_nb(7, 0x100).args, [7, 0x100, 0]);
    assert_eq!(wait_result(-2), None);
    assert_eq!(wait_result(-1), Some(-1));
    assert_eq!(wait_result(3), Some(3));
}

#[test]
fn sleeping() {
    assert!(sleep(100, 100, 50));
    assert!(sleep(100, 149, 50));
    assert!(!sleep(100, 150, 50));
    assert!(!sleep(100, 100, 0));
}

#[test]
fn signal_sets_the_handler() {
    let (action, call) = signal(SIGUSR1, 0x1234, 0x10, 0x20);
    assert_eq!(action.handler, 0x1234);
    assert_eq!(action.mask.bits, 0);
    assert_eq!((call.id, call.args), (134, [10, 0x10, 0x20]));
    let d = SignalAction::default();
    assert_eq!((d.handler, d.mask.bits), (0, 0));
}
