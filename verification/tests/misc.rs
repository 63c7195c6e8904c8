use sv39_kernel::config::{
    CLOCK_FREQ, KERNEL_HEAP_SIZE, KERNEL_STACK_SIZE, MEMORY_END, PAGE_SIZE, PAGE_SIZE_BITS,
    TRAMPOLINE, TRAP_CONTEXT, USER_STACK_SIZE,
};
use sv39_kernel::mm::address::{PhysAddr, PhysPageNum, VirtAddr, VirtPageNum};
use sv39_kernel::task::action::{SignalAction, SignalActions};
use sv39_kernel::task::context::TaskContext;
use sv39_kernel::task::manager::{add_task, fetch_task, TaskManager};
use sv39_kernel::task::pid::{kernel_stack_position, pid_alloc, PidAllocator};
use sv39_kernel::task::processor::{current_task, take_current_task, Processor};
use sv39_kernel::task::signal::{
    SignalFlags, MAX_SIG, SIGABRT, SIGFPE, SIGILL, SIGINT, SIGKILL, SIGSEGV, SIGUSR1,
};
use sv39_kernel::trap::context::TrapContext;

#[test]
fn constants() {
    assert_eq!(PAGE_SIZE, 4096);
    assert_eq!(PAGE_SIZE_BITS, 12);
    assert_eq!(USER_STACK_SIZE, 8192);
    assert_eq!(KERNEL_STACK_SIZE, 8192);
    assert!(KERNEL_HEAP_SIZE >= 512 * 1024);
    assert_eq!(TRAMPOLINE, u64::MAX - 4095);
    assert_eq!(TRAP_CONTEXT, TRAMPOLINE - 4096);
    assert_eq!(MEMORY_END, 0x8080_0000);
    assert_eq!(CLOCK_FREQ, 12_500_000);
}

#[test]
fn conversions_between_addresses_and_pages() {
    assert_eq!(PhysAddr::from(u64::MAX), PhysAddr((1 << 56) - 1));
    assert_eq!(u64::from(PhysAddr::from(0x1234_5678_9abc_def0)), 0x34_5678_9abc_def0);
    assert_eq!(PhysPageNum::from(u64::MAX), PhysPageNum((1 << 44) - 1));
    assert_eq!(VirtAddr::from(u64::MAX), VirtAddr((1 << 39) - 1));
    assert_eq!(VirtPageNum::from(u64::MAX), VirtPageNum((1 << 27) - 1));
    assert_eq!(u64::from(VirtAddr(0x40_0000_0000)), 0xffff_ffc0_0000_0000);
    assert_eq!(u64::from(VirtAddr(0x3f_ffff_ffff)), 0x3f_ffff_ffff);
    assert_eq!(u64::from(VirtPageNum(0x123)), 0x123);
    assert_eq!(u64::from(PhysPageNum(0x123)), 0x123);
    assert_eq!(PhysAddr::from(PhysPageNum(0x80200)), PhysAddr(0x8020_0000));
    assert_eq!(PhysPageNum::from(PhysAddr(0x8020_0000)), PhysPageNum(0x80200));
    assert_eq!(VirtAddr::from(VirtPageNum(0x10)), VirtAddr(0x10000));
    assert_eq!(VirtPageNum::from(VirtAddr(0x10000)), VirtPageNum(0x10));
    assert_eq!(VirtAddr::from(TRAMPOLINE).floor(), VirtPageNum(0x7ff_ffff));
    assert_eq!(VirtAddr::from(TRAP_CONTEXT).floor(), VirtPageNum(0x7ff_fffe));
    let mut vpn = VirtPageNum(41);
    vpn.step();
    assert_eq!(vpn, VirtPageNum(42));
    assert!(PhysAddr(0x3000).aligned());
    assert!(!VirtAddr(0x3001).aligned());
    assert_eq!(PhysAddr(0x3001).ceil(), PhysPageNum(4));
    assert_eq!(PhysAddr(0x3000).ceil(), PhysPageNum(3));
    assert_eq!(PhysAddr(0x3fff).floor(), PhysPageNum(3));
    assert_eq!(PhysAddr(0x3abc).page_offset(), 0xabc);
}

#[test]
fn trap_context_of_a_new_program() {
    let cx = TrapContext::app_init_context(0x10000, 0x14000, 0x8000_0000_0008_0240, 0xffff_f000, 0x8020_5000, 0x122);
    assert_eq!(cx.sepc, 0x10000);
    assert_eq!(cx.x[2], 0x14000);
    assert_eq!(cx.sstatus, 0x22);
    assert_eq!(cx.kernel_satp, 0x8000_0000_0008_0240);
    assert_eq!(cx.kernel_sp, 0xffff_f000);
    assert_eq!(cx.trap_handler, 0x8020_5000);
    for (i, v) in cx.x.iter().enumerate() {
        if i != 2 {
            assert_eq!(*v, 0);
        }
    }
}

#[test]
fn trap_context_layout() {
    let mut cx = TrapContext::app_init_context(1, 2, 3, 4, 5, 6);
    cx.x[10] = 99;
    cx.set_sp(77);
    let words = cx.to_words();
    assert_eq!(words.len(), 37);
    assert_eq!(words[2], 77);
    assert_eq!(words[10], 99);
    assert_eq!(&words[32..], &[6, 1, 3, 4, 5]);
    let back = TrapContext::from_words(&words);
    assert_eq!(back.x, cx.x);
    assert_eq!(
        (back.sstatus, back.sepc, back.kernel_satp, back.kernel_sp, back.trap_handler),
        (6, 1, 3, 4, 5)
    );
}

#[test]
fn task_contexts() {
    let z = TaskContext::zero_init();
    assert_eq!((z.ra, z.sp, z.s), (0, 0, [0; 12]));
    let c = TaskContext::goto_trap_return(0xffff_e000, 0x8020_6000);
    assert_eq!((c.ra, c.sp, c.s), (0x8020_6000, 0xffff_e000, [0; 12]));
}

#[test]
fn fatal_signals() {
    assert_eq!(MAX_SIG, 31);
    assert_eq!(SignalFlags { bits: 0 }.check_error(), None);
    assert_eq!(SignalFlags { bits: SIGUSR1 }.check_error(), None);
    assert_eq!(SignalFlags { bits: SIGINT }.check_error(), Some((-2, "Killed, SIGINT=2")));
    assert_eq!(
        SignalFlags { bits: SIGILL }.check_error(),
        Some((-4, "Illegal Instruction, SIGILL=4"))
    );
    assert_eq!(SignalFlags { bits: SIGABRT }.check_error(), Some((-6, "Aborted, SIGABRT=6")));
    assert_eq!(
        SignalFlags { bits: SIGFPE }.check_error(),
        Some((-8, "Erroneous Arithmetic Operation, SIGFPE=8"))
    );
    assert_eq!(SignalFlags { bits: SIGKILL }.check_error(), Some((-9, "Killed, SIGKILL=9")));
    assert_eq!(
        SignalFlags { bits: SIGSEGV }.check_error(),
        Some((-11, "Segmentation Fault, SIGSEGV=11"))
    );
    // the first in the order decides
    assert_eq!(
        SignalFlags { bits: SIGSEGV | SIGKILL | SIGUSR1 }.check_error(),
        Some((-9, "Killed, SIGKILL=9"))
    );
    assert_eq!(SignalFlags { bits: u32::MAX }.check_error(), Some((-2, "Killed, SIGINT=2")));
}

#[test]
fn signal_sets() {
    let s = SignalFlags::from_bits(SIGINT | SIGKILL).unwrap();
    assert_eq!(s.bits(), 0x204);
    assert!(s.contains(SignalFlags { bits: SIGKILL }));
    assert!(!s.contains(SignalFlags { bits: SIGILL }));
    assert_eq!(s.union(SignalFlags { bits: SIGILL }).bits(), 0x214);
    assert_eq!(SignalFlags::empty().bits(), 0);
    let d = SignalAction::default();
    assert_eq!((d.handler, d.mask.bits), (0, 40));
    let t = SignalActions::default();
    assert!(t.table.iter().all(|x| x.handler == 0 && x.mask.bits == 40));
}

#[test]
fn identifiers_are_handed_out_lowest_first_and_reused() {
    let mut a = PidAllocator::new();
    let first = a.allocate();
    let second = pid_alloc(&mut a);
    let third = a.allocate();
    assert_eq!((first.0, second.0, third.0), (0, 1, 2));
    second.release(&mut a);
    a.dealloc(0);
    assert_eq!(a.recycled, vec![1, 0]);
    assert_eq!(a.allocate().0, 0);
    assert_eq!(a.allocate().0, 1);
    assert_eq!(a.allocate().0, 3);
    assert_eq!(third.0, 2);
}

#[test]
fn kernel_stacks_lie_below_the_trampoline() {
    assert_eq!(kernel_stack_position(0), (TRAMPOLINE - 0x2000, TRAMPOLINE));
    assert_eq!(kernel_stack_position(1), (TRAMPOLINE - 0x5000, TRAMPOLINE - 0x3000));
    assert_eq!(kernel_stack_position(7), (TRAMPOLINE - 0x17000, TRAMPOLINE - 0x15000));
}

#[test]
fn ready_queue_is_first_in_first_out() {
    let mut m = TaskManager::new();
    assert_eq!(m.fetch(), None);
    m.add(3);
    add_task(&mut m, 1);
    m.add(2);
    assert_eq!(fetch_task(&mut m), Some(3));
    m.add(3);
    assert_eq!(m.fetch(), Some(1));
    assert_eq!(m.fetch(), Some(2));
    assert_eq!(m.fetch(), Some(3));
    assert_eq!(m.fetch(), None);
}

#[test]
fn processor_holds_at_most_one_task() {
    let mut p = Processor::new();
    assert_eq!(p.current(), None);
    assert_eq!((p.idle_task_cx.ra, p.idle_task_cx.sp, p.idle_task_cx.s), (0, 0, [0; 12]));
    assert_eq!(take_current_task(&mut p), None);
    p.current = Some(4);
    assert_eq!(current_task(&p), Some(4));
    assert_eq!(p.current(), Some(4));
    assert_eq!(p.take_current(), Some(4));
    assert_eq!(p.current(), None);
}

#[test]
fn registers_of_a_system_call() {
    let mut cx = TrapContext::app_init_context(0x10000, 0x14000, 1, 2, 3, 0);
    cx.x[17] = 260;
    cx.x[10] = u64::MAX;
    cx.x[11] = 0x13ff0;
    cx.x[12] = 7;
    assert_eq!(cx.syscall_id(), 260);
    assert_eq!(cx.syscall_args(), [usize::MAX, 0x13ff0, 7]);
    cx.step_over_call();
    assert_eq!(cx.sepc, 0x10004);
    cx.set_return(-2);
    assert_eq!(cx.x[10], (-2i64) as u64);
    assert_eq!(cx.x[11], 0x13ff0);
    cx.set_return(5);
    assert_eq!(cx.x[10], 5);
    cx.sepc = u64::MAX - 1;
    cx.step_over_call();
    assert_eq!(cx.sepc, 2);
}
