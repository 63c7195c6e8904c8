use sv39_kernel::mm::address::{PhysPageNum, VirtPageNum};
use sv39_kernel::mm::spaces::KernelLayout;
use sv39_kernel::syscall::process::{
    can_write, sys_exec, sys_exit, sys_fork, sys_get_time, sys_getpid, sys_taskinfo, sys_waitpid,
    sys_write, sys_yield,
};
use sv39_kernel::syscall::syscall;
use sv39_kernel::task::kernel::Kernel;
use sv39_kernel::trap::{user_env_call, CallOutcome};
use sv39_kernel::user::start::{read_args, user_str_bytes};
use sv39_kernel::{can_start_on, rust_main};
use sv39_kernel::task::signal::{SignalFlags, SIGINT, SIGSEGV, SIGUSR1};
use sv39_kernel::task::task::{FileRef, TaskStatus};
use sv39_kernel::task::{
    add_initproc, exit_current_and_run_next, run_tasks, suspend_current_and_run_next,
};

const TRAP_HANDLER: u64 = 0x8020_5000;
const TRAP_RETURN: u64 = 0x8020_1040;
const TOP: u64 = 0xffff_ffff_ffff_f000;

fn put(buf: &mut Vec<u8>, off: usize, bytes: &[u8]) {
    buf[off..off + bytes.len()].copy_from_slice(bytes);
}

/// An ELF file with one segment to load at `vaddr`, readable and
/// executable, that holds `bytes`.
fn program(entry: u64, vaddr: u64, bytes: &[u8]) -> Vec<u8> {
    let mut data = vec![0u8; 64 + 56];
    put(&mut data, 0, &[0x7f, 0x45, 0x4c, 0x46, 2, 1, 1, 0]);
    put(&mut data, 24, &entry.to_le_bytes());
    put(&mut data, 32, &64u64.to_le_bytes());
    put(&mut data, 54, &56u16.to_le_bytes());
    put(&mut data, 56, &1u16.to_le_bytes());
    put(&mut data, 64, &1u32.to_le_bytes());
    put(&mut data, 68, &5u32.to_le_bytes());
    put(&mut data, 72, &120u64.to_le_bytes());
    put(&mut data, 80, &vaddr.to_le_bytes());
    put(&mut data, 96, &(bytes.len() as u64).to_le_bytes());
    put(&mut data, 104, &(bytes.len() as u64).to_le_bytes());
    data.extend_from_slice(bytes);
    data
}

fn boot() -> Kernel {
    let layout = KernelLayout {
        stext: 0x8020_0000,
        etext: 0x8020_8000,
        srodata: 0x8020_8000,
        erodata: 0x8020_c000,
        sdata: 0x8020_c000,
        edata: 0x8021_0000,
        sbss_with_stack: 0x8021_0000,
        ebss: 0x8024_0000,
        ekernel: 0x8024_0000,
        strampoline: 0x8020_1000,
        memory_end: 0x8080_0000,
        mmio: vec![(0x1000_1000, 0x1000)],
    };
    Kernel::boot(&layout, TRAP_HANDLER, TRAP_RETURN, 0x120)
}

/// A kernel whose initial task runs the program at 0x10000.
fn started() -> Kernel {
    let mut k = boot();
    let elf = program(0x10000, 0x10000, &[0x13; 0x200]);
    add_initproc(&mut k, &elf);
    assert_eq!(run_tasks(&mut k), Some(0));
    k
}

fn status(k: &Kernel, pid: usize) -> TaskStatus {
    k.tasks[pid].as_ref().unwrap().inner.get_status()
}

fn children(k: &Kernel, pid: usize) -> Vec<usize> {
    k.tasks[pid].as_ref().unwrap().inner.children.clone()
}

fn running(k: &Kernel) -> Vec<usize> {
    let mut r = Vec::new();
    for (i, t) in k.tasks.iter().enumerate() {
        if let Some(t) = t {
            assert_eq!(t.getpid(), i);
            if t.inner.get_status() == TaskStatus::Running {
                r.push(i);
            }
        }
    }
    r
}

#[test]
fn first_task() {
    let mut k = boot();
    assert_eq!(k.tasks.len(), 0);
    assert_eq!(run_tasks(&mut k), None);
    let code: Vec<u8> = (0..0x200u32).map(|i| (i % 251) as u8).collect();
    let elf = program(0x10010, 0x10000, &code);
    add_initproc(&mut k, &elf);
    assert_eq!(k.initproc, 0);
    assert_eq!(k.tasks.len(), 1);
    assert_eq!(status(&k, 0), TaskStatus::Ready);
    assert_eq!(k.current_task(), None);
    let t = k.tasks[0].as_ref().unwrap();
    assert_eq!(t.getpid(), 0);
    assert_eq!(t.inner.base_size, 0x14000);
    assert_eq!(t.inner.parent, None);
    assert!(t.inner.children.is_empty());
    assert_eq!(t.inner.exit_code, 0);
    assert_eq!(t.inner.task_cx.ra, TRAP_RETURN);
    assert_eq!(t.inner.task_cx.sp, TOP);
    assert_eq!(t.kernel_stack.get_top(), TOP);
    let cx = t.inner.get_trap_cx();
    assert_eq!(cx.sepc, 0x10010);
    assert_eq!(cx.x[2], 0x14000);
    assert_eq!(cx.sstatus, 0x20);
    assert_eq!(cx.kernel_sp, TOP);
    assert_eq!(cx.trap_handler, TRAP_HANDLER);
    assert_eq!(cx.kernel_satp, k.res.kernel_space.token());
    assert_eq!(
        t.inner.memory_set.translate(VirtPageNum(0x7ff_fffe)).unwrap().ppn(),
        t.inner.trap_cx_ppn
    );
    assert_eq!(t.inner.memory_set.read_buffer(0x10000, 0x200), code);
    assert_eq!(t.inner.get_user_token(), t.inner.memory_set.token());
    // the kernel stack is mapped in the kernel's space
    let ks = &k.res.kernel_space;
    assert!(ks.translate(VirtPageNum(0x7ff_fffe)).unwrap().is_valid());
    assert!(ks.translate(VirtPageNum(0x7ff_fffd)).unwrap().is_valid());
    assert!(!ks.translate(VirtPageNum(0x7ff_fffc)).map_or(false, |e| e.is_valid()));
    // dispatch
    assert_eq!(run_tasks(&mut k), Some(0));
    assert_eq!(status(&k, 0), TaskStatus::Running);
    assert_eq!(k.current_task(), Some(0));
    assert_eq!(k.current_user_token(), k.tasks[0].as_ref().unwrap().inner.memory_set.token());
    assert_eq!(k.current_trap_cx().sepc, 0x10010);
    assert_eq!(running(&k), vec![0]);
}

#[test]
fn fork_exit_wait() {
    let mut k = started();
    let parent_cx = k.current_trap_cx();
    let child = k.fork_current();
    assert_eq!(child, 1);
    assert_eq!(children(&k, 0), vec![1]);
    assert_eq!(status(&k, 1), TaskStatus::Ready);
    {
        let c = k.tasks[1].as_ref().unwrap();
        assert_eq!(c.inner.parent, Some(0));
        assert!(c.inner.children.is_empty());
        let cx = c.inner.get_trap_cx();
        assert_eq!(cx.x[10], 0);
        assert_eq!(cx.kernel_sp, TOP - 0x3000);
        assert_eq!(cx.sepc, parent_cx.sepc);
        assert_eq!(cx.x[2], parent_cx.x[2]);
        assert_eq!(c.inner.base_size, 0x14000);
        assert_eq!(c.inner.task_cx.sp, TOP - 0x3000);
        assert_eq!(c.inner.memory_set.read_buffer(0x10000, 0x200), vec![0x13; 0x200]);
        assert_ne!(c.inner.trap_cx_ppn, k.tasks[0].as_ref().unwrap().inner.trap_cx_ppn);
    }
    let code_ptr = 0x13ff0;
    // the child lives: nothing to collect yet
    assert_eq!(k.waitpid_current(1, code_ptr), -2);
    assert_eq!(k.waitpid_current(-1, code_ptr), -2);
    assert_eq!(k.waitpid_current(7, code_ptr), -1);
    // the child runs and ends
    assert_eq!(suspend_current_and_run_next(&mut k), 1);
    assert_eq!(running(&k), vec![1]);
    assert_eq!(status(&k, 0), TaskStatus::Ready);
    assert_eq!(exit_current_and_run_next(&mut k, 42), Some(0));
    assert_eq!(status(&k, 1), TaskStatus::Zombie);
    assert_eq!(k.tasks[1].as_ref().unwrap().inner.exit_code, 42);
    assert!(k.tasks[1].as_ref().unwrap().inner.memory_set.areas.is_empty());
    assert_eq!(running(&k), vec![0]);
    // a zombie stays a child of its parent until it is collected
    assert_eq!(children(&k, 0), vec![1]);
    assert_eq!(suspend_current_and_run_next(&mut k), 0);
    assert_eq!(children(&k, 0), vec![1]);
    assert_eq!(status(&k, 1), TaskStatus::Zombie);
    // the parent collects it
    assert_eq!(k.waitpid_current(1, code_ptr), 1);
    let parent = k.tasks[0].as_ref().unwrap();
    assert_eq!(parent.inner.memory_set.read_buffer(code_ptr, 4), 42i32.to_le_bytes().to_vec());
    assert!(parent.inner.children.is_empty());
    assert!(k.tasks[1].is_none());
    assert_eq!(k.waitpid_current(1, code_ptr), -1);
    assert_eq!(k.waitpid_current(-1, code_ptr), -1);
    // the identifier and the kernel stack are free again
    assert!(!k.res.kernel_space.translate(VirtPageNum(0x7ff_fffb)).map_or(false, |e| e.is_valid()));
    assert_eq!(k.fork_current(), 1);
}

#[test]
fn wait_for_any_child_takes_the_first_that_ended() {
    let mut k = started();
    assert_eq!(k.fork_current(), 1);
    assert_eq!(k.fork_current(), 2);
    assert_eq!(k.fork_current(), 3);
    assert_eq!(children(&k, 0), vec![1, 2, 3]);
    // 1 runs and yields, 2 ends with -5, 3 ends with 9
    assert_eq!(suspend_current_and_run_next(&mut k), 1);
    assert_eq!(suspend_current_and_run_next(&mut k), 2);
    assert_eq!(exit_current_and_run_next(&mut k, -5), Some(3));
    assert_eq!(exit_current_and_run_next(&mut k, 9), Some(0));
    assert_eq!(k.waitpid_current(1, 0x13ff0), -2);
    assert_eq!(k.waitpid_current(3, 0x13ff0), 3);
    assert_eq!(children(&k, 0), vec![1, 2]);
    assert_eq!(k.waitpid_current(-1, 0x13ff4), 2);
    assert_eq!(children(&k, 0), vec![1]);
    let space = &k.tasks[0].as_ref().unwrap().inner.memory_set;
    assert_eq!(space.read_buffer(0x13ff0, 4), 9i32.to_le_bytes().to_vec());
    assert_eq!(space.read_buffer(0x13ff4, 4), (-5i32).to_le_bytes().to_vec());
    assert_eq!(k.waitpid_current(-1, 0x13ff0), -2);
}

#[test]
fn children_of_a_task_that_ends_go_to_the_first_task() {
    let mut k = started();
    assert_eq!(k.fork_current(), 1);
    assert_eq!(suspend_current_and_run_next(&mut k), 1);
    assert_eq!(k.fork_current(), 2);
    assert_eq!(k.fork_current(), 3);
    assert_eq!(children(&k, 1), vec![2, 3]);
    assert_eq!(k.tasks[2].as_ref().unwrap().inner.parent, Some(1));
    // the queue holds 0, 2, 3
    assert_eq!(exit_current_and_run_next(&mut k, 1), Some(0));
    assert_eq!(children(&k, 0), vec![1, 2, 3]);
    assert!(children(&k, 1).is_empty());
    assert_eq!(k.tasks[2].as_ref().unwrap().inner.parent, Some(0));
    assert_eq!(k.tasks[3].as_ref().unwrap().inner.parent, Some(0));
    assert_eq!(k.waitpid_current(-1, 0x13ff0), 1);
    assert_eq!(children(&k, 0), vec![2, 3]);
}

#[test]
fn tasks_take_turns_in_order() {
    let mut k = started();
    assert_eq!(k.fork_current(), 1);
    assert_eq!(k.fork_current(), 2);
    let mut order = Vec::new();
    for _ in 0..9 {
        let next = suspend_current_and_run_next(&mut k);
        assert_eq!(running(&k), vec![next]);
        assert_eq!(k.current_task(), Some(next));
        order.push(next);
    }
    assert_eq!(order, vec![1, 2, 0, 1, 2, 0, 1, 2, 0]);
    for w in order.windows(3) {
        let mut seen = w.to_vec();
        seen.sort();
        assert_eq!(seen, vec![0, 1, 2]);
    }
}

#[test]
fn a_task_alone_runs_again_after_a_yield() {
    let mut k = started();
    assert_eq!(suspend_current_and_run_next(&mut k), 0);
    assert_eq!(status(&k, 0), TaskStatus::Running);
    assert_eq!(k.manager.ready_queue.len(), 0);
}

#[test]
fn one_task_runs_at_any_time() {
    let mut k = started();
    assert_eq!(running(&k), vec![0]);
    k.fork_current();
    assert_eq!(running(&k), vec![0]);
    k.fork_current();
    assert_eq!(running(&k), vec![0]);
    suspend_current_and_run_next(&mut k);
    assert_eq!(running(&k), vec![1]);
    exit_current_and_run_next(&mut k, 3);
    assert_eq!(running(&k), vec![2]);
    k.fork_current();
    assert_eq!(running(&k), vec![2]);
    suspend_current_and_run_next(&mut k);
    assert_eq!(running(&k), vec![0]);
    k.waitpid_current(-1, 0x13000);
    assert_eq!(running(&k), vec![0]);
    assert_eq!(status(&k, 2), TaskStatus::Ready);
}

#[test]
fn exec_puts_the_arguments_on_the_stack() {
    let mut k = started();
    let before = k.tasks[0].as_ref().unwrap().inner.memory_set.token();
    let code = vec![0x5a; 0x1800];
    let elf = program(0x20004, 0x20000, &code);
    let args = vec![String::from("ab"), String::from("c")];
    assert_eq!(k.exec_current(&elf, args), 2);
    let t = k.tasks[0].as_ref().unwrap();
    let space = &t.inner.memory_set;
    // the stack lies above the two pages of the program and a guard page
    let top: u64 = 0x22000 + 0x1000 + 0x2000;
    // the size recorded when the task was made stays
    assert_eq!(t.inner.base_size, 0x14000);
    assert_eq!(space.read_buffer(0x20000, 0x1800), code);
    assert!(!space.translate(VirtPageNum(0x10)).map_or(false, |e| e.is_valid()));
    let cx = t.inner.get_trap_cx();
    assert_eq!(cx.sepc, 0x20004);
    assert_eq!(cx.x[10], 2);
    assert_eq!(cx.x[11], top - 24);
    assert_eq!(cx.x[2], top - 32);
    assert_eq!(cx.x[2] % 8, 0);
    assert_eq!(cx.kernel_sp, TOP);
    assert_eq!(cx.trap_handler, TRAP_HANDLER);
    assert_eq!(space.read_words(top - 24, 3), vec![top - 27, top - 29, 0]);
    assert_eq!(space.read_buffer(top - 27, 3), b"ab\0".to_vec());
    assert_eq!(space.read_buffer(top - 29, 2), b"c\0".to_vec());
    // nothing else is on the stack
    assert!(space.read_buffer(top - 8192, 8192 - 29).iter().all(|b| *b == 0));
    assert_eq!(
        sv39_kernel::mm::user_buffer::translated_str(space, top - 27),
        "ab"
    );
    assert_eq!(status(&k, 0), TaskStatus::Running);
    assert_eq!(
        space.translate(VirtPageNum(0x7ff_fffe)).unwrap().ppn(),
        t.inner.trap_cx_ppn
    );
    // the frames of the old program went back
    assert!(before != 0);
}

#[test]
fn exec_without_arguments() {
    let mut k = started();
    let elf = program(0x10000, 0x10000, &[1, 2, 3, 4]);
    assert_eq!(k.exec_current(&elf, Vec::new()), 0);
    let t = k.tasks[0].as_ref().unwrap();
    let cx = t.inner.get_trap_cx();
    assert_eq!(cx.x[10], 0);
    assert_eq!(cx.x[11], 0x14000 - 8);
    assert_eq!(cx.x[2], 0x14000 - 8);
    assert_eq!(t.inner.memory_set.read_word(0x14000 - 8), 0);
}

#[test]
fn frames_come_back_when_tasks_end() {
    let mut k = started();
    let free = |k: &Kernel| {
        (k.res.frame_allocator.end - k.res.frame_allocator.current) as usize
            + k.res.frame_allocator.recycled.len()
    };
    let before = free(&k);
    assert_eq!(k.fork_current(), 1);
    assert!(free(&k) < before);
    suspend_current_and_run_next(&mut k);
    exit_current_and_run_next(&mut k, 0);
    assert!(free(&k) < before);
    assert_eq!(k.waitpid_current(1, 0x13ff0), 1);
    assert_eq!(free(&k), before);
    // no frame is held twice
    let mut held: Vec<PhysPageNum> = Vec::new();
    for f in k.res.kernel_space.page_table.frames.iter() {
        held.push(f.ppn);
    }
    for area in k.res.kernel_space.areas.iter() {
        for f in area.data_frames.iter() {
            held.push(f.ppn);
        }
    }
    let space = &k.tasks[0].as_ref().unwrap().inner.memory_set;
    for f in space.page_table.frames.iter() {
        held.push(f.ppn);
    }
    for area in space.areas.iter() {
        for f in area.data_frames.iter() {
            held.push(f.ppn);
        }
    }
    let n = held.len();
    held.sort();
    held.dedup();
    assert_eq!(held.len(), n);
    assert!(held.iter().all(|p| k.res.frame_allocator.allocated(*p)));
}

#[test]
fn calls_by_number() {
    let mut k = started();
    k.ticks = 12_500 * 1234 + 17;
    assert_eq!(syscall(&mut k, 22, [0, 0, 0]), Some(0));
    assert_eq!(syscall(&mut k, 169, [0, 0, 0]), Some(1234));
    assert_eq!(syscall(&mut k, 172, [0, 0, 0]), Some(0));
    assert_eq!(syscall(&mut k, 260, [usize::MAX, 0x13ff0, 0]), Some(-1));
    assert_eq!(k.fork_current(), 1);
    assert_eq!(syscall(&mut k, 260, [1, 0x13ff0, 0]), Some(-2));
    assert_eq!(syscall(&mut k, 124, [0, 0, 0]), Some(0));
    assert_eq!(k.current_task(), Some(1));
    assert_eq!(syscall(&mut k, 172, [0, 0, 0]), Some(1));
    assert_eq!(syscall(&mut k, 93, [7, 0, 0]), None);
    assert_eq!(k.current_task(), Some(0));
    assert_eq!(syscall(&mut k, 260, [usize::MAX, 0x13ff0, 0]), Some(1));
    let space = &k.tasks[0].as_ref().unwrap().inner.memory_set;
    assert_eq!(space.read_buffer(0x13ff0, 4), vec![7, 0, 0, 0]);
}

#[test]
fn calls_by_name() {
    let mut k = started();
    k.ticks = 25_000_000;
    assert_eq!(sys_taskinfo(), 0);
    assert_eq!(sys_get_time(&k), 2000);
    assert_eq!(sys_getpid(&k), 0);
    assert_eq!(sys_fork(&mut k), 1);
    assert_eq!(k.tasks[1].as_ref().unwrap().inner.get_trap_cx().x[10], 0);
    assert_eq!(sys_waitpid(&mut k, 1, 0x13ff0), -2);
    assert_eq!(sys_yield(&mut k), 0);
    assert_eq!(sys_getpid(&k), 1);
    let elf = program(0x30000, 0x30000, &[9; 16]);
    assert_eq!(sys_exec(&mut k, &elf, vec![String::from("x")]), 1);
    assert_eq!(k.current_trap_cx().sepc, 0x30000);
    assert_eq!(sys_exit(&mut k, -3), Some(0));
    assert_eq!(sys_waitpid(&mut k, -1, 0x13ff0), 1);
    let space = &k.tasks[0].as_ref().unwrap().inner.memory_set;
    assert_eq!(space.read_buffer(0x13ff0, 4), (-3i32).to_le_bytes().to_vec());
}

#[test]
fn saved_registers_are_stored() {
    let mut k = started();
    assert_eq!(k.fork_current(), 1);
    let before = k.tasks[0].as_ref().unwrap().inner.memory_set.read_buffer(0x10000, 0x200);
    let mut cx = k.current_trap_cx();
    cx.step_over_call();
    cx.set_return(1);
    cx.x[5] = 0x55;
    k.set_current_trap_cx(&cx);
    let stored = k.current_trap_cx();
    assert_eq!(stored.sepc, 0x10004);
    assert_eq!(stored.x[10], 1);
    assert_eq!(stored.x[5], 0x55);
    assert_eq!(stored.x[2], 0x14000);
    assert_eq!(stored.kernel_sp, TOP);
    // the task that waits is written to as well
    let mut other = k.tasks[1].as_ref().unwrap().inner.get_trap_cx();
    assert_eq!(other.x[10], 0);
    other.x[11] = 9;
    k.set_trap_cx(1, &other);
    assert_eq!(k.tasks[1].as_ref().unwrap().inner.get_trap_cx().x[11], 9);
    assert_eq!(k.tasks[1].as_ref().unwrap().inner.get_trap_cx().sepc, 0x10000);
    // nothing else changed
    assert_eq!(k.current_trap_cx().x[5], 0x55);
    assert_eq!(k.current_trap_cx().x[11], 0);
    assert_eq!(k.tasks[0].as_ref().unwrap().inner.memory_set.read_buffer(0x10000, 0x200), before);
    assert_eq!(status(&k, 0), TaskStatus::Running);
    assert_eq!(status(&k, 1), TaskStatus::Ready);
    assert_eq!(children(&k, 0), vec![1]);
    assert_eq!(suspend_current_and_run_next(&mut k), 1);
    assert_eq!(k.current_trap_cx().x[11], 9);
}

#[test]
fn signals_of_the_running_task() {
    let mut k = started();
    assert_eq!(k.fork_current(), 1);
    assert_eq!(k.check_signals_error_of_current(), None);
    k.current_add_signal(SignalFlags { bits: SIGUSR1 });
    assert_eq!(k.check_signals_error_of_current(), None);
    assert_eq!(k.tasks[0].as_ref().unwrap().inner.signals.bits, SIGUSR1);
    assert_eq!(suspend_current_and_run_next(&mut k), 1);
    k.current_add_signal(SignalFlags { bits: SIGSEGV });
    k.current_add_signal(SignalFlags { bits: SIGINT });
    assert_eq!(k.tasks[1].as_ref().unwrap().inner.signals.bits, SIGSEGV | SIGINT);
    assert_eq!(k.tasks[0].as_ref().unwrap().inner.signals.bits, SIGUSR1);
    let (code, text) = k.check_signals_error_of_current().unwrap();
    assert_eq!((code, text), (-2, "Killed, SIGINT=2"));
    assert_eq!(exit_current_and_run_next(&mut k, code), Some(0));
    assert_eq!(k.waitpid_current(1, 0x13ff0), 1);
    let space = &k.tasks[0].as_ref().unwrap().inner.memory_set;
    assert_eq!(space.read_buffer(0x13ff0, 4), (-2i32).to_le_bytes().to_vec());
}

#[test]
fn spaces_are_found_by_their_token() {
    let mut k = started();
    assert_eq!(k.fork_current(), 1);
    let kernel_token = k.res.kernel_space.token();
    let first = k.tasks[0].as_ref().unwrap().inner.get_user_token();
    let second = k.tasks[1].as_ref().unwrap().inner.get_user_token();
    assert_ne!(first, second);
    assert_ne!(first, kernel_token);
    assert_eq!(k.space_of_token(kernel_token).unwrap().token(), kernel_token);
    assert_eq!(k.space_of_token(kernel_token).unwrap().areas.len(), 8);
    assert_eq!(k.space_of_token(first).unwrap().token(), first);
    assert_eq!(k.space_of_token(second).unwrap().token(), second);
    assert_eq!(k.space_of_token(second).unwrap().read_byte(0x10000), 0x13);
    assert!(k.space_of_token(0).is_none());
    assert!(k.space_of_token(second + 100).is_none());
    assert_eq!(k.current_user_token(), first);
}

fn small_layout(frames: u64) -> KernelLayout {
    KernelLayout {
        stext: 0x8020_0000,
        etext: 0x8020_8000,
        srodata: 0x8020_8000,
        erodata: 0x8020_c000,
        sdata: 0x8020_c000,
        edata: 0x8021_0000,
        sbss_with_stack: 0x8021_0000,
        ebss: 0x8024_0000,
        ekernel: 0x8024_0000,
        strampoline: 0x8020_1000,
        memory_end: 0x8024_0000 + frames * 4096,
        mmio: Vec::new(),
    }
}

#[test]
fn the_kernel_starts_with_the_first_task_running() {
    let elf = program(0x10020, 0x10000, &[7; 0x300]);
    // thirteen frames for the kernel space, thirteen for the program, four
    // for the kernel stack
    assert!(!can_start_on(&small_layout(29), &elf));
    assert!(can_start_on(&small_layout(30), &elf));
    assert!(!can_start_on(&small_layout(30), &elf[..elf.len() - 1]));
    let mut overlap = small_layout(1000);
    overlap.edata = 0x8022_0000;
    assert!(!can_start_on(&overlap, &elf));
    let k = rust_main(&small_layout(30), &elf, TRAP_HANDLER, TRAP_RETURN, 0x100);
    assert_eq!(k.initproc, 0);
    assert_eq!(k.ticks, 0);
    assert_eq!(k.tasks.len(), 1);
    assert_eq!(k.current_task(), Some(0));
    assert_eq!(status(&k, 0), TaskStatus::Running);
    assert_eq!(k.manager.ready_queue.len(), 0);
    let t = k.tasks[0].as_ref().unwrap();
    assert_eq!(t.inner.parent, None);
    let cx = t.inner.get_trap_cx();
    assert_eq!(cx.sepc, 0x10020);
    assert_eq!(cx.x[2], 0x14000);
    assert_eq!(cx.sstatus, 0);
    assert_eq!(cx.kernel_satp, k.res.kernel_space.token());
    assert_eq!(cx.kernel_sp, TOP);
    assert_eq!(t.inner.memory_set.read_buffer(0x10000, 0x300), vec![7; 0x300]);
    assert_eq!(k.res.kernel_space.page_table.root_ppn, PhysPageNum(0x80240));
}

#[test]
fn a_program_finds_its_arguments() {
    let mut k = started();
    let elf = program(0x20000, 0x20000, &[1; 64]);
    let args = vec![String::from("cat"), String::new(), String::from("fil\u{e9}"), "x".repeat(300)];
    assert_eq!(k.exec_current(&elf, args.clone()), 4);
    let cx = k.current_trap_cx();
    let space = &k.tasks[0].as_ref().unwrap().inner.memory_set;
    let found = read_args(space, cx.x[10] as usize, cx.x[11]).unwrap();
    let expected: Vec<Vec<u8>> = args.iter().map(|a| a.as_bytes().to_vec()).collect();
    assert_eq!(found, expected);
    assert_eq!(cx.x[2] % 8, 0);
    assert_eq!(cx.x[2], (cx.x[11] - (4 + 1 + 6 + 301)) & !7);
    // fewer arguments than there are
    assert_eq!(read_args(space, 2, cx.x[11]).unwrap(), expected[..2].to_vec());
    assert_eq!(read_args(space, 0, cx.x[11]), Some(Vec::new()));
    // the entry after the last holds no address of a string
    assert_eq!(read_args(space, 5, cx.x[11]), None);
    // an array that is not there
    assert_eq!(read_args(space, 1, 0x4000_0000), None);
    assert_eq!(read_args(space, 1, u64::MAX - 3), None);
    assert_eq!(read_args(space, usize::MAX, cx.x[11]), None);
    // an entry that lies in two pages
    assert_eq!(read_args(space, 1, 0x20ffc), None);
    assert_eq!(user_str_bytes(space, 0x20000), Some(vec![1; 64]));
    assert_eq!(user_str_bytes(space, 0x50000), None);
    assert_eq!(user_str_bytes(space, 0x20040), Some(Vec::new()));
    assert_eq!(user_str_bytes(space, 0x2003e), Some(vec![1, 1]));
}

fn ask(k: &mut Kernel, id: u64, args: [u64; 3]) -> CallOutcome {
    let mut cx = k.current_trap_cx();
    cx.x[17] = id;
    cx.x[10] = args[0];
    cx.x[11] = args[1];
    cx.x[12] = args[2];
    k.set_current_trap_cx(&cx);
    user_env_call(k)
}

#[test]
fn calls_through_the_saved_registers() {
    let mut k = started();
    // fork: the parent sees the child, the child sees zero, both go on
    // after the call
    assert_eq!(ask(&mut k, 220, [0, 0, 0]), CallOutcome::Returned(1));
    let parent = k.current_trap_cx();
    assert_eq!(parent.x[10], 1);
    assert_eq!(parent.sepc, 0x10004);
    let child = k.tasks[1].as_ref().unwrap().inner.get_trap_cx();
    assert_eq!(child.x[10], 0);
    assert_eq!(child.sepc, 0x10004);
    assert_eq!(child.x[17], 220);
    // the page of the trap context of the child is that of the parent but
    // for the result of the call and the top of the kernel stack
    {
        let page = |k: &Kernel, pid: usize| {
            let space = &k.tasks[pid].as_ref().unwrap().inner.memory_set;
            space.areas.last().unwrap().data_frames[0].get_bytes_array().to_vec()
        };
        let mut expected = page(&k, 0);
        expected[80..88].copy_from_slice(&0u64.to_le_bytes());
        expected[280..288].copy_from_slice(&(TOP - 0x3000).to_le_bytes());
        assert_eq!(page(&k, 1), expected);
        assert!(page(&k, 1)[296..].iter().all(|b| *b == 0));
    }
    // wait: the child has not ended
    assert_eq!(ask(&mut k, 260, [1, 0x13ff0, 0]), CallOutcome::Returned(-2));
    assert_eq!(k.current_trap_cx().x[10], (-2i64) as u64);
    assert_eq!(k.current_trap_cx().sepc, 0x10008);
    // yield: the result goes to the task that asked, not to the one that runs
    assert_eq!(ask(&mut k, 124, [0, 0, 0]), CallOutcome::Returned(0));
    assert_eq!(k.current_task(), Some(1));
    assert_eq!(k.tasks[0].as_ref().unwrap().inner.get_trap_cx().x[10], 0);
    assert_eq!(k.tasks[0].as_ref().unwrap().inner.get_trap_cx().sepc, 0x1000c);
    assert_eq!(k.current_trap_cx().x[10], 0);
    assert_eq!(k.current_trap_cx().sepc, 0x10004);
    // the first task is not ended for a call that does not exist
    assert_eq!(ask(&mut k, 124, [0, 0, 0]), CallOutcome::Returned(0));
    assert_eq!(k.current_task(), Some(0));
    assert_eq!(ask(&mut k, 9999, [1, 2, 3]), CallOutcome::Refused);
    assert_eq!(status(&k, 0), TaskStatus::Running);
    assert_eq!(k.current_trap_cx().sepc, 0x10010);
    assert_eq!(ask(&mut k, 124, [0, 0, 0]), CallOutcome::Returned(0));
    assert_eq!(k.current_task(), Some(1));
    // getpid, then exit with code -7
    assert_eq!(ask(&mut k, 172, [0, 0, 0]), CallOutcome::Returned(1));
    assert_eq!(ask(&mut k, 93, [(-7i64) as u64, 0, 0]), CallOutcome::NoReturn);
    assert_eq!(k.current_task(), Some(0));
    assert_eq!(status(&k, 1), TaskStatus::Zombie);
    // the first task is not to end
    assert_eq!(ask(&mut k, 93, [0, 0, 0]), CallOutcome::Refused);
    assert_eq!(status(&k, 0), TaskStatus::Running);
    // the parent collects the child
    assert_eq!(ask(&mut k, 260, [u64::MAX, 0x13ff0, 0]), CallOutcome::Returned(1));
    assert_eq!(k.current_trap_cx().x[10], 1);
    let space = &k.tasks[0].as_ref().unwrap().inner.memory_set;
    assert_eq!(space.read_buffer(0x13ff0, 4), (-7i32).to_le_bytes().to_vec());
    // a place for the exit code that has no frame
    assert_eq!(ask(&mut k, 220, [0, 0, 0]), CallOutcome::Returned(1));
    assert_eq!(ask(&mut k, 124, [0, 0, 0]), CallOutcome::Returned(0));
    assert_eq!(ask(&mut k, 93, [0, 0, 0]), CallOutcome::NoReturn);
    assert_eq!(ask(&mut k, 260, [1, 0x5000_0000, 0]), CallOutcome::Refused);
    assert_eq!(ask(&mut k, 260, [1, 0x13ff0, 0]), CallOutcome::Returned(1));
}

#[test]
fn a_call_that_does_not_exist_ends_the_task() {
    let mut k = started();
    assert_eq!(ask(&mut k, 220, [0, 0, 0]), CallOutcome::Returned(1));
    assert_eq!(ask(&mut k, 220, [0, 0, 0]), CallOutcome::Returned(2));
    assert_eq!(ask(&mut k, 124, [0, 0, 0]), CallOutcome::Returned(0));
    assert_eq!(k.current_task(), Some(1));
    // a call on files is left to the caller
    assert_eq!(ask(&mut k, 63, [0, 0x13000, 8]), CallOutcome::Refused);
    assert_eq!(status(&k, 1), TaskStatus::Running);
    assert!(sv39_kernel::syscall::is_listed_call(63));
    assert!(sv39_kernel::syscall::is_listed_call(221));
    assert!(!sv39_kernel::syscall::is_listed_call(9999));
    assert!(!sv39_kernel::syscall::can_syscall(&k, 63, [0, 0, 0]));
    // task 1 asks for call 9999: it is ended with a code that is not zero,
    // and the others go on
    assert_eq!(ask(&mut k, 9999, [0, 0, 0]), CallOutcome::Unknown(-1));
    assert_eq!(status(&k, 1), TaskStatus::Zombie);
    assert_eq!(k.tasks[1].as_ref().unwrap().inner.exit_code, -1);
    assert_eq!(k.current_task(), Some(2));
    assert_eq!(status(&k, 2), TaskStatus::Running);
    assert_eq!(status(&k, 0), TaskStatus::Ready);
    assert_eq!(ask(&mut k, 172, [0, 0, 0]), CallOutcome::Returned(2));
    assert_eq!(ask(&mut k, 124, [0, 0, 0]), CallOutcome::Returned(0));
    assert_eq!(k.current_task(), Some(0));
    assert_eq!(ask(&mut k, 260, [1, 0x13ff0, 0]), CallOutcome::Returned(1));
    let space = &k.tasks[0].as_ref().unwrap().inner.memory_set;
    assert_eq!(space.read_buffer(0x13ff0, 4), (-1i32).to_le_bytes().to_vec());
    // the same through the dispatcher alone
    assert_eq!(ask(&mut k, 124, [0, 0, 0]), CallOutcome::Returned(0));
    assert_eq!(k.current_task(), Some(2));
    assert!(sv39_kernel::syscall::can_syscall(&k, 7, [0, 0, 0]));
    assert!(!sv39_kernel::syscall::is_known_call(7));
    assert!(sv39_kernel::syscall::is_known_call(64));
    assert_eq!(syscall(&mut k, 7, [0, 0, 0]), None);
    assert_eq!(status(&k, 2), TaskStatus::Zombie);
    assert_eq!(k.tasks[2].as_ref().unwrap().inner.exit_code, -1);
    assert_eq!(k.current_task(), Some(0));
}

#[test]
fn a_write_gives_the_bytes_to_put_out() {
    let mut k = started();
    let text = b"hello, console";
    {
        let t = k.tasks[0].as_mut().unwrap();
        t.inner.memory_set.write_bytes(0x12ff8, &text[..8]);
        t.inner.memory_set.write_bytes(0x13000, &text[8..]);
    }
    // descriptor 1 is the console
    assert_eq!(
        ask(&mut k, 64, [1, 0x12ff8, 14]),
        CallOutcome::Wrote(14, FileRef::Stdout, text.to_vec())
    );
    assert_eq!(k.current_trap_cx().x[10], 14);
    assert_eq!(k.current_trap_cx().sepc, 0x10004);
    assert_eq!(sys_write(&k, 2, 0x13000, 6), (6, Some((FileRef::Stdout, b"onsole".to_vec()))));
    assert_eq!(sys_write(&k, 1, 0x13000, 0), (0, Some((FileRef::Stdout, Vec::new()))));
    // the console for reading, and descriptors that are not open
    assert_eq!(sys_write(&k, 0, 0x13000, 6), (-1, None));
    assert_eq!(sys_write(&k, 3, 0x13000, 6), (-1, None));
    assert_eq!(ask(&mut k, 64, [0, 0x12ff8, 14]), CallOutcome::Returned(-1));
    assert_eq!(ask(&mut k, 64, [7, 0x5000_0000, 14]), CallOutcome::Returned(-1));
    assert_eq!(syscall(&mut k, 64, [1, 0x12ff8, 14]), Some(14));
    // an open file
    k.tasks[0].as_mut().unwrap().inner.fd_table.push(Some(FileRef::Open(5)));
    assert_eq!(
        ask(&mut k, 64, [3, 0x13004, 2]),
        CallOutcome::Wrote(2, FileRef::Open(5), b"le".to_vec())
    );
    // a buffer that runs into a page without a frame
    assert!(can_write(&k, 1, 0x13ff0, 16));
    assert!(!can_write(&k, 1, 0x13ff0, 17));
    assert!(!can_write(&k, 1, u64::MAX, 2));
    assert!(can_write(&k, 0, u64::MAX, 2));
    assert_eq!(ask(&mut k, 64, [1, 0x13ff0, 17]), CallOutcome::Refused);
    assert!(k.tasks[0].as_ref().unwrap().inner.memory_set.is_buffer_backed(0x10000, 0x1000));
    assert!(!k.tasks[0].as_ref().unwrap().inner.memory_set.is_buffer_backed(0x10000, 0x1001));
    assert!(k.tasks[0].as_ref().unwrap().inner.memory_set.is_buffer_backed(0x12000, 0x2000));
}

#[test]
fn a_fatal_signal_ends_the_task() {
    let mut k = started();
    assert_eq!(k.fork_current(), 1);
    assert_eq!(k.handle_fatal_signal(), None);
    k.current_add_signal(SignalFlags { bits: SIGUSR1 });
    assert_eq!(k.handle_fatal_signal(), None);
    assert_eq!(status(&k, 0), TaskStatus::Running);
    assert_eq!(suspend_current_and_run_next(&mut k), 1);
    k.current_add_signal(SignalFlags { bits: SIGSEGV });
    assert_eq!(k.handle_fatal_signal(), Some((-11, "Segmentation Fault, SIGSEGV=11")));
    assert_eq!(status(&k, 1), TaskStatus::Zombie);
    assert_eq!(k.tasks[1].as_ref().unwrap().inner.exit_code, -11);
    assert_eq!(k.current_task(), Some(0));
    // the first task is not ended
    k.current_add_signal(SignalFlags { bits: SIGINT });
    assert_eq!(k.handle_fatal_signal(), Some((-2, "Killed, SIGINT=2")));
    assert_eq!(status(&k, 0), TaskStatus::Running);
    assert_eq!(k.current_task(), Some(0));
}
