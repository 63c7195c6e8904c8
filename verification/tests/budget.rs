use sv39_kernel::mm::address::{PhysPageNum, VirtAddr};
use sv39_kernel::mm::budget::{elf_fits, elf_frames, frames_for_areas, tables_for};
use sv39_kernel::mm::frame_allocator::{frame_alloc, frame_dealloc, StackFrameAllocator};
use sv39_kernel::mm::memory_set::{MapArea, MapPermission, MapType, MemorySet};
use sv39_kernel::mm::spaces::KernelLayout;
use sv39_kernel::syscall::{can_syscall, syscall};
use sv39_kernel::task::budget::args_fit_stack;
use sv39_kernel::task::kernel::Kernel;
use sv39_kernel::task::pid::{KernelStack, PidAllocator};

fn put(buf: &mut Vec<u8>, off: usize, bytes: &[u8]) {
    buf[off..off + bytes.len()].copy_from_slice(bytes);
}

/// An ELF file with segments to load, each as its address, its size in
/// memory and the number of its bytes in the file.
fn elf(segments: &[(u64, u64, u64)]) -> Vec<u8> {
    let n = segments.len();
    let mut data = vec![0u8; 64 + 56 * n];
    put(&mut data, 0, &[0x7f, 0x45, 0x4c, 0x46, 2, 1, 1, 0]);
    put(&mut data, 24, &0x10000u64.to_le_bytes());
    put(&mut data, 32, &64u64.to_le_bytes());
    put(&mut data, 54, &56u16.to_le_bytes());
    put(&mut data, 56, &(n as u16).to_le_bytes());
    for (i, (vaddr, memsz, filesz)) in segments.iter().enumerate() {
        let base = 64 + 56 * i;
        let offset = data.len() as u64;
        put(&mut data, base, &1u32.to_le_bytes());
        put(&mut data, base + 4, &7u32.to_le_bytes());
        put(&mut data, base + 8, &offset.to_le_bytes());
        put(&mut data, base + 16, &vaddr.to_le_bytes());
        put(&mut data, base + 32, &filesz.to_le_bytes());
        put(&mut data, base + 40, &memsz.to_le_bytes());
        data.extend(std::iter::repeat(0x5au8).take(*filesz as usize));
    }
    data
}

fn layout() -> KernelLayout {
    KernelLayout {
        stext: 0x8020_0000,
        etext: 0x8020_8000,
        srodata: 0x8020_8000,
        erodata: 0x8020_c000,
        sdata: 0x8020_c000,
        edata: 0x8021_0000,
        sbss_with_stack: 0x8021_0000,
        ebss: 0x8024_0000,
        ekernel: 0x8024_0000,
        strampoline: 0x8020_1000,
        memory_end: 0x8080_0000,
        mmio: vec![(0x1000_1000, 0x1000)],
    }
}

#[test]
fn page_tables_for_a_range() {
    assert_eq!(tables_for(5, 5), 0);
    assert_eq!(tables_for(9, 5), 0);
    assert_eq!(tables_for(0, 1), 2);
    assert_eq!(tables_for(0, 512), 2);
    assert_eq!(tables_for(0, 513), 3);
    assert_eq!(tables_for(511, 513), 3);
    assert_eq!(tables_for(0x3_ffff, 0x4_0001), 4);
    assert_eq!(tables_for(0, 0x800_0000), 2 + 0x3_ffff + 511);
}

#[test]
fn frames_for_areas_of_both_kinds() {
    let framed = MapArea::new(
        VirtAddr(0x10000),
        VirtAddr(0x13000),
        MapType::Framed,
        MapPermission { bits: 6 },
    );
    let identical = MapArea::new(
        VirtAddr(0x8020_0000),
        VirtAddr(0x8060_0000),
        MapType::Identical,
        MapPermission { bits: 6 },
    );
    assert_eq!(framed.frames_for(), 2 + 3);
    assert_eq!(identical.frames_for(), 2 + 1);
    assert_eq!(frames_for_areas(&vec![framed, identical]), 8);
    assert_eq!(frames_for_areas(&Vec::new()), 0);
}

#[test]
fn free_frames_are_counted() {
    let mut a = StackFrameAllocator::new();
    a.init(PhysPageNum(0x100), PhysPageNum(0x110));
    assert_eq!(a.free_frames(), 16);
    let f = frame_alloc(&mut a).unwrap();
    let _g = frame_alloc(&mut a).unwrap();
    assert_eq!(a.free_frames(), 14);
    frame_dealloc(&mut a, f);
    assert_eq!(a.free_frames(), 15);
}

#[test]
fn program_files_that_can_be_loaded() {
    assert!(elf_fits(&elf(&[(0x10000, 0x200, 0x200)])));
    assert!(elf_fits(&elf(&[])));
    assert!(elf_fits(&elf(&[(0x10000, 0x2000, 0x10), (0x12000, 0x1000, 0)])));
    // two segments in one page
    assert!(!elf_fits(&elf(&[(0x10000, 0x200, 0x200), (0x10800, 0x200, 0x200)])));
    assert!(!elf_fits(&elf(&[(0x12000, 0x200, 0), (0x10000, 0x2001, 0)])));
    // an empty segment meets nothing
    assert!(elf_fits(&elf(&[(0x10000, 0x200, 0x200), (0x10000, 0, 0)])));
    // more bytes in the file than in memory
    assert!(!elf_fits(&elf(&[(0x10000, 0x1000, 0x1001)])));
    // bytes that the file does not hold
    let mut short = elf(&[(0x10000, 0x200, 0x200)]);
    short.pop();
    assert!(!elf_fits(&short));
    // an end that wraps around
    assert!(!elf_fits(&elf(&[(u64::MAX - 0xfff, 0x1000, 0)])));
    // no room for the stack below the trap context
    assert!(!elf_fits(&elf(&[(0x7f_ffff_b000, 0x1000, 0)])));
    assert!(elf_fits(&elf(&[(0x7f_ffff_a000, 0x1000, 0)])));
    // not a program file
    let mut bad = elf(&[(0x10000, 0x200, 0x200)]);
    bad[0] = 0;
    assert!(!elf_fits(&bad));
    assert!(!elf_fits(&[]));
}

#[test]
fn frames_for_a_program() {
    // three for the root and the trampoline, a segment of one page with
    // two tables, the stack with two tables, the trap context with two
    assert_eq!(elf_frames(&elf(&[(0x10000, 0x200, 0x200)])), 3 + 3 + 2 + 2 + 2 + 1);
    assert_eq!(elf_frames(&elf(&[])), 3 + 2 + 2 + 2 + 1);
    assert_eq!(
        elf_frames(&elf(&[(0x10000, 0x3000, 0), (0x20_0000, 0x1000, 0)])),
        3 + (2 + 3) + (2 + 1) + 2 + 2 + 2 + 1
    );
    let file = elf(&[(0x10000, 0x200, 0x200)]);
    let mut a = StackFrameAllocator::new();
    a.init(PhysPageNum(0x100), PhysPageNum(0x100 + 13));
    let (space, _, _) = MemorySet::from_elf(&file, 0x8020_1000, &mut a);
    assert_eq!(space.areas.len(), 3);
    // the stack shares the tables of the segment, and the trap context
    // those of the trampoline
    assert_eq!(a.free_frames(), 4);
}

#[test]
fn layouts_that_are_in_order() {
    let good = layout();
    assert!(good.in_order());
    assert!(good.can_boot());
    assert_eq!(good.frames(), 3 + 2 + 2 + 2 + 2 + 4 + 2);
    assert_eq!(
        good.page_ranges(),
        Some(vec![
            (0x80200, 0x80208),
            (0x80208, 0x8020c),
            (0x8020c, 0x80210),
            (0x80210, 0x80240),
            (0x80240, 0x80800),
            (0x10001, 0x10002),
        ])
    );
    let mut overlap = layout();
    overlap.erodata = 0x8020_c001;
    assert!(!overlap.in_order());
    assert!(!overlap.can_boot());
    let mut askew = layout();
    askew.strampoline = 0x8020_1008;
    assert!(!askew.in_order());
    assert!(!askew.can_boot());
    let mut backwards = layout();
    backwards.etext = 0x801f_f000;
    assert!(!backwards.in_order());
    let mut wraps = layout();
    wraps.mmio = vec![(u64::MAX, 1)];
    assert_eq!(wraps.page_ranges(), None);
    assert!(!wraps.in_order());
    let mut window_in_memory = layout();
    window_in_memory.mmio.push((0x8030_0000, 0x1000));
    assert!(!window_in_memory.in_order());
    let mut small = layout();
    small.memory_end = 0x8024_0000 + 14 * 4096;
    assert!(small.in_order());
    assert!(!small.can_boot());
    small.memory_end = 0x8024_0000 + 15 * 4096;
    assert!(small.in_order());
    assert_eq!(small.frames(), 3 + 2 + 2 + 2 + 2 + 2 + 2);
    assert!(small.can_boot());
}

#[test]
fn arguments_that_fit() {
    assert!(args_fit_stack(&Vec::new()));
    assert!(args_fit_stack(&vec![String::from("a"), String::from("bc")]));
    // 8 for the end of the array, 8 for the pointer, the bytes and a zero
    assert!(args_fit_stack(&vec!["x".repeat(8192 - 17)]));
    assert!(!args_fit_stack(&vec!["x".repeat(8192 - 16)]));
    assert!(!args_fit_stack(&vec!["x".repeat(9000)]));
    assert!(args_fit_stack(&vec![String::new(); 909]));
    assert!(args_fit_stack(&vec![String::new(); 910]) == (8 * 911 + 910 <= 8192));
    assert!(!args_fit_stack(&vec![String::new(); 911]));
    assert!(!args_fit_stack(&vec![String::new(); 2000]));
}

#[test]
fn identifiers_and_stacks() {
    let mut a = PidAllocator::new();
    assert_eq!(a.peek(), 0);
    let p = a.allocate();
    let _q = a.allocate();
    assert_eq!(a.peek(), 2);
    p.release(&mut a);
    assert_eq!(a.peek(), 0);
    assert_eq!(KernelStack::frames_for(0), 4);
    assert_eq!(KernelStack::frames_for(5), 4);
    // the stack of task 170 lies in two leaf tables
    assert_eq!(KernelStack::frames_for(170), 5);
}

#[test]
fn what_a_kernel_is_ready_for() {
    let mut small = layout();
    small.memory_end = 0x8024_0000 + 45 * 4096;
    assert!(small.can_boot());
    let mut k = Kernel::boot(&small, 0x8020_5000, 0x8020_1040, 0);
    let program = elf(&[(0x10000, 0x200, 0x200)]);
    assert!(!k.can_exit());
    assert!(!k.can_fork());
    assert!(!k.can_wait(-1, 0x13ff0));
    assert!(!k.can_exec(&program, &Vec::new()));
    assert!(!can_syscall(&k, 172, [0, 0, 0]));
    assert!(k.can_start(&program));
    assert!(!k.can_start(&program[..100]));
    let big = elf(&[(0x10000, 0x3_0000, 0)]);
    assert!(!k.can_start(&big));
    k.add_initproc(&program);
    k.run_tasks();
    assert!(!k.can_exit());
    assert!(k.can_fork());
    assert!(k.can_wait(-1, 0));
    assert!(k.can_exec(&program, &vec![String::from("a")]));
    assert!(!k.can_exec(&program, &vec!["x".repeat(9000)]));
    assert!(!k.can_exec(&big, &Vec::new()));
    assert!(!k.can_exec(&[1, 2, 3], &Vec::new()));
    assert_eq!(k.fork_current(), 1);
    // the frames that are left do not hold one more task
    assert!(!k.can_fork());
    assert!(!can_syscall(&k, 220, [0, 0, 0]));
    assert!(can_syscall(&k, 124, [0, 0, 0]));
    assert!(!can_syscall(&k, 93, [0, 0, 0]));
    assert!(can_syscall(&k, 64, [1, 0x10000, 4]));
    assert!(!can_syscall(&k, 64, [1, 0x5000_0000, 4]));
    // the first task is not ended for a call that does not exist
    assert!(!can_syscall(&k, 221, [0, 0, 0]));
    assert_eq!(syscall(&mut k, 124, [0, 0, 0]), Some(0));
    assert!(k.can_exit());
    assert!(can_syscall(&k, 93, [3, 0, 0]));
    assert_eq!(syscall(&mut k, 93, [3, 0, 0]), None);
    // a child has ended: the place of the exit code counts
    assert!(k.can_wait(1, 0x13ff0));
    assert!(k.can_wait(-1, 0x12ffc));
    assert!(!k.can_wait(-1, 0x12ffd));
    assert!(!k.can_wait(1, 0x11000));
    assert!(!k.can_wait(1, 0x10000_0000));
    assert!(k.can_wait(5, 0x10000_0000));
    assert!(!can_syscall(&k, 260, [1, 0x14000, 0]));
    assert!(can_syscall(&k, 260, [1, 0x13ffc, 0]));
    assert_eq!(syscall(&mut k, 260, [1, 0x13ffc, 0]), Some(1));
    assert!(k.can_fork());
    assert!(can_syscall(&k, 220, [0, 0, 0]));
    assert_eq!(syscall(&mut k, 220, [0, 0, 0]), Some(1));
    assert_eq!(k.tasks[1].as_ref().unwrap().inner.parent, Some(0));
}
