//! Memory and task substrate of a small Sv39 kernel for 64-bit RISC-V:
//! address arithmetic, physical frames, three-level page tables, address
//! spaces, task control blocks with a FIFO scheduler, and the block cache
//! and allocation bitmap of the on-disk file system.
//!
//! All state is passed explicitly: every operation takes the allocator,
//! address space or task table it works on and says in its contract how it
//! changes them.
pub mod config;
pub mod fs;
pub mod logging;
pub mod mm;
pub mod syscall;
pub mod task;
pub mod trap;
pub mod user;

use crate::mm::budget::{elf_fits, elf_frames};
use crate::mm::elf::{le64, spec_headers};
use crate::mm::loader::{elf_frames_needed, elf_loadable, max_end, program_space, user_stack_top};
use crate::mm::spaces::KernelLayout;
use crate::task::kernel::Kernel;
use crate::task::pid::{kstack_top, KernelStack};
use crate::task::task::TaskStatus;
use crate::trap::context::TrapContext;
use vstd::prelude::*;

verus! {

/// Whether a kernel can start on `layout` with the program of the file
/// `elf` as its first task: a kernel can be set up as the layout says, the
/// file can be loaded, and the frames that are free after the set-up
/// suffice for the program and a kernel stack.
pub open spec fn startable_on(layout: &KernelLayout, elf: Seq<u8>) -> bool {
    &&& layout.bootable()
    &&& elf_loadable(elf)
    &&& (layout.memory_end as int % 0x100_0000_0000_0000) / 4096 - (layout.ekernel as int
        % 0x100_0000_0000_0000 + 4095) / 4096 - layout.frames_needed() >= elf_frames_needed(elf)
        + KernelStack::frames_needed(0)
}

/// Whether a kernel can start on `layout` with the program of the file
/// `elf_data` as its first task.
pub fn can_start_on(layout: &KernelLayout, elf_data: &[u8]) -> (r: bool)
    ensures
        r == startable_on(layout, elf_data@),
{
    if !layout.can_boot() || !elf_fits(elf_data) {
        return false;
    }
    let first: u64 = (layout.ekernel % 0x100_0000_0000_0000 + 4095) / 4096;
    let end: u64 = (layout.memory_end % 0x100_0000_0000_0000) / 4096;
    end as u128 >= first as u128 + layout.frames() + elf_frames(elf_data) + KernelStack::frames_for(
        0,
    ) as u128
}

/// Starts the kernel: sets up its memory as `layout` says, makes the
/// first task from the program of the file `elf_data`, and puts it on the
/// processor. The task has identifier zero and no parent; its trap context
/// starts the program at its entry point on an empty user stack. Contexts
/// are made with the addresses `trap_handler` and `trap_return` and the
/// status `sstatus`.
pub fn rust_main(
    layout: &KernelLayout,
    elf_data: &[u8],
    trap_handler: u64,
    trap_return: u64,
    sstatus: u64,
) -> (r: Kernel)
    requires
        startable_on(layout, elf_data@),
    ensures
        r.wf(),
        r.initproc == 0,
        r.ticks == 0,
        r.processor.current == Some(0usize),
        r.manager.ready_queue@.len() == 0,
        r.tasks@.len() == 1,
        r.live(0),
        r.status(0) == TaskStatus::Running,
        r.task(0).inner.parent is None,
        r.task(0).inner.children@.len() == 0,
        r.res.strampoline == layout.strampoline,
        r.res.trap_handler == trap_handler,
        r.res.trap_return == trap_return,
        r.res.sstatus == sstatus,
        program_space(&r.task(0).inner.memory_set, elf_data@, layout.strampoline),
        r.task(0).inner.trap_cx_words() == TrapContext::spec_app_init(
            le64(elf_data@, 24),
            user_stack_top(max_end(spec_headers(elf_data@))),
            (8u64 << 60) | r.res.kernel_space.page_table.root_ppn.0,
            kstack_top(0),
            trap_handler,
            sstatus,
        ),
{
    let mut kernel = Kernel::boot(layout, trap_handler, trap_return, sstatus);
    let ghost booted = kernel;
    kernel.add_initproc(elf_data);
    let ghost made = kernel;
    proof {
        reveal(crate::task::task::task_made);
        assert(made.manager.ready_queue@ =~= seq![0usize]);
    }
    kernel.run_tasks();
    proof {
        assert(kernel.task(0).inner.memory_set == made.task(0).inner.memory_set);
        assert(kernel.manager.ready_queue@ =~= Seq::<usize>::empty());
    }
    kernel
}

} // verus!
