//! Memory management: addresses, frames, page tables and address spaces.
pub mod access;
pub mod address;
pub mod budget;
pub mod elf;
pub mod frame_allocator;
pub mod loader;
pub mod memory_set;
pub mod page_table;
pub mod spaces;
pub mod user_buffer;

pub use address::{PhysAddr, PhysPageNum, VirtAddr, VirtPageNum};
pub use frame_allocator::{frame_alloc, frame_dealloc, FrameTracker, StackFrameAllocator};
pub use memory_set::{MapArea, MapPermission, MapType, MemorySet};
pub use page_table::{PTEFlags, PageTable, PageTableEntry};
pub use spaces::KernelLayout;
pub use user_buffer::{translated_byte_buffer, translated_str, UserBuffer, UserBufferIterator};

use crate::mm::frame_allocator::init_frame_allocator;
use vstd::prelude::*;

verus! {

/// Sets up the memory of the kernel: a frame allocator for the frames
/// between the end of the kernel image and the end of memory, and the
/// kernel's address space, whose page table is made of the first of those
/// frames.
pub fn init(layout: &KernelLayout) -> (r: (StackFrameAllocator, MemorySet))
    requires
        layout.wf(),
        (layout.ekernel as int % 0x100_0000_0000_0000 + 4095) / 4096 + layout.frames_needed() <= (
        layout.memory_end as int % 0x100_0000_0000_0000) / 4096,
    ensures
        r.0.wf(),
        r.0.end == (layout.memory_end as int % 0x100_0000_0000_0000) / 4096,
        r.1.wf(),
        r.1.owned_by(&r.0),
        r.1.only_areas_mapped(),
        r.1.areas.len() == layout.count(),
        forall|i: int| 0 <= i < layout.count() ==> layout.is_section(i, &#[trigger] r.1.areas[i]),
        r.1.page_table.root_ppn.0 == (layout.ekernel as int % 0x100_0000_0000_0000 + 4095) / 4096,
        r.0.free_count() >= (layout.memory_end as int % 0x100_0000_0000_0000) / 4096 - (
        layout.ekernel as int % 0x100_0000_0000_0000 + 4095) / 4096 - layout.frames_needed(),
{
    let mut allocator = StackFrameAllocator::new();
    init_frame_allocator(&mut allocator, layout.ekernel, layout.memory_end);
    proof {
        layout.lemma_tables_nonneg(layout.count());
    }
    let ghost al0 = allocator;
    let kernel_space = MemorySet::new_kernel(layout, &mut allocator);
    proof {
        crate::mm::memory_set::lemma_grew_allocator(&kernel_space, &kernel_space, &al0, &allocator);
    }
    (allocator, kernel_space)
}

} // verus!
