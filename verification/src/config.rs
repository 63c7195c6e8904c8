//! Memory-map constants of the kernel.
use vstd::prelude::*;

verus! {

/// Size of the user stack of a task, in bytes.
pub const USER_STACK_SIZE: u64 = 4096 * 2;

/// Size of the kernel stack of a task, in bytes.
pub const KERNEL_STACK_SIZE: u64 = 4096 * 2;

/// Size of the kernel heap, in bytes.
pub const KERNEL_HEAP_SIZE: usize = 0x20_0000;

/// Size of a page, in bytes.
pub const PAGE_SIZE: usize = 0x1000;

/// Number of address bits that select a byte within a page.
pub const PAGE_SIZE_BITS: u64 = 0xc;

/// Virtual address of the trampoline page, the highest page of every
/// address space.
pub const TRAMPOLINE: u64 = u64::MAX - 4096 + 1;

/// Virtual address of the trap context page, just below the trampoline.
pub const TRAP_CONTEXT: u64 = TRAMPOLINE - 4096;

/// First physical address past the end of usable memory.
pub const MEMORY_END: u64 = 0x8080_0000;

/// Timer ticks per second.
pub const CLOCK_FREQ: u64 = 12_500_000;

} // verus!
