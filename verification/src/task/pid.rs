//! Task identifiers and the kernel stacks that go with them.
use crate::mm::address::{lemma_masks, VirtAddr, VirtPageNum};
use crate::mm::frame_allocator::StackFrameAllocator;
use crate::mm::memory_set::{space_grew, tables_needed, MapPermission, MapType, MemorySet, MAP_R, MAP_W};
use crate::mm::page_table::{outside_kept, zero_entry};
use vstd::prelude::*;

verus! {

/// Allocator of task identifiers: a counter of the identifiers that were
/// never handed out, and a list of those that came back.
pub struct PidAllocator {
    /// The lowest identifier that was never handed out.
    pub current: usize,
    /// The identifiers that came back, in the order of their return.
    pub recycled: Vec<usize>,
}

/// A task identifier that is handed out.
pub struct PidHandle(pub usize);

impl PidAllocator {
    /// Every identifier that came back was handed out before and is
    /// listed once.
    pub open spec fn wf(&self) -> bool {
        &&& forall|i: int| 0 <= i < self.recycled@.len() ==> self.recycled@[i] < self.current
        &&& self.recycled@.no_duplicates()
    }

    /// Whether `pid` is handed out at present.
    pub open spec fn is_allocated(&self, pid: usize) -> bool {
        pid < self.current && !self.recycled@.contains(pid)
    }

    /// The identifier that is handed out next: the one that came back
    /// last, else the lowest that was never handed out.
    pub open spec fn next_pid(&self) -> usize {
        if self.recycled@.len() > 0 {
            self.recycled@.last()
        } else {
            self.current
        }
    }

    /// An allocator that has handed out nothing.
    pub fn new() -> (r: Self)
        ensures
            r.current == 0,
            r.recycled@.len() == 0,
            r.wf(),
    {
        PidAllocator { current: 0, recycled: Vec::new() }
    }

    /// Hands out an identifier.
    pub fn allocate(&mut self) -> (r: PidHandle)
        requires
            old(self).wf(),
            old(self).recycled@.len() == 0 ==> old(self).current < usize::MAX,
        ensures
            final(self).wf(),
            r.0 == old(self).next_pid(),
            !old(self).is_allocated(r.0),
            forall|p: usize| final(self).is_allocated(p) == (old(self).is_allocated(p) || p == r.0),
            old(self).recycled@.len() > 0 ==> final(self).recycled@ == old(self).recycled@.drop_last()
                && final(self).current == old(self).current,
            old(self).recycled@.len() == 0 ==> final(self).recycled@ == old(self).recycled@
                && final(self).current == old(self).current + 1,
    {
        if let Some(pid) = self.recycled.pop() {
            proof {
                let old_r = old(self).recycled@;
                assert(old_r.drop_last() =~= self.recycled@);
                assert(old_r[old_r.len() - 1] == pid);
                assert forall|p: usize|
                    self.is_allocated(p) == (old(self).is_allocated(p) || p == pid) by {
                    if p == pid {
                        if self.recycled@.contains(p) {
                            let i = choose|i: int| 0 <= i < self.recycled@.len() && self.recycled@[i] == p;
                            assert(old_r[i] == p);
                        }
                    } else if old_r.contains(p) {
                        let i = choose|i: int| 0 <= i < old_r.len() && old_r[i] == p;
                        assert(self.recycled@[i] == p);
                    } else if self.recycled@.contains(p) {
                        let i = choose|i: int| 0 <= i < self.recycled@.len() && self.recycled@[i] == p;
                        assert(old_r[i] == p);
                    }
                }
            }
            PidHandle(pid)
        } else {
            self.current += 1;
            PidHandle(self.current - 1)
        }
    }

    /// Takes the identifier `pid` back.
    pub fn dealloc(&mut self, pid: usize)
        requires
            old(self).wf(),
            old(self).is_allocated(pid),
        ensures
            final(self).wf(),
            final(self).current == old(self).current,
            final(self).recycled@ == old(self).recycled@.push(pid),
            forall|p: usize| final(self).is_allocated(p) == (old(self).is_allocated(p) && p != pid),
    {
        self.recycled.push(pid);
        proof {
            let old_r = old(self).recycled@;
            let new_r = self.recycled@;
            assert forall|p: usize| self.is_allocated(p) == (old(self).is_allocated(p) && p != pid) by {
                if p == pid {
                    assert(new_r[new_r.len() - 1] == p);
                } else if old_r.contains(p) {
                    let i = choose|i: int| 0 <= i < old_r.len() && old_r[i] == p;
                    assert(new_r[i] == p);
                } else if new_r.contains(p) {
                    let i = choose|i: int| 0 <= i < new_r.len() && new_r[i] == p;
                    assert(old_r[i] == p);
                }
            }
        }
    }
}

/// Hands out a task identifier.
pub fn pid_alloc(allocator: &mut PidAllocator) -> (r: PidHandle)
    requires
        old(allocator).wf(),
        old(allocator).recycled@.len() == 0 ==> old(allocator).current < usize::MAX,
    ensures
        final(allocator).wf(),
        r.0 == old(allocator).next_pid(),
        !old(allocator).is_allocated(r.0),
        forall|p: usize|
            final(allocator).is_allocated(p) == (old(allocator).is_allocated(p) || p == r.0),
{
    allocator.allocate()
}

impl PidHandle {
    /// Gives the identifier back.
    pub fn release(self, allocator: &mut PidAllocator)
        requires
            old(allocator).wf(),
            old(allocator).is_allocated(self.0),
        ensures
            final(allocator).wf(),
            final(allocator).current == old(allocator).current,
            final(allocator).recycled@ == old(allocator).recycled@.push(self.0),
            forall|p: usize|
                final(allocator).is_allocated(p) == (old(allocator).is_allocated(p) && p != self.0),
    {
        allocator.dealloc(self.0);
    }
}

/// The highest identifier whose kernel stack lies in the upper half of
/// the address space.
pub const MAX_PID: usize = 0x100_0000;

/// First page of the kernel stack of task `pid`.
pub open spec fn kstack_bottom_vpn(pid: usize) -> u64 {
    (0x7ff_ffff - 3 * pid - 2) as u64
}

/// First page after the kernel stack of task `pid`.
pub open spec fn kstack_top_vpn(pid: usize) -> u64 {
    (0x7ff_ffff - 3 * pid) as u64
}

/// Address after the kernel stack of task `pid`.
pub open spec fn kstack_top(pid: usize) -> u64 {
    (0xffff_ffff_ffff_f000 - pid * 0x3000) as u64
}

/// The addresses at which the kernel stack of task `app_id` starts and
/// ends: the stacks lie below the trampoline, highest first, each followed
/// by an unmapped guard page.
pub fn kernel_stack_position(app_id: usize) -> (r: (u64, u64))
    requires
        app_id <= MAX_PID,
    ensures
        r.1 == kstack_top(app_id),
        r.0 == r.1 - 0x2000,
        (r.0 % 0x80_0000_0000) / 4096 == kstack_bottom_vpn(app_id),
        ((r.1 % 0x80_0000_0000) + 4095) / 4096 == kstack_top_vpn(app_id),
{
    let unit: u64 = crate::config::KERNEL_STACK_SIZE + 4096;
    assert(unit == 0x3000);
    assert(crate::config::TRAMPOLINE == 0xffff_ffff_ffff_f000);
    let top: u64 = crate::config::TRAMPOLINE - (app_id as u64) * unit;
    let bottom: u64 = top - crate::config::KERNEL_STACK_SIZE;
    (bottom, top)
}

/// The kernel stack of a task, an area of the kernel's address space.
pub struct KernelStack {
    /// Identifier of the task.
    pub pid: usize,
}

impl KernelStack {
    /// Whether `area` of the kernel space is the stack of task `pid`.
    pub open spec fn is_stack_area(pid: usize, area: &crate::mm::memory_set::MapArea) -> bool {
        &&& area.start_vpn.0 == kstack_bottom_vpn(pid)
        &&& area.end_vpn.0 == kstack_top_vpn(pid)
        &&& area.map_type == MapType::Framed
        &&& area.map_perm.bits == 6
    }

    /// Number of free frames that mapping the stack of task `pid` is sure
    /// to succeed with.
    pub open spec fn frames_needed(pid: usize) -> int {
        tables_needed(kstack_bottom_vpn(pid) as int, kstack_top_vpn(pid) as int) + 2
    }

    /// Maps the kernel stack of the task of `pid_handle` in the kernel's
    /// address space, readable and writable.
    pub fn new(
        pid_handle: &PidHandle,
        kernel_space: &mut MemorySet,
        allocator: &mut StackFrameAllocator,
    ) -> (r: Self)
        requires
            pid_handle.0 <= MAX_PID,
            old(kernel_space).wf(),
            old(kernel_space).owned_by(old(allocator)),
            old(allocator).wf(),
            forall|vpn: VirtPageNum|
                kstack_bottom_vpn(pid_handle.0) <= vpn.0 < kstack_top_vpn(pid_handle.0) ==> !old(kernel_space).page_table.is_mapped(vpn),
            old(allocator).free_count() >= Self::frames_needed(pid_handle.0),
        ensures
            r.pid == pid_handle.0,
            final(kernel_space).wf(),
            final(kernel_space).owned_by(final(allocator)),
            final(allocator).wf(),
            old(kernel_space).only_areas_mapped() ==> final(kernel_space).only_areas_mapped(),
            final(kernel_space).page_table.root_ppn == old(kernel_space).page_table.root_ppn,
            final(kernel_space).areas.len() == old(kernel_space).areas.len() + 1,
            forall|a: int|
                0 <= a < old(kernel_space).areas.len() ==> #[trigger] final(kernel_space).areas[a]
                    == old(kernel_space).areas[a],
            Self::is_stack_area(pid_handle.0, &final(kernel_space).areas@.last()),
            outside_kept(
                &old(kernel_space).page_table,
                &final(kernel_space).page_table,
                kstack_bottom_vpn(pid_handle.0) as int,
                kstack_top_vpn(pid_handle.0) as int,
            ),
            space_grew(old(kernel_space), final(kernel_space), old(allocator), final(allocator)),
            final(allocator).free_count() >= old(allocator).free_count() - Self::frames_needed(
                pid_handle.0,
            ),
    {
        let pid = pid_handle.0;
        let (kernel_stack_bottom, kernel_stack_top) = kernel_stack_position(pid);
        proof {
            lemma_masks(kernel_stack_bottom);
            lemma_masks(kernel_stack_top);
            crate::mm::page_table::lemma_flag_bits(0);
        }
        kernel_space.insert_framed_area(
            VirtAddr::from(kernel_stack_bottom),
            VirtAddr::from(kernel_stack_top),
            MapPermission { bits: MAP_R | MAP_W },
            allocator,
        );
        KernelStack { pid }
    }

    /// Address after the stack.
    pub fn get_top(&self) -> (r: u64)
        requires
            self.pid <= MAX_PID,
        ensures
            r == kstack_top(self.pid),
    {
        let (_, kernel_stack_top) = kernel_stack_position(self.pid);
        kernel_stack_top
    }

    /// Unmaps the stack and gives its frames back.
    pub fn release(self, kernel_space: &mut MemorySet, allocator: &mut StackFrameAllocator)
        requires
            self.pid <= MAX_PID,
            old(kernel_space).wf(),
            old(kernel_space).owned_by(old(allocator)),
            old(allocator).wf(),
        ensures
            final(kernel_space).wf(),
            final(kernel_space).owned_by(final(allocator)),
            final(allocator).wf(),
            final(allocator).end == old(allocator).end,
            final(kernel_space).page_table.root_ppn == old(kernel_space).page_table.root_ppn,
            old(kernel_space).only_areas_mapped() ==> final(kernel_space).only_areas_mapped(),
            forall|p: crate::mm::address::PhysPageNum| #[trigger]
                final(kernel_space).page_table.owns(p) == old(kernel_space).page_table.owns(p),
            match old(kernel_space).first_with_start(VirtPageNum(kstack_bottom_vpn(self.pid))) {
                Some(idx) => {
                    &&& 0 <= idx < old(kernel_space).areas.len()
                    &&& old(kernel_space).areas[idx].start_vpn.0 == kstack_bottom_vpn(self.pid)
                    &&& final(kernel_space).areas@ == old(kernel_space).areas@.remove(idx)
                    &&& forall|v: VirtPageNum|
                        old(kernel_space).areas[idx].contains(v) ==> #[trigger] final(kernel_space).page_table.walk(v) == Some(zero_entry())
                    &&& forall|v: VirtPageNum|
                        v.0 < 0x800_0000 && !old(kernel_space).areas[idx].contains(v)
                            ==> #[trigger] final(kernel_space).page_table.walk(v) == old(kernel_space).page_table.walk(v)
                    &&& final(allocator).free_count() == old(allocator).free_count() + old(kernel_space).areas[idx].data_frames.len()
                    &&& forall|p: u64|
                        final(allocator).is_allocated(p) == (old(allocator).is_allocated(p) && !old(kernel_space).areas[idx].has_frame(p))
                },
                None => {
                    &&& final(kernel_space).areas@ == old(kernel_space).areas@
                    &&& final(kernel_space).page_table == old(kernel_space).page_table
                    &&& final(allocator).current == old(allocator).current
                    &&& final(allocator).recycled@ == old(allocator).recycled@
                },
            },
    {
        let (kernel_stack_bottom, _) = kernel_stack_position(self.pid);
        proof {
            lemma_masks(kernel_stack_bottom);
        }
        let kernel_stack_bottom_va = VirtAddr::from(kernel_stack_bottom);
        kernel_space.remove_area_with_start_vpn(VirtPageNum::from(kernel_stack_bottom_va), allocator);
    }
}

} // verus!
