//! Waiting for a child: the parent collects a child that ended, which
//! then leaves the kernel for good.
use crate::mm::access::{lemma_same_shape, same_shape, vpn_of};
use crate::mm::address::{PhysPageNum, VirtPageNum};
use crate::mm::frame_allocator::{with_bytes, StackFrameAllocator};
use crate::mm::memory_set::{areas_apart, MemorySet};
use crate::task::exit::same_core;
use crate::task::kernel::{lemma_stack_owner, stack_owner, Kernel, KSTACK_FLOOR};
use crate::task::pid::{kstack_bottom_vpn, KernelStack, PidHandle, MAX_PID};
use crate::task::task::{Resources, TaskControlBlock, TaskStatus};
use vstd::bytes::{spec_u32_to_le_bytes, u32_to_le_bytes};
use vstd::prelude::*;

verus! {

/// Whether a call that waits for `pid` waits for the child `c`: it waits
/// for every child where `pid` is -1.
pub open spec fn waits_for(pid: isize, c: usize) -> bool {
    pid == -1 || (pid >= 0 && pid as usize == c)
}

/// Index of the first child among `kids` that ended and that a call for
/// `pid` waits for, or -1 where there is none.
pub open spec fn first_zombie(kernel: &Kernel, kids: Seq<usize>, pid: isize, n: int) -> int
    decreases n,
{
    if n <= 0 {
        -1
    } else {
        let before = first_zombie(kernel, kids, pid, n - 1);
        if before >= 0 {
            before
        } else if kernel.status(kids[n - 1]) == TaskStatus::Zombie && waits_for(pid, kids[n - 1]) {
            n - 1
        } else {
            -1
        }
    }
}

/// Whether a call for `pid` waits for one of the first `n` of `kids`.
pub open spec fn any_awaited(kids: Seq<usize>, pid: isize, n: int) -> bool
    decreases n,
{
    if n <= 0 {
        false
    } else {
        any_awaited(kids, pid, n - 1) || waits_for(pid, kids[n - 1])
    }
}

/// What a call of the task `p` that waits for `pid` returns: -1 where it
/// waits for none of the children of `p`, -2 where none of the children
/// that it waits for has ended, else the identifier of the first child
/// that it waits for and that has ended.
pub open spec fn waitpid_result(kernel: &Kernel, p: usize, pid: isize) -> int {
    let kids = kernel.children_of(p);
    if !any_awaited(kids, pid, kids.len() as int) {
        -1
    } else if first_zombie(kernel, kids, pid, kids.len() as int) < 0 {
        -2
    } else {
        kids[first_zombie(kernel, kids, pid, kids.len() as int)] as int
    }
}

/// Index of the kernel stack of task `c` among the areas of the space
/// `ks`.
#[verifier::opaque]
pub open spec fn stack_slot(ks: &MemorySet, c: usize) -> int {
    ks.first_with_start(VirtPageNum(kstack_bottom_vpn(c)))->Some_0
}

/// Index of the kernel stack of task `c` among the areas of the kernel's
/// space.
pub open spec fn stack_index(kernel: &Kernel, c: usize) -> int {
    stack_slot(&kernel.res.kernel_space, c)
}

/// Where the search for the first area that starts at the stack of task
/// `c` finds the area `idx`, that is the index of the stack.
pub proof fn lemma_stack_index_is(ks: &MemorySet, c: usize, idx: int)
    requires
        ks.first_with_start(VirtPageNum(kstack_bottom_vpn(c))) == Some(idx),
    ensures
        stack_slot(ks, c) == idx,
{
    reveal(stack_slot);
}

/// The index of the stack of a task depends on the kernel's space
/// only.
pub proof fn lemma_stack_index_same(k0: &Kernel, k1: &Kernel, c: usize)
    requires
        k0.res.kernel_space == k1.res.kernel_space,
    ensures
        stack_index(k0, c) == stack_index(k1, c),
{
}

/// A space with an area that starts at `v` has a first such area.
pub proof fn lemma_has_start(ks: &MemorySet, v: VirtPageNum, w: int)
    requires
        0 <= w < ks.areas.len(),
        ks.areas[w].start_vpn == v,
    ensures
        ks.first_with_start(v) is Some,
{
    reveal(MemorySet::first_with_start);
}

/// A space from which an area was removed holds no frame that it did
/// not hold, and the area that was removed held frames of the space.
pub proof fn lemma_removed_frames(ks0: &MemorySet, ks1: &MemorySet, idx: int)
    requires
        0 <= idx < ks0.areas.len(),
        ks1.areas@ == ks0.areas@.remove(idx),
        forall|p: PhysPageNum| #[trigger] ks1.page_table.owns(p) == ks0.page_table.owns(p),
    ensures
        forall|f: u64| #[trigger] ks1.has_frame(f) ==> ks0.has_frame(f),
        forall|f: u64| #[trigger] ks0.areas[idx].has_frame(f) ==> ks0.has_frame(f),
{
    reveal(MemorySet::has_frame);
    assert forall|f: u64| #[trigger] ks1.has_frame(f) implies ks0.has_frame(f) by {
        if !ks1.page_table.owns(PhysPageNum(f)) {
            let a = choose|a: int| 0 <= a < ks1.areas.len() && (#[trigger] ks1.areas[a]).has_frame(f);
            let o = if a < idx {
                a
            } else {
                a + 1
            };
            assert(ks1.areas[a] == ks0.areas[o]);
            assert(ks0.areas[o].has_frame(f));
        } else {
            assert(ks1.page_table.owns(PhysPageNum(f)) == ks0.page_table.owns(PhysPageNum(f)));
        }
    }
}

/// No two areas of a well-formed space are the kernel stack of one
/// task.
pub proof fn lemma_one_stack(ks: &MemorySet, c: usize, a: int, b: int)
    requires
        ks.wf(),
        0 <= a < ks.areas.len(),
        0 <= b < ks.areas.len(),
        a != b,
        c <= MAX_PID,
        KernelStack::is_stack_area(c, &ks.areas[a]),
    ensures
        !KernelStack::is_stack_area(c, &ks.areas[b]),
{
    if a < b {
        assert(areas_apart(&ks.areas[a], &ks.areas[b]));
    } else {
        assert(areas_apart(&ks.areas[b], &ks.areas[a]));
    }
}

/// What the dropping of the task `c` with the address space `space`
/// makes of the resources: the identifier of the task is free; its kernel
/// stack is no area of the kernel's space any more; the frames of the
/// stack and of `space` are free; nothing else changed.
pub open spec fn reclaimed(before: &Resources, after: &Resources, space: &MemorySet, c: usize) -> bool {
    let idx = stack_slot(&before.kernel_space, c);
    &&& after.same_addresses(before)
    &&& after.wf()
    &&& forall|q: usize|
        after.pid_allocator.is_allocated(q) == (before.pid_allocator.is_allocated(q) && q != c)
    &&& 0 <= idx < before.kernel_space.areas.len()
    &&& before.kernel_space.areas[idx].start_vpn.0 == kstack_bottom_vpn(c)
    &&& after.kernel_space.areas@ == before.kernel_space.areas@.remove(idx)
    &&& after.kernel_space.page_table.root_ppn == before.kernel_space.page_table.root_ppn
    &&& forall|f: u64| #[trigger] after.kernel_space.has_frame(f) ==> before.kernel_space.has_frame(f)
    &&& forall|f: u64| #[trigger]
        after.frame_allocator.is_allocated(f) == (before.frame_allocator.is_allocated(f)
            && !space.has_frame(f) && !before.kernel_space.areas[idx].has_frame(f))
}

/// What the giving back of the identifier and of the kernel stack of
/// the task `c` makes of the resources.
#[verifier::opaque]
pub open spec fn stack_released(before: &Resources, after: &Resources, c: usize) -> bool {
    let idx = stack_slot(&before.kernel_space, c);
    &&& after.same_addresses(before)
    &&& after.wf()
    &&& forall|q: usize|
        after.pid_allocator.is_allocated(q) == (before.pid_allocator.is_allocated(q) && q != c)
    &&& 0 <= idx < before.kernel_space.areas.len()
    &&& before.kernel_space.areas[idx].start_vpn.0 == kstack_bottom_vpn(c)
    &&& after.kernel_space.areas@ == before.kernel_space.areas@.remove(idx)
    &&& after.kernel_space.page_table.root_ppn == before.kernel_space.page_table.root_ppn
    &&& forall|f: u64| #[trigger] after.kernel_space.has_frame(f) ==> before.kernel_space.has_frame(f)
    &&& forall|f: u64| #[trigger]
        after.frame_allocator.is_allocated(f) == (before.frame_allocator.is_allocated(f)
            && !before.kernel_space.areas[idx].has_frame(f))
    &&& forall|f: u64|
        #[trigger] before.kernel_space.areas[idx].has_frame(f) ==> before.kernel_space.has_frame(f)
}

/// A space that shares no frame with the kernel's space keeps its
/// frames handed out when a kernel stack is given back.
pub proof fn lemma_space_survives(before: &Resources, after: &Resources, space: &MemorySet, c: usize)
    requires
        stack_released(before, after, c),
        space.owned_by(&before.frame_allocator),
        forall|f: u64| !(space.has_frame(f) && before.kernel_space.has_frame(f)),
    ensures
        space.owned_by(&after.frame_allocator),
        after.frame_allocator.wf(),
        forall|f: u64| !(after.kernel_space.has_frame(f) && space.has_frame(f)),
{
    reveal(stack_released);
    Kernel::lemma_owned_after_release(
        space,
        &before.kernel_space,
        &before.frame_allocator,
        &after.frame_allocator,
    );
}

/// The giving back of the frames of the space of a task, after its
/// identifier and its kernel stack, completes the dropping of the task.
pub proof fn lemma_reclaimed(
    before: &Resources,
    mid: &Resources,
    after: &Resources,
    space: &MemorySet,
    c: usize,
)
    requires
        stack_released(before, mid, c),
        forall|f: u64| !(mid.kernel_space.has_frame(f) && space.has_frame(f)),
        after.kernel_space == mid.kernel_space,
        after.pid_allocator == mid.pid_allocator,
        after.same_addresses(mid),
        after.frame_allocator.wf(),
        forall|f: u64| #[trigger]
            after.frame_allocator.is_allocated(f) == (mid.frame_allocator.is_allocated(f)
                && !space.has_frame(f)),
    ensures
        reclaimed(before, after, space, c),
{
    reveal(stack_released);
    Kernel::lemma_owned_after_release(
        &mid.kernel_space,
        space,
        &mid.frame_allocator,
        &after.frame_allocator,
    );
    let idx = stack_slot(&before.kernel_space, c);
    assert forall|f: u64|
        after.frame_allocator.is_allocated(f) == (before.frame_allocator.is_allocated(f)
            && !space.has_frame(f) && !before.kernel_space.areas[idx].has_frame(f)) by {
        assert(mid.frame_allocator.is_allocated(f) == (before.frame_allocator.is_allocated(f)
            && !before.kernel_space.areas[idx].has_frame(f)));
        assert(after.frame_allocator.is_allocated(f) == (mid.frame_allocator.is_allocated(f)
            && !space.has_frame(f)));
    }
    assert forall|q: usize|
        after.pid_allocator.is_allocated(q) == (before.pid_allocator.is_allocated(q) && q != c) by {
        assert(mid.pid_allocator.is_allocated(q) == (before.pid_allocator.is_allocated(q) && q != c));
    }
    assert forall|f: u64| #[trigger] after.kernel_space.has_frame(f) implies before.kernel_space.has_frame(
        f,
    ) by {
        assert(mid.kernel_space.has_frame(f));
    }
    assert(after.wf());
}

/// What the unmapping of the kernel stack of the task `c` and the giving
/// back of its identifier make of the resources.
pub proof fn lemma_stack_released(before: &Resources, after: &Resources, c: usize, idx: int)
    requires
        after.same_addresses(before),
        before.strampoline % 4096 == 0,
        after.pid_allocator.wf(),
        forall|q: usize|
            after.pid_allocator.is_allocated(q) == (before.pid_allocator.is_allocated(q) && q != c),
        before.kernel_space.first_with_start(VirtPageNum(kstack_bottom_vpn(c))) == Some(idx),
        0 <= idx < before.kernel_space.areas.len(),
        before.kernel_space.areas[idx].start_vpn.0 == kstack_bottom_vpn(c),
        after.kernel_space.wf(),
        after.kernel_space.owned_by(&after.frame_allocator),
        after.kernel_space.only_areas_mapped(),
        after.frame_allocator.wf(),
        after.kernel_space.areas@ == before.kernel_space.areas@.remove(idx),
        after.kernel_space.page_table.root_ppn == before.kernel_space.page_table.root_ppn,
        forall|p: PhysPageNum| #[trigger]
            after.kernel_space.page_table.owns(p) == before.kernel_space.page_table.owns(p),
        forall|f: u64| #[trigger]
            after.frame_allocator.is_allocated(f) == (before.frame_allocator.is_allocated(f)
                && !before.kernel_space.areas[idx].has_frame(f)),
    ensures
        stack_released(before, after, c),
{
    reveal(stack_released);
    lemma_stack_index_is(&before.kernel_space, c, idx);
    lemma_removed_frames(&before.kernel_space, &after.kernel_space, idx);
}

impl Resources {
    /// Gives back the identifier `pid` and the kernel stack
    /// `kernel_stack` of a task.
    pub fn release_stack(&mut self, pid: PidHandle, kernel_stack: KernelStack)
        requires
            old(self).wf(),
            kernel_stack.pid == pid.0,
            pid.0 <= MAX_PID,
            old(self).pid_allocator.is_allocated(pid.0),
            exists|a: int|
                0 <= a < old(self).kernel_space.areas.len() && (#[trigger] old(self).kernel_space.areas[a]).start_vpn.0 == kstack_bottom_vpn(pid.0),
        ensures
            stack_released(old(self), final(self), pid.0),
    {
        let ghost c = pid.0;
        let ghost ks0 = self.kernel_space;
        proof {
            let w = choose|a: int|
                0 <= a < ks0.areas.len() && (#[trigger] ks0.areas[a]).start_vpn.0
                    == kstack_bottom_vpn(c);
            lemma_has_start(&ks0, VirtPageNum(kstack_bottom_vpn(c)), w);
        }
        pid.release(&mut self.pid_allocator);
        kernel_stack.release(&mut self.kernel_space, &mut self.frame_allocator);
        proof {
            lemma_stack_released(
                old(self),
                self,
                c,
                ks0.first_with_start(VirtPageNum(kstack_bottom_vpn(c)))->Some_0,
            );
        }
    }

    /// Drops the task `child`: gives back its identifier, its kernel
    /// stack and the frames of its address space.
    pub fn reclaim(&mut self, child: TaskControlBlock)
        requires
            old(self).wf(),
            child.kernel_stack.pid == child.pid.0,
            child.pid.0 <= MAX_PID,
            old(self).pid_allocator.is_allocated(child.pid.0),
            child.inner.memory_set.wf(),
            child.inner.memory_set.owned_by(&old(self).frame_allocator),
            forall|f: u64|
                !(child.inner.memory_set.has_frame(f) && old(self).kernel_space.has_frame(f)),
            exists|a: int|
                0 <= a < old(self).kernel_space.areas.len() && (#[trigger] old(self).kernel_space.areas[a]).start_vpn.0 == kstack_bottom_vpn(child.pid.0),
        ensures
            reclaimed(old(self), final(self), &child.inner.memory_set, child.pid.0),
    {
        let ghost c = child.pid.0;
        let ghost sc = child.inner.memory_set;
        let TaskControlBlock { pid, kernel_stack, inner } = child;
        let memory_set = inner.memory_set;
        assert(memory_set == sc);
        self.release_stack(pid, kernel_stack);
        let ghost mid = *self;
        proof {
            lemma_space_survives(old(self), &mid, &sc, c);
        }
        memory_set.destroy(&mut self.frame_allocator);
        proof {
            lemma_reclaimed(old(self), &mid, self, &sc, c);
        }
    }
}

/// What the collecting of the child `c` by its parent `p` makes of the
/// kernel: the child is gone, and its identifier, the frames of its page
/// table and its kernel stack are free; the parent has lost it as a child
/// and has its exit code at `ptr`; nothing else changed.
pub open spec fn reaped(before: &Kernel, after: &Kernel, p: usize, c: usize, ptr: u64) -> bool {
    let code = before.task(c).inner.exit_code;
    let idx = before.children_of(p).index_of(c);
    &&& after.initproc == before.initproc
    &&& after.ticks == before.ticks
    &&& after.manager == before.manager
    &&& after.processor == before.processor
    &&& after.tasks@.len() == before.tasks@.len()
    &&& !after.live(c)
    &&& forall|q: usize| q != c ==> #[trigger] after.live(q) == before.live(q)
    &&& reclaimed(&before.res, &after.res, &before.task(c).inner.memory_set, c)
    &&& forall|q: usize|
        before.live(q) && q != c ==> {
            let t0 = before.task(q);
            let t1 = #[trigger] after.task(q);
            &&& same_core(&t0, &t1)
            &&& t1.inner.task_status == t0.inner.task_status
            &&& t1.inner.exit_code == t0.inner.exit_code
            &&& t1.inner.parent == t0.inner.parent
            &&& t1.inner.children@ == if q == p {
                t0.inner.children@.remove(idx)
            } else {
                t0.inner.children@
            }
            &&& q != p ==> t1.inner.memory_set == t0.inner.memory_set
        }
    &&& same_shape(&before.task(p).inner.memory_set, &after.task(p).inner.memory_set)
    &&& forall|v: VirtPageNum|
        before.task(p).inner.memory_set.backed(v) ==> #[trigger] after.task(
            p,
        ).inner.memory_set.page(v) == if v == vpn_of(ptr) {
            with_bytes(
                before.task(p).inner.memory_set.page(v),
                (ptr % 4096) as int,
                spec_u32_to_le_bytes(code as u32),
            )
        } else {
            before.task(p).inner.memory_set.page(v)
        }
}

impl Kernel {
    /// The collecting of a child that ended keeps the kernel in order.
    pub proof fn lemma_reaped(before: &Kernel, after: &Kernel, p: usize, c: usize, ptr: u64)
        requires
            before.wf(),
            before.live(p),
            before.live(c),
            before.status(p) != TaskStatus::Zombie,
            before.status(c) == TaskStatus::Zombie,
            before.parent_of(c) == Some(p),
            reaped(before, after, p, c, ptr),
            after.task(p).inner.memory_set.wf(),
            0 <= stack_index(before, c) < before.res.kernel_space.areas.len(),
            KernelStack::is_stack_area(
                c,
                &before.res.kernel_space.areas[stack_index(before, c)],
            ),
        ensures
            after.wf(),
    {
        Self::lemma_reaped_family(before, after, p, c, ptr);
        Self::lemma_reaped_sched(before, after, p, c, ptr);
        assert(p != c) by {
            reveal(Kernel::family_ok);
        }
        Self::lemma_reaped_tasks(before, after, p, c, ptr);
        assert(c <= MAX_PID && before.task(c).pid.0 == c) by {
            reveal(Kernel::tasks_ok);
        }
        assert forall|o: int|
            0 <= o < before.res.kernel_space.areas.len() && o != stack_index(
                before,
                c,
            ) implies !KernelStack::is_stack_area(c, &#[trigger] before.res.kernel_space.areas[o]) by {
            lemma_one_stack(&before.res.kernel_space, c, stack_index(before, c), o);
        }
        assert forall|q: usize| #[trigger] before.live(q) implies q <= MAX_PID by {
            reveal(Kernel::tasks_ok);
            assert(before.task(q).pid.0 == q);
        }
        Self::lemma_reaped_stacks(before, after, p, c, ptr);
    }

    /// The collecting of a child that ended keeps the families in
    /// order.
    proof fn lemma_reaped_family(before: &Kernel, after: &Kernel, p: usize, c: usize, ptr: u64)
        requires
            before.family_ok(),
            before.live(p),
            before.live(c),
            before.status(c) == TaskStatus::Zombie,
            before.parent_of(c) == Some(p),
            reaped(before, after, p, c, ptr),
        ensures
            after.family_ok(),
    {
        reveal(Kernel::family_ok);
        let init = before.initproc;
        let kids = before.children_of(p);
        assert(before.parent_of(c) is Some);
        assert(kids.contains(c));
        let idx = kids.index_of(c);
        assert(0 <= idx < kids.len() && kids[idx] == c);
        assert(before.children_of(c).len() == 0);
        assert(c != init);
        assert forall|q: usize| q != c && after.live(q) implies before.live(q) && same_core(
            &before.task(q),
            &#[trigger] after.task(q),
        ) by {
            assert(after.live(q) == before.live(q));
        }
        assert(after.live(init) == before.live(init));
        assert(same_core(&before.task(init), &after.task(init)));
        assert forall|x: usize| after.live(x) implies ((#[trigger] after.parent_of(x)) is None <==> x
            == after.initproc) && after.parent_of(x) != Some(x) by {
            assert(same_core(&before.task(x), &after.task(x)));
            assert(before.parent_of(x) is None <==> x == init);
            assert(before.parent_of(x) != Some(x));
        }
        assert forall|q: usize, i: int|
            after.live(q) && 0 <= i < after.children_of(q).len() implies after.live(
            #[trigger] after.children_of(q)[i],
        ) && after.parent_of(after.children_of(q)[i]) == Some(q) by {
            assert(same_core(&before.task(q), &after.task(q)));
            let k = after.children_of(q)[i];
            let j = if q == p && i >= idx {
                i + 1
            } else {
                i
            };
            assert(k == before.children_of(q)[j]);
            assert(before.live(before.children_of(q)[j]) && before.parent_of(
                before.children_of(q)[j],
            ) == Some(q));
            if k == c {
                assert(q == p);
                assert(kids[j] == kids[idx]);
            }
            assert(after.live(k) == before.live(k));
            assert(same_core(&before.task(k), &after.task(k)));
        }
        assert forall|x: usize|
            after.live(x) && (#[trigger] after.parent_of(x)) is Some implies after.live(
            after.parent_of(x)->Some_0,
        ) && after.children_of(after.parent_of(x)->Some_0).contains(x) by {
            assert(same_core(&before.task(x), &after.task(x)));
            assert(before.parent_of(x) is Some);
            let q0 = before.parent_of(x)->Some_0;
            assert(before.live(q0) && before.children_of(q0).contains(x));
            let j = choose|j: int|
                0 <= j < before.children_of(q0).len() && before.children_of(q0)[j] == x;
            assert(q0 != c);
            assert(after.live(q0) == before.live(q0));
            assert(same_core(&before.task(q0), &after.task(q0)));
            if q0 == p {
                let j2 = if j > idx {
                    j - 1
                } else {
                    j
                };
                assert(after.children_of(p)[j2] == x);
            } else {
                assert(after.children_of(q0)[j] == x);
            }
        }
        assert forall|q: usize| after.live(q) implies (#[trigger] after.children_of(q)).no_duplicates()
            && (after.status(q) == TaskStatus::Zombie ==> after.children_of(q).len() == 0) by {
            assert(same_core(&before.task(q), &after.task(q)));
            assert(before.children_of(q).no_duplicates());
            if q == p {
                let all = after.children_of(p);
                assert forall|i: int, j: int|
                    0 <= i < all.len() && 0 <= j < all.len() && i != j implies all[i] != all[j] by {
                    let i0 = if i >= idx {
                        i + 1
                    } else {
                        i
                    };
                    let j0 = if j >= idx {
                        j + 1
                    } else {
                        j
                    };
                    assert(kids[i0] != kids[j0]);
                }
            }
        }
    }

    /// The collecting of a child that ended keeps the processor and the
    /// ready queue in order.
    proof fn lemma_reaped_sched(before: &Kernel, after: &Kernel, p: usize, c: usize, ptr: u64)
        requires
            before.sched_ok(),
            before.live(c),
            before.status(c) == TaskStatus::Zombie,
            reaped(before, after, p, c, ptr),
        ensures
            after.sched_ok(),
    {
        reveal(Kernel::sched_ok);
        let q0 = before.manager.ready_queue@;
        assert forall|q: usize| q != c && after.live(q) implies before.live(q) && same_core(
            &before.task(q),
            &#[trigger] after.task(q),
        ) by {
            assert(after.live(q) == before.live(q));
        }
        if after.processor.current is Some {
            let x = after.processor.current->Some_0;
            assert(before.live(x) && before.status(x) == TaskStatus::Running);
            assert(after.live(x) == before.live(x));
            assert(same_core(&before.task(x), &after.task(x)));
        }
        assert forall|i: int| 0 <= i < q0.len() implies after.live(#[trigger] q0[i]) && after.status(
            q0[i],
        ) == TaskStatus::Ready by {
            assert(before.live(q0[i]) && before.status(q0[i]) == TaskStatus::Ready);
            assert(after.live(q0[i]) == before.live(q0[i]));
            assert(same_core(&before.task(q0[i]), &after.task(q0[i])));
        }
        assert forall|x: usize|
            after.live(x) && #[trigger] after.status(x) == TaskStatus::Ready implies q0.contains(
            x,
        ) by {
            assert(same_core(&before.task(x), &after.task(x)));
            assert(before.status(x) == TaskStatus::Ready);
        }
        assert forall|x: usize|
            after.live(x) && #[trigger] after.status(x) == TaskStatus::Running implies after.processor.current
            == Some(x) by {
            assert(same_core(&before.task(x), &after.task(x)));
            assert(before.status(x) == TaskStatus::Running);
        }
    }

    /// The collecting of a child that ended keeps the tasks and the
    /// frames of the spaces in order.
    proof fn lemma_reaped_tasks(before: &Kernel, after: &Kernel, p: usize, c: usize, ptr: u64)
        requires
            before.tasks_ok(),
            before.frames_apart(),
            before.stacks_ok(),
            before.live(p),
            before.live(c),
            p != c,
            before.status(p) != TaskStatus::Zombie,
            reaped(before, after, p, c, ptr),
            after.task(p).inner.memory_set.wf(),
            0 <= stack_index(before, c) < before.res.kernel_space.areas.len(),
        ensures
            after.tasks_ok(),
            after.frames_apart(),
    {
        reveal(Kernel::tasks_ok);
        reveal(Kernel::frames_apart);
        let al0 = &before.res.frame_allocator;
        let al1 = &after.res.frame_allocator;
        let sc = before.task(c).inner.memory_set;
        let ks0 = before.res.kernel_space;
        let sp0 = before.task(p).inner.memory_set;
        let sp1 = after.task(p).inner.memory_set;
        lemma_same_shape(&sp0, &sp1, al1);
        let a_idx = stack_index(before, c);
        let gone = ks0.areas[a_idx];
        assert forall|f: u64| gone.has_frame(f) implies ks0.has_frame(f) by {
            reveal(MemorySet::has_frame);
        }
        assert forall|q: usize| q != c && after.live(q) implies before.live(q) && same_core(
            &before.task(q),
            &#[trigger] after.task(q),
        ) by {
            assert(after.live(q) == before.live(q));
        }
        assert forall|q: usize| after.live(q) implies {
            let t = #[trigger] after.task(q);
            &&& t.pid.0 == q
            &&& t.kernel_stack.pid == q
            &&& q <= MAX_PID
            &&& after.res.pid_allocator.is_allocated(q)
            &&& t.inner.memory_set.wf()
            &&& t.inner.memory_set.owned_by(&after.res.frame_allocator)
            &&& (t.inner.task_status != TaskStatus::Zombie ==> t.inner.has_user_space())
            &&& (t.inner.task_status == TaskStatus::Zombie ==> t.inner.memory_set.areas.len() == 0)
        } by {
            assert(same_core(&before.task(q), &after.task(q)));
            let t0 = before.task(q);
            assert(t0.pid.0 == q);
            let sq = t0.inner.memory_set;
            assert forall|f: u64| sq.has_frame(f) implies al1.is_allocated(f) by {
                sq.lemma_has_frame_allocated(al0, f);
                assert(!(sq.has_frame(f) && sc.has_frame(f)));
                assert(!(sq.has_frame(f) && ks0.has_frame(f)));
            }
            if q == p {
                assert forall|f: u64| sp1.has_frame(f) implies al1.is_allocated(f) by {
                    assert(sp0.has_frame(f) == sp1.has_frame(f));
                }
                Self::lemma_owned_from_frames(&sp1, al1);
                assert(t0.inner.has_user_space());
                Self::lemma_user_space_shape(&t0, &after.task(q));
            } else {
                Self::lemma_owned_from_frames(&sq, al1);
                if t0.inner.task_status != TaskStatus::Zombie {
                    assert(t0.inner.has_user_space());
                }
            }
        }
        assert forall|q: usize| #[trigger] after.res.pid_allocator.is_allocated(q) implies after.live(
            q,
        ) by {
            assert(before.res.pid_allocator.is_allocated(q));
            assert(after.live(q) == before.live(q));
        }
        assert forall|x: usize, y: usize, f: u64|
            after.live(x) && after.live(y) && x != y implies !(#[trigger] after.task(
            x,
        ).inner.memory_set.has_frame(f) && #[trigger] after.task(y).inner.memory_set.has_frame(f)) by {
            assert(same_core(&before.task(x), &after.task(x)));
            assert(same_core(&before.task(y), &after.task(y)));
            assert(!(before.task(x).inner.memory_set.has_frame(f) && before.task(
                y,
            ).inner.memory_set.has_frame(f)));
            assert(sp0.has_frame(f) == sp1.has_frame(f));
        }
        assert forall|x: usize, f: u64| after.live(x) implies !(#[trigger] after.task(
            x,
        ).inner.memory_set.has_frame(f) && after.res.kernel_space.has_frame(f)) by {
            assert(same_core(&before.task(x), &after.task(x)));
            assert(!(before.task(x).inner.memory_set.has_frame(f) && ks0.has_frame(f)));
            assert(sp0.has_frame(f) == sp1.has_frame(f));
        }
    }

    /// A task whose space changed in what its frames hold only still has
    /// the space of a user program.
    pub proof fn lemma_user_space_shape(t0: &TaskControlBlock, t1: &TaskControlBlock)
        requires
            t0.inner.has_user_space(),
            same_shape(&t0.inner.memory_set, &t1.inner.memory_set),
            t1.inner.trap_cx_ppn == t0.inner.trap_cx_ppn,
        ensures
            t1.inner.has_user_space(),
    {
        let sp0 = t0.inner.memory_set;
        let sp1 = t1.inner.memory_set;
        let al: StackFrameAllocator = arbitrary();
        lemma_same_shape(&sp0, &sp1, &al);
        reveal(same_shape);
        let n = sp0.areas.len() as int;
        assert(crate::mm::access::area_same_shape(&sp0.areas[n - 1], &sp1.areas[n - 1]));
        assert(sp1.areas[n - 1].wf());
        assert forall|a: int| 0 <= a < sp1.areas.len() implies !(#[trigger] sp1.areas[a]).contains(
            VirtPageNum(crate::mm::memory_set::TRAMPOLINE_VPN),
        ) by {
            assert(crate::mm::access::area_same_shape(&sp0.areas[a], &sp1.areas[a]));
        }
    }

    /// A space whose frames are all handed out is owned by the
    /// allocator.
    pub proof fn lemma_owned_from_frames(space: &MemorySet, al: &StackFrameAllocator)
        requires
            forall|f: u64| space.has_frame(f) ==> al.is_allocated(f),
        ensures
            space.owned_by(al),
    {
        reveal(MemorySet::has_frame);
        assert forall|k: int| 0 <= k < space.page_table.frames.len() implies al.is_allocated(
            (#[trigger] space.page_table.frames[k]).ppn.0,
        ) by {
            let f = space.page_table.frames[k].ppn.0;
            assert(space.page_table.frames[k].ppn == PhysPageNum(f));
            assert(space.has_frame(f));
        }
        assert forall|a: int| 0 <= a < space.areas.len() implies (#[trigger] space.areas[a]).owned_by(
            al,
        ) by {
            assert forall|i: int| 0 <= i < space.areas[a].data_frames.len() implies al.is_allocated(
                (#[trigger] space.areas[a].data_frames[i]).ppn.0,
            ) by {
                let f = space.areas[a].data_frames[i].ppn.0;
                assert(space.areas[a].has_frame(f));
                assert(space.has_frame(f));
            }
        }
    }

    /// The collecting of a child that ended keeps the kernel stacks in
    /// order.
    proof fn lemma_reaped_stacks(before: &Kernel, after: &Kernel, p: usize, c: usize, ptr: u64)
        requires
            before.stacks_ok(),
            before.live(c),
            c <= MAX_PID,
            reaped(before, after, p, c, ptr),
            0 <= stack_index(before, c) < before.res.kernel_space.areas.len(),
            KernelStack::is_stack_area(
                c,
                &before.res.kernel_space.areas[stack_index(before, c)],
            ),
            forall|o: int|
                0 <= o < before.res.kernel_space.areas.len() && o != stack_index(before, c)
                    ==> !KernelStack::is_stack_area(c, &#[trigger] before.res.kernel_space.areas[o]),
            forall|q: usize| #[trigger] before.live(q) ==> q <= MAX_PID,
        ensures
            after.stacks_ok(),
    {
        reveal(Kernel::stacks_ok);
        let ks0 = before.res.kernel_space;
        let ks1 = after.res.kernel_space;
        let a_idx = stack_index(before, c);
        assert forall|a: int| 0 <= a < ks1.areas.len() implies {
            let area = #[trigger] ks1.areas[a];
            if area.start_vpn.0 < KSTACK_FLOOR {
                area.end_vpn.0 <= KSTACK_FLOOR
            } else {
                after.live(stack_owner(area.start_vpn.0)) && KernelStack::is_stack_area(
                    stack_owner(area.start_vpn.0),
                    &area,
                )
            }
        } by {
            let o = if a < a_idx {
                a
            } else {
                a + 1
            };
            let area = ks0.areas[o];
            assert(ks1.areas[a] == area);
            if area.start_vpn.0 >= KSTACK_FLOOR {
                let q = stack_owner(area.start_vpn.0);
                assert(before.live(q));
                assert(KernelStack::is_stack_area(q, &area));
                assert(q != c);
                assert(after.live(q) == before.live(q));
            }
        }
        assert forall|q: usize| after.live(q) implies exists|a: int|
            0 <= a < ks1.areas.len() && (#[trigger] ks1.areas[a]).start_vpn.0 == kstack_bottom_vpn(
                q,
            ) by {
            assert(after.live(q) == before.live(q));
            let o = choose|o: int|
                0 <= o < ks0.areas.len() && (#[trigger] ks0.areas[o]).start_vpn.0
                    == kstack_bottom_vpn(q);
            let area = ks0.areas[o];
            if o == a_idx {
                lemma_stack_owner(c);
                assert(area.start_vpn.0 >= KSTACK_FLOOR);
                assert(before.live(stack_owner(area.start_vpn.0)) && KernelStack::is_stack_area(
                    stack_owner(area.start_vpn.0),
                    &area,
                ));
                assert(stack_owner(kstack_bottom_vpn(c)) == c);
                assert(area.start_vpn.0 == kstack_bottom_vpn(c));
                Self::lemma_same_bottom(q, c);
                assert(before.live(q));
                assert(!after.live(c));
            }
            let a = if o < a_idx {
                o
            } else {
                o - 1
            };
            assert(ks1.areas[a] == ks0.areas[o]);
        }
    }

    /// Tasks whose kernel stacks start at the same page are the same
    /// task.
    proof fn lemma_same_bottom(q: usize, c: usize)
        requires
            c <= MAX_PID,
            kstack_bottom_vpn(q) == kstack_bottom_vpn(c),
        ensures
            q == c || q > MAX_PID,
    {
    }
}

/// Where `first_zombie` finds a child, the child is among the first `n`,
/// has ended and is waited for, and no child before it is such.
pub proof fn lemma_first_zombie(kernel: &Kernel, kids: Seq<usize>, pid: isize, n: int)
    requires
        0 <= n <= kids.len(),
    ensures
        -1 <= first_zombie(kernel, kids, pid, n) < n,
        first_zombie(kernel, kids, pid, n) >= 0 ==> kernel.status(
            kids[first_zombie(kernel, kids, pid, n)],
        ) == TaskStatus::Zombie && waits_for(pid, kids[first_zombie(kernel, kids, pid, n)]),
        forall|j: int|
            0 <= j < n && (first_zombie(kernel, kids, pid, n) < 0 || j < first_zombie(
                kernel,
                kids,
                pid,
                n,
            )) ==> !(kernel.status(#[trigger] kids[j]) == TaskStatus::Zombie && waits_for(
                pid,
                kids[j],
            )),
    decreases n,
{
    if n > 0 {
        lemma_first_zombie(kernel, kids, pid, n - 1);
    }
}

impl Kernel {
    /// Number of children of the task `p`.
    pub fn children_len(&self, p: usize) -> (r: usize)
        requires
            self.live(p),
        ensures
            r == self.children_of(p).len(),
    {
        match &self.tasks[p] {
            Some(t) => t.inner.children.len(),
            None => 0,
        }
    }

    /// Child number `i` of the task `p`.
    pub fn child_at(&self, p: usize, i: usize) -> (r: usize)
        requires
            self.live(p),
            i < self.children_of(p).len(),
        ensures
            r == self.children_of(p)[i as int],
    {
        match &self.tasks[p] {
            Some(t) => t.inner.children[i],
            None => 0,
        }
    }

    /// Whether the task `c` has ended.
    pub fn is_zombie(&self, c: usize) -> (r: bool)
        requires
            self.live(c),
        ensures
            r == (self.status(c) == TaskStatus::Zombie),
    {
        match &self.tasks[c] {
            Some(t) => t.inner.is_zombie(),
            None => false,
        }
    }

    /// The exit code of the task `c`.
    pub fn exit_code_of(&self, c: usize) -> (r: i32)
        requires
            self.live(c),
        ensures
            r == self.task(c).inner.exit_code,
    {
        match &self.tasks[c] {
            Some(t) => t.inner.exit_code,
            None => 0,
        }
    }

    /// Takes child number `k` from the children of the task `p` and
    /// stores `code` at `ptr` in the address space of `p`.
    fn collect(&mut self, p: usize, k: usize, code: i32, ptr: u64)
        requires
            old(self).live(p),
            k < old(self).children_of(p).len(),
            old(self).task(p).inner.memory_set.wf(),
            old(self).task(p).inner.memory_set.backed(vpn_of(ptr)),
            ptr % 4096 <= 4092,
        ensures
            final(self).initproc == old(self).initproc,
            final(self).ticks == old(self).ticks,
            final(self).manager == old(self).manager,
            final(self).processor == old(self).processor,
            final(self).res == old(self).res,
            final(self).tasks@.len() == old(self).tasks@.len(),
            forall|q: int|
                0 <= q < old(self).tasks@.len() && q != p ==> #[trigger] final(self).tasks@[q] == old(self).tasks@[q],
            final(self).live(p),
            same_core(&old(self).task(p), &final(self).task(p)),
            final(self).task(p).inner.task_status == old(self).task(p).inner.task_status,
            final(self).task(p).inner.exit_code == old(self).task(p).inner.exit_code,
            final(self).task(p).inner.parent == old(self).task(p).inner.parent,
            final(self).task(p).inner.children@ == old(self).task(p).inner.children@.remove(k as int),
            final(self).task(p).inner.memory_set.wf(),
            same_shape(&old(self).task(p).inner.memory_set, &final(self).task(p).inner.memory_set),
            forall|v: VirtPageNum|
                old(self).task(p).inner.memory_set.backed(v) ==> #[trigger] final(self).task(
                    p,
                ).inner.memory_set.page(v) == if v == vpn_of(ptr) {
                    with_bytes(
                        old(self).task(p).inner.memory_set.page(v),
                        (ptr % 4096) as int,
                        spec_u32_to_le_bytes(code as u32),
                    )
                } else {
                    old(self).task(p).inner.memory_set.page(v)
                },
    {
        let slot = self.tasks[p].take();
        match slot {
            Some(mut t) => {
                t.inner.children.remove(k);
                let bytes = u32_to_le_bytes(#[verifier::truncate] (code as u32));
                proof {
                    vstd::bytes::lemma_auto_spec_u32_to_from_le_bytes();
                }
                t.inner.memory_set.write_bytes(ptr, bytes.as_slice());
                self.tasks[p] = Some(t);
            },
            None => {},
        }
    }

    /// Takes the task `c` out of the table and gives back its identifier,
    /// its kernel stack and the frames of its address space.
    fn drop_task(&mut self, c: usize)
        requires
            old(self).live(c),
            old(self).res.wf(),
            old(self).task(c).pid.0 == c,
            old(self).task(c).kernel_stack.pid == c,
            c <= MAX_PID,
            old(self).res.pid_allocator.is_allocated(c),
            old(self).task(c).inner.memory_set.wf(),
            old(self).task(c).inner.memory_set.owned_by(&old(self).res.frame_allocator),
            forall|f: u64|
                !(old(self).task(c).inner.memory_set.has_frame(f) && old(self).res.kernel_space.has_frame(f)),
            exists|a: int|
                0 <= a < old(self).res.kernel_space.areas.len() && (#[trigger] old(self).res.kernel_space.areas[a]).start_vpn.0 == kstack_bottom_vpn(c),
        ensures
            final(self).initproc == old(self).initproc,
            final(self).ticks == old(self).ticks,
            final(self).manager == old(self).manager,
            final(self).processor == old(self).processor,
            final(self).tasks@.len() == old(self).tasks@.len(),
            forall|q: int|
                0 <= q < old(self).tasks@.len() && q != c ==> #[trigger] final(self).tasks@[q] == old(self).tasks@[q],
            !final(self).live(c),
            reclaimed(&old(self).res, &final(self).res, &old(self).task(c).inner.memory_set, c),
    {
        let slot = self.tasks[c].take();
        match slot {
            Some(child) => {
                self.res.reclaim(child);
            },
            None => {},
        }
    }

    /// Whether a call for `pid` waits for a child of the task `p`.
    pub fn any_child_awaited(&self, p: usize, pid: isize) -> (r: bool)
        requires
            self.live(p),
        ensures
            r == any_awaited(self.children_of(p), pid, self.children_of(p).len() as int),
    {
        let n = self.children_len(p);
        let mut any = false;
        let mut i: usize = 0;
        while i < n
            invariant
                i <= n,
                n == self.children_of(p).len(),
                self.live(p),
                any == any_awaited(self.children_of(p), pid, i as int),
            decreases n - i,
        {
            let c = self.child_at(p, i);
            if pid == -1 || (pid >= 0 && pid as usize == c) {
                any = true;
            }
            i += 1;
        }
        any
    }

    /// Index of the first child of the task `p` that has ended and that a
    /// call for `pid` waits for, if there is one.
    pub fn find_zombie(&self, p: usize, pid: isize) -> (r: Option<usize>)
        requires
            self.live(p),
            forall|i: int|
                0 <= i < self.children_of(p).len() ==> self.live(#[trigger] self.children_of(p)[i]),
        ensures
            match r {
                Some(k) => k < self.children_of(p).len() && first_zombie(
                    self,
                    self.children_of(p),
                    pid,
                    self.children_of(p).len() as int,
                ) == k && self.status(self.children_of(p)[k as int]) == TaskStatus::Zombie,
                None => first_zombie(
                    self,
                    self.children_of(p),
                    pid,
                    self.children_of(p).len() as int,
                ) < 0,
            },
    {
        let n = self.children_len(p);
        let mut i: usize = 0;
        while i < n
            invariant
                i <= n,
                n == self.children_of(p).len(),
                self.live(p),
                forall|j: int|
                    0 <= j < self.children_of(p).len() ==> self.live(
                        #[trigger] self.children_of(p)[j],
                    ),
                first_zombie(self, self.children_of(p), pid, i as int) < 0,
            decreases n - i,
        {
            let c = self.child_at(p, i);
            if self.is_zombie(c) && (pid == -1 || (pid >= 0 && pid as usize == c)) {
                proof {
                    let kids = self.children_of(p);
                    assert(first_zombie(self, kids, pid, i + 1) == i);
                    Self::lemma_first_zombie_stable(self, kids, pid, i + 1, n as int);
                }
                return Some(i);
            }
            i += 1;
        }
        None
    }

    /// Collects child number `k` of the task `p`, which has ended: takes
    /// it from the children of `p`, stores its exit code at `ptr` in the
    /// address space of `p`, and drops it. Gives the identifier of the
    /// child.
    pub fn reap(&mut self, p: usize, k: usize, ptr: u64) -> (c: usize)
        requires
            old(self).wf(),
            old(self).live(p),
            old(self).status(p) != TaskStatus::Zombie,
            k < old(self).children_of(p).len(),
            old(self).status(old(self).children_of(p)[k as int]) == TaskStatus::Zombie,
            old(self).task(p).inner.memory_set.backed(vpn_of(ptr)),
            ptr % 4096 <= 4092,
        ensures
            final(self).wf(),
            c == old(self).children_of(p)[k as int],
            c <= MAX_PID,
            reaped(old(self), final(self), p, c, ptr),
    {
        proof {
            Self::lemma_child(old(self), p, k as int);
        }
        let c = self.child_at(p, k);
        let code = self.exit_code_of(c);
        self.collect(p, k, code, ptr);
        let ghost collected = *self;
        proof {
            assert(collected.tasks@[c as int] == old(self).tasks@[c as int]);
            lemma_stack_index_same(old(self), &collected, c);
        }
        self.drop_task(c);
        proof {
            let kids = old(self).children_of(p);
            assert forall|q: usize| q != c implies #[trigger] self.live(q) == old(self).live(q) by {
                if q < old(self).tasks@.len() {
                    assert(self.tasks@[q as int] == collected.tasks@[q as int]);
                    if q != p {
                        assert(collected.tasks@[q as int] == old(self).tasks@[q as int]);
                    }
                }
            }
            assert forall|q: usize| old(self).live(q) && q != c implies {
                let t0 = old(self).task(q);
                let t1 = #[trigger] self.task(q);
                &&& same_core(&t0, &t1)
                &&& t1.inner.task_status == t0.inner.task_status
                &&& t1.inner.exit_code == t0.inner.exit_code
                &&& t1.inner.parent == t0.inner.parent
                &&& t1.inner.children@ == if q == p {
                    t0.inner.children@.remove(kids.index_of(c))
                } else {
                    t0.inner.children@
                }
                &&& q != p ==> t1.inner.memory_set == t0.inner.memory_set
            } by {
                assert(self.tasks@[q as int] == collected.tasks@[q as int]);
                if q != p {
                    assert(collected.tasks@[q as int] == old(self).tasks@[q as int]);
                }
            }
            assert(self.tasks@[p as int] == collected.tasks@[p as int]);
            assert(reaped(old(self), self, p, c, ptr));
            Self::lemma_stack_is_stack(old(self), c);
            Self::lemma_reaped(old(self), self, p, c, ptr);
        }
        c
    }

    /// What holds of child number `k` of a living task `p`: it lives, is
    /// in its place, names `p` as its parent and is no other child of `p`;
    /// its space is well formed, holds frames that are handed out and
    /// shares none with the kernel's space; its kernel stack is mapped.
    pub proof fn lemma_child(kernel: &Kernel, p: usize, k: int)
        requires
            kernel.wf(),
            kernel.live(p),
            0 <= k < kernel.children_of(p).len(),
        ensures
            ({
                let c = kernel.children_of(p)[k];
                let t = kernel.task(c);
                &&& kernel.live(c)
                &&& c != p
                &&& kernel.parent_of(c) == Some(p)
                &&& kernel.children_of(p).index_of(c) == k
                &&& t.pid.0 == c
                &&& t.kernel_stack.pid == c
                &&& c <= MAX_PID
                &&& kernel.res.pid_allocator.is_allocated(c)
                &&& t.inner.memory_set.wf()
                &&& t.inner.memory_set.owned_by(&kernel.res.frame_allocator)
                &&& kernel.task(p).inner.memory_set.wf()
                &&& forall|f: u64|
                    !(t.inner.memory_set.has_frame(f) && kernel.res.kernel_space.has_frame(f))
                &&& exists|a: int|
                    0 <= a < kernel.res.kernel_space.areas.len() && (
                    #[trigger] kernel.res.kernel_space.areas[a]).start_vpn.0 == kstack_bottom_vpn(c)
            }),
    {
        reveal(Kernel::family_ok);
        reveal(Kernel::tasks_ok);
        reveal(Kernel::frames_apart);
        reveal(Kernel::stacks_ok);
        let kids = kernel.children_of(p);
        let c = kids[k];
        assert(kernel.live(c) && kernel.parent_of(c) == Some(p));
        assert(kernel.parent_of(c) != Some(c));
        assert(kids.no_duplicates());
        assert(kids.contains(c));
        let j = kids.index_of(c);
        assert(kids[j] == c);
        assert(kernel.task(c).pid.0 == c);
        assert(kernel.task(p).pid.0 == p);
        assert forall|f: u64|
            !(kernel.task(c).inner.memory_set.has_frame(f) && kernel.res.kernel_space.has_frame(
                f,
            )) by {}
    }

    /// The area at the index of the stack of a living task is the stack
    /// of that task.
    pub proof fn lemma_stack_is_stack(kernel: &Kernel, c: usize)
        requires
            kernel.stacks_ok(),
            kernel.live(c),
            c <= MAX_PID,
            0 <= stack_index(kernel, c) < kernel.res.kernel_space.areas.len(),
            kernel.res.kernel_space.areas[stack_index(kernel, c)].start_vpn.0 == kstack_bottom_vpn(
                c,
            ),
        ensures
            KernelStack::is_stack_area(c, &kernel.res.kernel_space.areas[stack_index(kernel, c)]),
    {
        reveal(Kernel::stacks_ok);
        let area = kernel.res.kernel_space.areas[stack_index(kernel, c)];
        lemma_stack_owner(c);
        assert(area.start_vpn.0 >= KSTACK_FLOOR);
        assert(KernelStack::is_stack_area(stack_owner(area.start_vpn.0), &area));
    }

    /// Waits for a child of the running task: collects the first child
    /// that has ended and that `pid` names, where -1 names every child.
    /// A child that is collected leaves the kernel; its exit code is stored
    /// at `exit_code_ptr` in the address space of the running task, and its
    /// identifier is the result. The result is -1 where `pid` names no child,
    /// and -2 where no child that it names has ended.
    pub fn waitpid_current(&mut self, pid: isize, exit_code_ptr: u64) -> (r: isize)
        requires
            old(self).wf(),
            old(self).wait_ready(pid, exit_code_ptr),
        ensures
            final(self).wf(),
            r == waitpid_result(old(self), old(self).processor.current->Some_0, pid),
            r < 0 ==> *final(self) == *old(self),
            r >= 0 ==> reaped(
                old(self),
                final(self),
                old(self).processor.current->Some_0,
                r as usize,
                exit_code_ptr,
            ),
    {
        let p = match self.processor.current {
            Some(p) => p,
            None => 0,
        };
        proof {
            Self::lemma_current(old(self));
        }
        if !self.any_child_awaited(p, pid) {
            return -1;
        }
        match self.find_zombie(p, pid) {
            None => -2,
            Some(k) => {
                let c = self.reap(p, k, exit_code_ptr);
                c as isize
            },
        }
    }

    /// The running task lives and has not ended, and its children
    /// live.
    pub proof fn lemma_current(kernel: &Kernel)
        requires
            kernel.wf(),
            kernel.processor.current is Some,
        ensures
            kernel.live(kernel.processor.current->Some_0),
            kernel.status(kernel.processor.current->Some_0) == TaskStatus::Running,
            forall|i: int|
                0 <= i < kernel.children_of(kernel.processor.current->Some_0).len() ==> kernel.live(
                    #[trigger] kernel.children_of(kernel.processor.current->Some_0)[i],
                ),
    {
        reveal(Kernel::sched_ok);
        reveal(Kernel::family_ok);
    }

    /// Once `first_zombie` has found a child among the first `i`, it
    /// finds the same child among the first `n`.
    pub proof fn lemma_first_zombie_stable(kernel: &Kernel, kids: Seq<usize>, pid: isize, i: int, n: int)
        requires
            0 <= i <= n <= kids.len(),
            first_zombie(kernel, kids, pid, i) >= 0,
        ensures
            first_zombie(kernel, kids, pid, n) == first_zombie(kernel, kids, pid, i),
        decreases n - i,
    {
        if i < n {
            Self::lemma_first_zombie_stable(kernel, kids, pid, i, n - 1);
        }
    }
}

} // verus!
