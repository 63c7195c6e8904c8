//! The making of tasks within the kernel: the first task, and the
//! children that tasks fork.
use crate::mm::address::VirtPageNum;
use crate::mm::elf::{le64, spec_headers};
use crate::mm::frame_allocator::{with_words, zeros};
use crate::mm::loader::{max_end, program_space, user_stack_top};
use crate::mm::memory_set::{lemma_owned_mono, MemorySet, TRAP_CONTEXT_VPN};
use crate::mm::spaces::area_built;
use crate::task::exit::same_core;
use crate::task::kernel::{lemma_stack_owner, stack_owner, Kernel, KSTACK_FLOOR};
use crate::task::manager::TaskManager;
use crate::task::pid::{kstack_bottom_vpn, kstack_top, KernelStack, MAX_PID};
use crate::task::processor::Processor;
use crate::task::task::{task_made, Resources, TaskControlBlock, TaskStatus};
use crate::trap::context::TrapContext;
use vstd::prelude::*;

verus! {

/// What the making of the task `c` makes of the kernel: the task is in
/// the table, ready and at the end of the ready queue; where it has a
/// parent, it is the last child of its parent; the resources are as
/// `task_made` says of the making of a task with its address space;
/// nothing else changed.
pub open spec fn spawned(before: &Kernel, after: &Kernel, c: usize, parent: Option<usize>) -> bool {
    &&& after.ticks == before.ticks
    &&& after.processor == before.processor
    &&& after.manager.ready_queue@ == before.manager.ready_queue@.push(c)
    &&& !before.live(c)
    &&& after.live(c)
    &&& forall|q: usize| q != c ==> #[trigger] after.live(q) == before.live(q)
    &&& after.task(c).pid.0 == c
    &&& after.task(c).kernel_stack.pid == c
    &&& c <= MAX_PID
    &&& after.task(c).inner.task_status == TaskStatus::Ready
    &&& after.task(c).inner.parent == parent
    &&& after.task(c).inner.children@.len() == 0
    &&& after.task(c).inner.has_user_space()
    &&& after.task(c).inner.memory_set.owned_by(&after.res.frame_allocator)
    &&& task_made(&before.res, &after.res, &after.task(c).inner.memory_set, c)
    &&& after.res.wf()
    &&& forall|q: usize|
        before.live(q) ==> {
            let t0 = before.task(q);
            let t1 = #[trigger] after.task(q);
            &&& same_core(&t0, &t1)
            &&& t1.inner.task_status == t0.inner.task_status
            &&& t1.inner.exit_code == t0.inner.exit_code
            &&& t1.inner.parent == t0.inner.parent
            &&& t1.inner.memory_set == t0.inner.memory_set
            &&& t1.inner.children@ == if parent == Some(q) {
                t0.inner.children@.push(c)
            } else {
                t0.inner.children@
            }
        }
}

impl Kernel {
    /// The making of a task keeps the tasks, the resources and the kernel
    /// stacks in order.
    pub proof fn lemma_spawn_tasks(before: &Kernel, after: &Kernel, c: usize, parent: Option<usize>)
        requires
            before.res.wf(),
            before.tasks_ok(),
            before.frames_apart(),
            before.stacks_ok(),
            spawned(before, after, c, parent),
        ensures
            after.tasks_ok(),
            after.frames_apart(),
            after.stacks_ok(),
    {
        reveal(Kernel::tasks_ok);
        reveal(Kernel::frames_apart);
        reveal(Kernel::stacks_ok);
        reveal(task_made);
        let al0 = &before.res.frame_allocator;
        let al1 = &after.res.frame_allocator;
        let sc = after.task(c).inner.memory_set;
        let ks0 = before.res.kernel_space;
        let ks1 = after.res.kernel_space;
        assert forall|q: usize| q != c && after.live(q) implies before.live(q) && same_core(
            &before.task(q),
            &#[trigger] after.task(q),
        ) by {
            assert(after.live(q) == before.live(q));
        }
        assert forall|q: usize| after.live(q) implies {
            let t = #[trigger] after.task(q);
            &&& t.pid.0 == q
            &&& t.kernel_stack.pid == q
            &&& q <= MAX_PID
            &&& after.res.pid_allocator.is_allocated(q)
            &&& t.inner.memory_set.wf()
            &&& t.inner.memory_set.owned_by(&after.res.frame_allocator)
            &&& (t.inner.task_status != TaskStatus::Zombie ==> t.inner.has_user_space())
            &&& (t.inner.task_status == TaskStatus::Zombie ==> t.inner.memory_set.areas.len() == 0)
        } by {
            if q != c {
                assert(after.live(q) == before.live(q));
                assert(same_core(&before.task(q), &after.task(q)));
                let t0 = before.task(q);
                assert(t0.pid.0 == q);
                lemma_owned_mono(&t0.inner.memory_set, al0, al1);
                if t0.inner.task_status != TaskStatus::Zombie {
                    assert(t0.inner.has_user_space());
                }
            }
        }
        assert forall|q: usize| #[trigger] after.res.pid_allocator.is_allocated(q) implies after.live(
            q,
        ) by {
            if q != c {
                assert(before.res.pid_allocator.is_allocated(q));
                assert(after.live(q) == before.live(q));
            }
        }
        assert forall|x: usize, y: usize, f: u64|
            after.live(x) && after.live(y) && x != y implies !(#[trigger] after.task(
            x,
        ).inner.memory_set.has_frame(f) && #[trigger] after.task(y).inner.memory_set.has_frame(f)) by {
            if x != c && y != c {
                assert(after.live(x) == before.live(x));
                assert(after.live(y) == before.live(y));
                assert(same_core(&before.task(x), &after.task(x)));
                assert(same_core(&before.task(y), &after.task(y)));
                assert(!(before.task(x).inner.memory_set.has_frame(f) && before.task(
                    y,
                ).inner.memory_set.has_frame(f)));
            } else {
                let o = if x == c {
                    y
                } else {
                    x
                };
                assert(after.live(o) == before.live(o));
                assert(same_core(&before.task(o), &after.task(o)));
                if before.task(o).inner.memory_set.has_frame(f) {
                    assert(before.task(o).inner.memory_set.owned_by(al0));
                    before.task(o).inner.memory_set.lemma_has_frame_allocated(al0, f);
                }
            }
        }
        assert forall|x: usize, f: u64| after.live(x) implies !(#[trigger] after.task(
            x,
        ).inner.memory_set.has_frame(f) && after.res.kernel_space.has_frame(f)) by {
            if x != c {
                assert(after.live(x) == before.live(x));
                assert(same_core(&before.task(x), &after.task(x)));
                let sx = before.task(x).inner.memory_set;
                if sx.has_frame(f) && ks1.has_frame(f) {
                    assert(sx.owned_by(al0));
                    sx.lemma_has_frame_allocated(al0, f);
                    assert(!(sx.has_frame(f) && ks0.has_frame(f)));
                }
            }
        }
        let n = ks0.areas.len() as int;
        assert(ks1.areas[n] == ks1.areas@.last());
        assert forall|a: int| 0 <= a < ks1.areas.len() implies {
            let area = #[trigger] ks1.areas[a];
            if area.start_vpn.0 < KSTACK_FLOOR {
                area.end_vpn.0 <= KSTACK_FLOOR
            } else {
                after.live(stack_owner(area.start_vpn.0)) && KernelStack::is_stack_area(
                    stack_owner(area.start_vpn.0),
                    &area,
                )
            }
        } by {
            if a < n {
                let area = ks0.areas[a];
                assert(ks1.areas[a] == area);
                if area.start_vpn.0 >= KSTACK_FLOOR {
                    let pp = stack_owner(area.start_vpn.0);
                    assert(before.live(pp));
                    assert(after.live(pp) == before.live(pp));
                }
            } else {
                lemma_stack_owner(c);
                assert(KernelStack::is_stack_area(c, &ks1.areas[a]));
            }
        }
        assert forall|q: usize| after.live(q) implies exists|a: int|
            0 <= a < ks1.areas.len() && (#[trigger] ks1.areas[a]).start_vpn.0 == kstack_bottom_vpn(
                q,
            ) by {
            if q != c {
                assert(after.live(q) == before.live(q));
                let a = choose|a: int|
                    0 <= a < ks0.areas.len() && (#[trigger] ks0.areas[a]).start_vpn.0
                        == kstack_bottom_vpn(q);
                assert(ks1.areas[a].start_vpn.0 == kstack_bottom_vpn(q));
            } else {
                assert(ks1.areas[n].start_vpn.0 == kstack_bottom_vpn(c));
            }
        }
    }

    /// The making of a ready task keeps the processor and the ready queue
    /// in order.
    pub proof fn lemma_spawn_sched(before: &Kernel, after: &Kernel, c: usize, parent: Option<usize>)
        requires
            before.sched_ok(),
            spawned(before, after, c, parent),
        ensures
            after.sched_ok(),
    {
        reveal(Kernel::sched_ok);
        let q0 = before.manager.ready_queue@;
        let q1 = after.manager.ready_queue@;
        assert forall|q: usize| q != c && after.live(q) implies before.live(q) && same_core(
            &before.task(q),
            &#[trigger] after.task(q),
        ) by {
            assert(after.live(q) == before.live(q));
        }
        if after.processor.current is Some {
            let p = after.processor.current->Some_0;
            assert(before.live(p));
            assert(after.live(p) == before.live(p));
            assert(same_core(&before.task(p), &after.task(p)));
        }
        assert forall|i: int| 0 <= i < q1.len() implies after.live(#[trigger] q1[i]) && after.status(
            q1[i],
        ) == TaskStatus::Ready by {
            if i < q0.len() {
                assert(q1[i] == q0[i]);
                assert(before.live(q0[i]) && before.status(q0[i]) == TaskStatus::Ready);
                assert(after.live(q0[i]) == before.live(q0[i]));
                assert(same_core(&before.task(q0[i]), &after.task(q0[i])));
            }
        }
        assert forall|x: usize|
            after.live(x) && #[trigger] after.status(x) == TaskStatus::Ready implies q1.contains(
            x,
        ) by {
            if x == c {
                assert(q1[q0.len() as int] == c);
            } else {
                assert(same_core(&before.task(x), &after.task(x)));
                assert(before.status(x) == TaskStatus::Ready);
                let i = choose|i: int| 0 <= i < q0.len() && q0[i] == x;
                assert(q1[i] == x);
            }
        }
        assert forall|x: usize|
            after.live(x) && #[trigger] after.status(x) == TaskStatus::Running implies after.processor.current
            == Some(x) by {
            assert(same_core(&before.task(x), &after.task(x)));
            assert(before.status(x) == TaskStatus::Running);
        }
        assert(q1.no_duplicates()) by {
            assert forall|i: int, j: int| 0 <= i < q1.len() && 0 <= j < q1.len() && i != j implies q1[i]
                != q1[j] by {
                if i < q0.len() && j < q0.len() {
                    assert(q0[i] != q0[j]);
                } else if i < q0.len() {
                    assert(before.live(q0[i]));
                } else if j < q0.len() {
                    assert(before.live(q0[j]));
                }
            }
        }
    }

    /// The making of a child of a living task keeps the families in
    /// order.
    pub proof fn lemma_spawn_family(before: &Kernel, after: &Kernel, c: usize, p: usize)
        requires
            before.family_ok(),
            before.live(p),
            before.status(p) != TaskStatus::Zombie,
            after.initproc == before.initproc,
            spawned(before, after, c, Some(p)),
        ensures
            after.family_ok(),
    {
        reveal(Kernel::family_ok);
        let init = before.initproc;
        assert forall|q: usize| q != c && after.live(q) implies before.live(q) && same_core(
            &before.task(q),
            &#[trigger] after.task(q),
        ) by {
            assert(after.live(q) == before.live(q));
        }
        assert(after.live(init) == before.live(init));
        assert(same_core(&before.task(init), &after.task(init)));
        assert forall|x: usize| after.live(x) implies ((#[trigger] after.parent_of(x)) is None <==> x
            == after.initproc) && after.parent_of(x) != Some(x) by {
            if x != c {
                assert(same_core(&before.task(x), &after.task(x)));
                assert(before.parent_of(x) is None <==> x == init);
                assert(before.parent_of(x) != Some(x));
            }
        }
        assert forall|q: usize, i: int|
            after.live(q) && 0 <= i < after.children_of(q).len() implies after.live(
            #[trigger] after.children_of(q)[i],
        ) && after.parent_of(after.children_of(q)[i]) == Some(q) by {
            if q != c {
                assert(same_core(&before.task(q), &after.task(q)));
                let k = after.children_of(q)[i];
                if q == p && i == before.children_of(p).len() {
                    assert(k == c);
                } else {
                    assert(k == before.children_of(q)[i]);
                    assert(before.live(before.children_of(q)[i]) && before.parent_of(
                        before.children_of(q)[i],
                    ) == Some(q));
                    assert(after.live(k) == before.live(k));
                    assert(same_core(&before.task(k), &after.task(k)));
                }
            }
        }
        assert forall|x: usize|
            after.live(x) && (#[trigger] after.parent_of(x)) is Some implies after.live(
            after.parent_of(x)->Some_0,
        ) && after.children_of(after.parent_of(x)->Some_0).contains(x) by {
            if x == c {
                assert(after.live(p) == before.live(p));
                assert(same_core(&before.task(p), &after.task(p)));
                assert(after.children_of(p)[before.children_of(p).len() as int] == c);
            } else {
                assert(same_core(&before.task(x), &after.task(x)));
                assert(before.parent_of(x) is Some);
                let q0 = before.parent_of(x)->Some_0;
                assert(before.live(q0) && before.children_of(q0).contains(x));
                let j = choose|j: int|
                    0 <= j < before.children_of(q0).len() && before.children_of(q0)[j] == x;
                assert(after.live(q0) == before.live(q0));
                assert(same_core(&before.task(q0), &after.task(q0)));
                assert(after.children_of(q0)[j] == x);
            }
        }
        assert forall|q: usize| after.live(q) implies (#[trigger] after.children_of(q)).no_duplicates()
            && (after.status(q) == TaskStatus::Zombie ==> after.children_of(q).len() == 0) by {
            if q != c {
                assert(same_core(&before.task(q), &after.task(q)));
                assert(before.children_of(q).no_duplicates());
                if q == p {
                    let a0 = before.children_of(p);
                    let all = after.children_of(p);
                    assert forall|i: int, j: int|
                        0 <= i < all.len() && 0 <= j < all.len() && i != j implies all[i]
                        != all[j] by {
                        if i < a0.len() && j < a0.len() {
                            assert(a0[i] != a0[j]);
                        } else if i < a0.len() {
                            assert(before.live(a0[i]));
                        } else if j < a0.len() {
                            assert(before.live(a0[j]));
                        }
                    }
                }
            }
        }
    }

    /// Puts the task `task` into the table at the index of its
    /// identifier.
    pub fn install(&mut self, task: TaskControlBlock)
        requires
            !old(self).live(task.pid.0),
            task.pid.0 < usize::MAX,
        ensures
            final(self).initproc == old(self).initproc,
            final(self).ticks == old(self).ticks,
            final(self).manager == old(self).manager,
            final(self).processor == old(self).processor,
            final(self).res == old(self).res,
            final(self).live(task.pid.0),
            final(self).task(task.pid.0) == task,
            final(self).tasks@.len() == if old(self).tasks@.len() > task.pid.0 {
                old(self).tasks@.len() as int
            } else {
                task.pid.0 + 1
            },
            forall|q: usize| q != task.pid.0 ==> #[trigger] final(self).live(q) == old(self).live(q),
            forall|q: usize|
                old(self).live(q) ==> #[trigger] final(self).tasks@[q as int] == old(self).tasks@[q as int],
    {
        let c = task.pid.0;
        while self.tasks.len() <= c
            invariant
                self.initproc == old(self).initproc,
                self.ticks == old(self).ticks,
                self.manager == old(self).manager,
                self.processor == old(self).processor,
                self.res == old(self).res,
                self.tasks@.len() >= old(self).tasks@.len(),
                self.tasks@.len() <= c + 1 || self.tasks@.len() == old(self).tasks@.len(),
                c < usize::MAX,
                forall|q: int|
                    0 <= q < old(self).tasks@.len() ==> self.tasks@[q] == old(self).tasks@[q],
                forall|q: int|
                    old(self).tasks@.len() <= q < self.tasks@.len() ==> self.tasks@[q] is None,
            decreases c + 1 - self.tasks@.len(),
        {
            self.tasks.push(None);
        }
        self.tasks[c] = Some(task);
    }
}

/// Frames of a space of the same shape make the same task.
pub proof fn lemma_task_made_shape(
    before: &Resources,
    after: &Resources,
    s0: &MemorySet,
    s1: &MemorySet,
    pid: usize,
)
    requires
        task_made(before, after, s0, pid),
        forall|f: u64| s0.has_frame(f) == s1.has_frame(f),
    ensures
        task_made(before, after, s1, pid),
{
    reveal(task_made);
    assert forall|f: u64|
        after.frame_allocator.is_allocated(f) && !before.frame_allocator.is_allocated(
            f,
        ) implies s1.has_frame(f) || after.kernel_space.has_frame(f) by {
        assert(s0.has_frame(f) == s1.has_frame(f));
    }
    assert forall|f: u64| s1.has_frame(f) implies !before.frame_allocator.is_allocated(f) by {
        assert(s0.has_frame(f) == s1.has_frame(f));
    }
    assert forall|f: u64| !(s1.has_frame(f) && after.kernel_space.has_frame(f)) by {
        assert(s0.has_frame(f) == s1.has_frame(f));
    }
}

impl Kernel {
    /// The kernel before its first task: the resources are in order, the
    /// areas of the kernel's space lie below the kernel stacks, no
    /// identifier is handed out, and there is no task.
    pub open spec fn booted(&self) -> bool {
        &&& self.res.wf()
        &&& forall|q: usize| !#[trigger] self.live(q)
        &&& forall|q: usize| !#[trigger] self.res.pid_allocator.is_allocated(q)
        &&& self.manager.ready_queue@.len() == 0
        &&& self.processor.current is None
        &&& forall|a: int|
            0 <= a < self.res.kernel_space.areas.len() ==> (
            #[trigger] self.res.kernel_space.areas[a]).start_vpn.0 < KSTACK_FLOOR
                && self.res.kernel_space.areas[a].end_vpn.0 <= KSTACK_FLOOR
    }

    /// A kernel without tasks on the resources `res`.
    pub fn new(res: Resources) -> (r: Self)
        ensures
            r.res == res,
            r.tasks@.len() == 0,
            r.manager.ready_queue@.len() == 0,
            r.processor.current is None,
            r.initproc == 0,
            r.ticks == 0,
    {
        Kernel {
            res,
            tasks: Vec::new(),
            manager: TaskManager::new(),
            processor: Processor::new(),
            initproc: 0,
            ticks: 0,
        }
    }

    /// Sets up the memory of the kernel as `layout` says and gives a
    /// kernel without tasks on it, which makes the contexts of its tasks
    /// with the addresses `trap_handler` and `trap_return` and the status
    /// `sstatus`.
    pub fn boot(
        layout: &crate::mm::spaces::KernelLayout,
        trap_handler: u64,
        trap_return: u64,
        sstatus: u64,
    ) -> (r: Self)
        requires
            layout.bootable(),
        ensures
            r.booted(),
            r.tasks@.len() == 0,
            r.initproc == 0,
            r.ticks == 0,
            r.res.pid_allocator.next_pid() == 0,
            r.res.strampoline == layout.strampoline,
            r.res.trap_handler == trap_handler,
            r.res.trap_return == trap_return,
            r.res.sstatus == sstatus,
            r.res.frame_allocator.free_count() >= (layout.memory_end as int
                % 0x100_0000_0000_0000) / 4096 - (layout.ekernel as int % 0x100_0000_0000_0000
                + 4095) / 4096 - layout.frames_needed(),
            r.res.kernel_space.areas.len() == layout.count(),
            forall|i: int|
                0 <= i < layout.count() ==> layout.is_section(
                    i,
                    &#[trigger] r.res.kernel_space.areas[i],
                ),
    {
        let (frame_allocator, kernel_space) = crate::mm::init(layout);
        let res = Resources {
            frame_allocator,
            kernel_space,
            pid_allocator: crate::task::pid::PidAllocator::new(),
            strampoline: layout.strampoline,
            trap_handler,
            trap_return,
            sstatus,
        };
        let r = Self::new(res);
        proof {
            assert forall|a: int| 0 <= a < r.res.kernel_space.areas.len() implies (
            #[trigger] r.res.kernel_space.areas[a]).start_vpn.0 < KSTACK_FLOOR
                && r.res.kernel_space.areas[a].end_vpn.0 <= KSTACK_FLOOR by {
                assert(layout.is_section(a, &r.res.kernel_space.areas[a]));
                assert(layout.start_vpn(a) < KSTACK_FLOOR);
            }
        }
        r
    }

    /// Before the first task, the kernel stack of every task can be
    /// mapped.
    pub proof fn lemma_booted_can_host(&self, q: usize)
        requires
            self.booted(),
            q <= MAX_PID,
        ensures
            self.res.can_host(q),
    {
        let ks = &self.res.kernel_space;
        assert forall|vpn: VirtPageNum|
            kstack_bottom_vpn(q) <= vpn.0 < crate::task::pid::kstack_top_vpn(q) implies !ks.page_table.is_mapped(
            vpn,
        ) by {
            if ks.page_table.is_mapped(vpn) {
                let a = choose|a: int| 0 <= a < ks.areas.len() && (#[trigger] ks.areas[a]).contains(vpn);
                lemma_stack_owner(q);
                assert(ks.areas[a].end_vpn.0 <= KSTACK_FLOOR);
            }
        }
    }

    /// Makes the initial task from the program in the ELF file `elf_data`
    /// and puts it at the end of the ready queue.
    pub fn add_initproc(&mut self, elf_data: &[u8])
        requires
            old(self).booted(),
            old(self).startable(elf_data@),
        ensures
            final(self).wf(),
            final(self).initproc == old(self).res.pid_allocator.next_pid(),
            spawned(old(self), final(self), final(self).initproc, None),
            program_space(
                &final(self).task(final(self).initproc).inner.memory_set,
                elf_data@,
                old(self).res.strampoline,
            ),
            final(self).task(final(self).initproc).inner.trap_cx_words() == TrapContext::spec_app_init(
                le64(elf_data@, 24),
                user_stack_top(max_end(spec_headers(elf_data@))),
                (8u64 << 60) | old(self).res.kernel_space.page_table.root_ppn.0,
                kstack_top(final(self).initproc),
                old(self).res.trap_handler,
                old(self).res.sstatus,
            ),
            final(self).task(final(self).initproc).inner.memory_set.page(
                VirtPageNum(TRAP_CONTEXT_VPN),
            ) == with_words(
                zeros(4096),
                0,
                final(self).task(final(self).initproc).inner.trap_cx_words(),
            ),
            final(self).task(final(self).initproc).inner.fd_table@.len() == 3,
            final(self).task(final(self).initproc).inner.exit_code == 0,
            final(self).tasks@.len() == if old(self).tasks@.len() > final(self).initproc {
                old(self).tasks@.len() as int
            } else {
                final(self).initproc + 1
            },
    {
        proof {
            self.lemma_booted_can_host(self.res.pid_allocator.next_pid());
        }
        let task = TaskControlBlock::new(elf_data, &mut self.res);
        let c = task.pid.0;
        proof {
            assert(!old(self).live(c));
            assert(self.tasks == old(self).tasks);
            reveal(task_made);
        }
        let ghost made = *self;
        self.install(task);
        let ghost installed = *self;
        self.initproc = c;
        crate::task::manager::add_task(&mut self.manager, c);
        proof {
            assert(self.tasks == installed.tasks);
            assert(self.res == made.res);
            assert(old(self).manager.ready_queue@.push(c) =~= seq![c]);
            assert forall|q: usize| q != c implies #[trigger] self.live(q) == old(self).live(q) by {
                assert(installed.live(q) == made.live(q));
            }
            assert(self.live(c));
            assert(self.task(c) == installed.task(c));
            assert(spawned(old(self), self, c, None));
            Self::lemma_first_task(old(self), self, c);
        }
    }

    /// The making of the first task puts the kernel in order.
    proof fn lemma_first_task(before: &Kernel, after: &Kernel, c: usize)
        requires
            before.booted(),
            after.initproc == c,
            spawned(before, after, c, None),
        ensures
            after.wf(),
    {
        assert forall|q: usize| q != c implies !#[trigger] after.live(q) by {
            assert(after.live(q) == before.live(q));
        }
        assert(after.sched_ok()) by {
            reveal(Kernel::sched_ok);
            let q1 = after.manager.ready_queue@;
            assert(q1 =~= seq![c]);
            assert(q1.len() == 1 && q1[0] == c);
            assert forall|x: usize|
                after.live(x) && #[trigger] after.status(x) == TaskStatus::Ready implies q1.contains(
                x,
            ) by {
                assert(x == c);
                assert(q1[0] == x);
            }
            assert(before.processor.current is None);
            assert forall|x: usize|
                after.live(x) && #[trigger] after.status(x) == TaskStatus::Running implies after.processor.current
                == Some(x) by {
                assert(x == c);
            }
        }
        assert(after.family_ok()) by {
            reveal(Kernel::family_ok);
        }
        assert(after.tasks_ok()) by {
            reveal(Kernel::tasks_ok);
            reveal(task_made);
            assert forall|q: usize| #[trigger] after.res.pid_allocator.is_allocated(q) implies after.live(
                q,
            ) by {
                assert(!before.res.pid_allocator.is_allocated(q));
            }
        }
        assert(after.frames_apart()) by {
            reveal(Kernel::frames_apart);
            reveal(task_made);
        }
        assert(after.stacks_ok()) by {
            reveal(Kernel::stacks_ok);
            reveal(task_made);
            let ks0 = before.res.kernel_space;
            let ks1 = after.res.kernel_space;
            let n = ks0.areas.len() as int;
            assert(ks1.areas[n] == ks1.areas@.last());
            assert forall|a: int| 0 <= a < ks1.areas.len() implies {
                let area = #[trigger] ks1.areas[a];
                if area.start_vpn.0 < KSTACK_FLOOR {
                    area.end_vpn.0 <= KSTACK_FLOOR
                } else {
                    after.live(stack_owner(area.start_vpn.0)) && KernelStack::is_stack_area(
                        stack_owner(area.start_vpn.0),
                        &area,
                    )
                }
            } by {
                if a < n {
                    assert(ks1.areas[a] == ks0.areas[a]);
                } else {
                    lemma_stack_owner(c);
                    assert(KernelStack::is_stack_area(c, &ks1.areas[a]));
                }
            }
            assert forall|q: usize| after.live(q) implies exists|a: int|
                0 <= a < ks1.areas.len() && (#[trigger] ks1.areas[a]).start_vpn.0
                    == kstack_bottom_vpn(q) by {
                assert(ks1.areas[n].start_vpn.0 == kstack_bottom_vpn(c));
            }
        }
    }

    /// Makes a child of the running task: a copy of the task that is
    /// ready to run and sees zero as the result of the call, in register
    /// `x10` of its trap context. The child goes to the end of the ready
    /// queue. Gives its identifier.
    pub fn fork_current(&mut self) -> (c: usize)
        requires
            old(self).wf(),
            old(self).forkable(),
        ensures
            final(self).wf(),
            final(self).initproc == old(self).initproc,
            c == old(self).res.pid_allocator.next_pid(),
            spawned(old(self), final(self), c, old(self).processor.current),
            final(self).task(c).inner.trap_cx_words() == old(self).task(
                old(self).processor.current->Some_0,
            ).inner.trap_cx_words().update(35, kstack_top(c)).update(10, 0),
            final(self).task(c).inner.memory_set.page(VirtPageNum(TRAP_CONTEXT_VPN)) == with_words(
                old(self).task(old(self).processor.current->Some_0).inner.memory_set.page(
                    VirtPageNum(TRAP_CONTEXT_VPN),
                ),
                0,
                old(self).task(old(self).processor.current->Some_0).inner.trap_cx_words().update(
                    35,
                    kstack_top(c),
                ).update(10, 0),
            ),
            final(self).task(c).inner.memory_set.areas.len() == old(self).task(
                old(self).processor.current->Some_0,
            ).inner.memory_set.areas.len(),
            forall|a: int|
                0 <= a < final(self).task(c).inner.memory_set.areas.len() - 1 ==> area_built(
                    &old(self).task(old(self).processor.current->Some_0).inner.memory_set.areas[a],
                    &#[trigger] final(self).task(c).inner.memory_set.areas[a],
                    true,
                ),
            final(self).task(c).inner.fd_table@ == old(self).task(
                old(self).processor.current->Some_0,
            ).inner.fd_table@,
            final(self).task(c).inner.base_size == old(self).task(
                old(self).processor.current->Some_0,
            ).inner.base_size,
            final(self).task(c).inner.signal_mask == old(self).task(
                old(self).processor.current->Some_0,
            ).inner.signal_mask,
            final(self).task(c).inner.exit_code == 0,
    {
        let p = match self.processor.current {
            Some(p) => p,
            None => 0,
        };
        proof {
            reveal(Kernel::sched_ok);
            reveal(Kernel::tasks_ok);
            let n = self.res.pid_allocator.next_pid();
            assert(!self.res.pid_allocator.is_allocated(n)) by {
                let al = self.res.pid_allocator;
                if al.recycled@.len() > 0 {
                    assert(al.recycled@[al.recycled@.len() - 1] == n);
                }
            }
            if self.live(n) {
                let t = self.task(n);
                assert(self.res.pid_allocator.is_allocated(n));
            }
            assert(!self.live(n));
            self.lemma_can_host(n);
            assert(self.task(p).inner.has_user_space());
        }
        let slot = self.tasks[p].take();
        let c = match slot {
            Some(mut t) => {
                let mut child = t.fork(&mut self.res);
                self.tasks[p] = Some(t);
                let ghost made = child.inner.memory_set;
                let mut cx = child.inner.get_trap_cx();
                cx.x[10] = 0;
                child.inner.set_trap_cx(&cx);
                proof {
                    crate::mm::access::lemma_same_shape(
                        &made,
                        &child.inner.memory_set,
                        &self.res.frame_allocator,
                    );
                    lemma_task_made_shape(
                        &old(self).res,
                        &self.res,
                        &made,
                        &child.inner.memory_set,
                        child.pid.0,
                    );
                    assert(child.inner.trap_cx_words() =~= old(self).task(
                        p,
                    ).inner.trap_cx_words().update(35, kstack_top(child.pid.0)).update(10, 0));
                    crate::mm::frame_allocator::lemma_with_words_twice(
                        old(self).task(p).inner.memory_set.page(VirtPageNum(TRAP_CONTEXT_VPN)),
                        0,
                        old(self).task(p).inner.trap_cx_words().update(35, kstack_top(child.pid.0)),
                        cx.words(),
                    );
                    reveal(crate::mm::access::same_shape);
                    let fin = child.inner.memory_set;
                    assert forall|a: int| 0 <= a < fin.areas.len() - 1 implies area_built(
                        &old(self).task(p).inner.memory_set.areas[a],
                        &#[trigger] fin.areas[a],
                        true,
                    ) by {
                        assert(area_built(
                            &old(self).task(p).inner.memory_set.areas[a],
                            &made.areas[a],
                            true,
                        ));
                        assert(crate::mm::access::area_same_shape(&made.areas[a], &fin.areas[a]));
                        assert(fin.areas[a].wf());
                        assert forall|i: int| 0 <= i < fin.areas[a].data_frames.len() implies (
                        #[trigger] fin.areas[a].data_frames[i])@ == old(self).task(
                            p,
                        ).inner.memory_set.areas[a].data_frames[i]@ by {
                            assert(fin.areas[a].data_frames[i] == made.areas[a].data_frames[i]);
                        }
                    }
                }
                let c = child.pid.0;
                let ghost placed = *self;
                proof {
                    assert forall|q: usize| #[trigger] placed.live(q) == old(self).live(q) by {
                        if q != p && q < old(self).tasks@.len() {
                            assert(placed.tasks@[q as int] == old(self).tasks@[q as int]);
                        }
                    }
                    assert(placed.live(c) == old(self).live(c));
                    reveal(task_made);
                }
                self.install(child);
                let ghost installed = *self;
                crate::task::manager::add_task(&mut self.manager, c);
                proof {
                    assert(self.tasks == installed.tasks);
                    assert forall|q: usize| q != c implies #[trigger] self.live(q) == old(self).live(
                        q,
                    ) by {
                        assert(placed.live(q) == old(self).live(q));
                        assert(installed.live(q) == placed.live(q));
                    }
                    assert forall|q: usize| old(self).live(q) implies {
                        let t0 = old(self).task(q);
                        let t1 = #[trigger] self.task(q);
                        &&& same_core(&t0, &t1)
                        &&& t1.inner.task_status == t0.inner.task_status
                        &&& t1.inner.exit_code == t0.inner.exit_code
                        &&& t1.inner.parent == t0.inner.parent
                        &&& t1.inner.memory_set == t0.inner.memory_set
                        &&& t1.inner.children@ == if Some(p) == Some(q) {
                            t0.inner.children@.push(c)
                        } else {
                            t0.inner.children@
                        }
                    } by {
                        assert(placed.live(q) == old(self).live(q));
                        assert(self.tasks@[q as int] == placed.tasks@[q as int]);
                        if q != p {
                            assert(placed.tasks@[q as int] == old(self).tasks@[q as int]);
                        }
                    }
                    assert(spawned(old(self), self, c, Some(p)));
                    Self::lemma_spawn_tasks(old(self), self, c, Some(p));
                    Self::lemma_spawn_sched(old(self), self, c, Some(p));
                    Self::lemma_spawn_family(old(self), self, c, p);
                }
                c
            },
            None => 0,
        };
        c
    }
}

} // verus!
