//! The kernel's tasks as a whole: the table of the tasks, the ready queue,
//! the processor, and what holds of them together.
use crate::mm::address::VirtPageNum;
use crate::task::manager::TaskManager;
use crate::task::pid::{kstack_bottom_vpn, kstack_top_vpn, KernelStack, MAX_PID};
use crate::task::processor::Processor;
use crate::task::task::{Resources, TaskControlBlock, TaskStatus};
use crate::trap::context::TrapContext;
use vstd::prelude::*;

verus! {

/// The lowest page of the kernel stacks: the first page of the stack of
/// the task with the highest identifier.
pub const KSTACK_FLOOR: u64 = 0x4ff_fffd;

/// The task whose kernel stack starts at page `start`.
#[verifier::opaque]
pub open spec fn stack_owner(start: u64) -> usize {
    ((0x7ff_fffd - start) / 3) as usize
}

/// The kernel stack of a task starts at a page of the kernel stacks, and
/// the task is the owner of the stack that starts there.
pub proof fn lemma_stack_owner(pid: usize)
    requires
        pid <= MAX_PID,
    ensures
        stack_owner(kstack_bottom_vpn(pid)) == pid,
        kstack_bottom_vpn(pid) >= KSTACK_FLOOR,
        kstack_bottom_vpn(pid) + 2 == kstack_top_vpn(pid),
        kstack_top_vpn(pid) <= 0x7ff_ffff,
{
    reveal(stack_owner);
}

/// The state of the kernel: the resources that tasks are made of, the
/// tasks by identifier, the ready queue and the processor.
pub struct Kernel {
    /// The frame allocator, the kernel's address space and the allocator
    /// of identifiers.
    pub res: Resources,
    /// The tasks, each at the index of its identifier.
    pub tasks: Vec<Option<TaskControlBlock>>,
    /// The ready queue.
    pub manager: TaskManager,
    /// The processor.
    pub processor: Processor,
    /// Identifier of the initial task, which adopts the children of tasks
    /// that end.
    pub initproc: usize,
    /// The value of the timer, in ticks.
    pub ticks: u64,
}

/// Two tasks that differ at most in their state.
pub open spec fn same_but_status(a: &TaskControlBlock, b: &TaskControlBlock) -> bool {
    &&& a.pid == b.pid
    &&& a.inner.task_cx == b.inner.task_cx
    &&& a.kernel_stack == b.kernel_stack
    &&& a.inner.trap_cx_ppn == b.inner.trap_cx_ppn
    &&& a.inner.base_size == b.inner.base_size
    &&& a.inner.memory_set == b.inner.memory_set
    &&& a.inner.parent == b.inner.parent
    &&& a.inner.children == b.inner.children
    &&& a.inner.exit_code == b.inner.exit_code
    &&& a.inner.fd_table == b.inner.fd_table
    &&& a.inner.signals == b.inner.signals
    &&& a.inner.signal_mask == b.inner.signal_mask
    &&& a.inner.handling_sig == b.inner.handling_sig
    &&& a.inner.signal_actions == b.inner.signal_actions
    &&& a.inner.killed == b.inner.killed
    &&& a.inner.frozen == b.inner.frozen
    &&& a.inner.trap_ctx_backup == b.inner.trap_ctx_backup
}

impl Kernel {
    /// Whether there is a task with identifier `pid`.
    pub open spec fn live(&self, pid: usize) -> bool {
        pid < self.tasks@.len() && self.tasks@[pid as int] is Some
    }

    /// The task with identifier `pid`.
    pub open spec fn task(&self, pid: usize) -> TaskControlBlock {
        self.tasks@[pid as int]->Some_0
    }

    /// The state of the task with identifier `pid`.
    pub open spec fn status(&self, pid: usize) -> TaskStatus {
        self.task(pid).inner.task_status
    }

    /// The task on the processor, and no other, is running; the ready
    /// queue holds the ready tasks, each once.
    #[verifier::opaque]
    pub open spec fn sched_ok(&self) -> bool {
        &&& self.processor.current matches Some(p) ==> self.live(p) && self.status(p)
            == TaskStatus::Running
        &&& forall|p: usize|
            self.live(p) && #[trigger] self.status(p) == TaskStatus::Running
                ==> self.processor.current == Some(p)
        &&& forall|i: int|
            0 <= i < self.manager.ready_queue@.len() ==> self.live(
                #[trigger] self.manager.ready_queue@[i],
            ) && self.status(self.manager.ready_queue@[i]) == TaskStatus::Ready
        &&& self.manager.ready_queue@.no_duplicates()
        &&& forall|p: usize|
            self.live(p) && #[trigger] self.status(p) == TaskStatus::Ready
                ==> self.manager.ready_queue@.contains(p)
    }

    /// The parent that the task `c` names.
    pub open spec fn parent_of(&self, c: usize) -> Option<usize> {
        self.task(c).inner.parent
    }

    /// The children of the task `p`.
    pub open spec fn children_of(&self, p: usize) -> Seq<usize> {
        self.task(p).inner.children@
    }

    /// Children and parents agree: a task is a child of the task that it
    /// names as its parent and of no other; the initial task, and it alone,
    /// has no parent; a task that ended has no children.
    #[verifier::opaque]
    pub open spec fn family_ok(&self) -> bool {
        &&& self.live(self.initproc)
        &&& self.status(self.initproc) != TaskStatus::Zombie
        &&& forall|c: usize|
            self.live(c) ==> ((#[trigger] self.parent_of(c)) is None <==> c == self.initproc)
                && self.parent_of(c) != Some(c)
        &&& forall|p: usize, i: int|
            self.live(p) && 0 <= i < self.children_of(p).len() ==> self.live(
                #[trigger] self.children_of(p)[i],
            ) && self.parent_of(self.children_of(p)[i]) == Some(p)
        &&& forall|c: usize|
            self.live(c) && (#[trigger] self.parent_of(c)) is Some ==> self.live(
                self.parent_of(c)->Some_0,
            ) && self.children_of(self.parent_of(c)->Some_0).contains(c)
        &&& forall|p: usize|
            self.live(p) ==> (#[trigger] self.children_of(p)).no_duplicates() && (self.status(p)
                == TaskStatus::Zombie ==> self.children_of(p).len() == 0)
    }

    /// Each task sits at the index of its identifier, which is handed
    /// out; its address space is well formed and holds frames that are
    /// handed out; a task that lives has the space of a user program, and a
    /// task that ended has given up the frames of its areas.
    #[verifier::opaque]
    pub open spec fn tasks_ok(&self) -> bool {
        &&& forall|p: usize|
            self.live(p) ==> {
                let t = #[trigger] self.task(p);
                &&& t.pid.0 == p
                &&& t.kernel_stack.pid == p
                &&& p <= MAX_PID
                &&& self.res.pid_allocator.is_allocated(p)
                &&& t.inner.memory_set.wf()
                &&& t.inner.memory_set.owned_by(&self.res.frame_allocator)
                &&& (t.inner.task_status != TaskStatus::Zombie ==> t.inner.has_user_space())
                &&& (t.inner.task_status == TaskStatus::Zombie ==> t.inner.memory_set.areas.len()
                    == 0)
            }
        &&& forall|p: usize| #[trigger] self.res.pid_allocator.is_allocated(p) ==> self.live(p)
    }

    /// No frame belongs to two address spaces.
    #[verifier::opaque]
    pub open spec fn frames_apart(&self) -> bool {
        &&& forall|p: usize, q: usize, f: u64|
            self.live(p) && self.live(q) && p != q ==> !(#[trigger] self.task(
                p,
            ).inner.memory_set.has_frame(f) && #[trigger] self.task(q).inner.memory_set.has_frame(f))
        &&& forall|p: usize, f: u64|
            self.live(p) ==> !(#[trigger] self.task(p).inner.memory_set.has_frame(f)
                && self.res.kernel_space.has_frame(f))
    }

    /// The areas of the kernel's space are the parts of the kernel, which
    /// lie below the kernel stacks, and the kernel stack of each task.
    #[verifier::opaque]
    pub open spec fn stacks_ok(&self) -> bool {
        &&& forall|a: int|
            0 <= a < self.res.kernel_space.areas.len() ==> {
                let area = #[trigger] self.res.kernel_space.areas[a];
                if area.start_vpn.0 < KSTACK_FLOOR {
                    area.end_vpn.0 <= KSTACK_FLOOR
                } else {
                    self.live(stack_owner(area.start_vpn.0)) && KernelStack::is_stack_area(
                        stack_owner(area.start_vpn.0),
                        &area,
                    )
                }
            }
        &&& forall|p: usize|
            self.live(p) ==> exists|a: int|
                0 <= a < self.res.kernel_space.areas.len() && (
                #[trigger] self.res.kernel_space.areas[a]).start_vpn.0 == kstack_bottom_vpn(p)
    }

    /// Everything that holds of the kernel between two system calls.
    pub open spec fn wf(&self) -> bool {
        &&& self.res.wf()
        &&& self.sched_ok()
        &&& self.family_ok()
        &&& self.tasks_ok()
        &&& self.frames_apart()
        &&& self.stacks_ok()
    }

    /// At most one task is running, and it is the task on the processor.
    /// With `lemma_current`: while a task is on the processor, it is the one
    /// task that is running.
    pub proof fn lemma_one_running(&self, p: usize, q: usize)
        requires
            self.wf(),
            self.live(p),
            self.live(q),
            self.status(p) == TaskStatus::Running,
            self.status(q) == TaskStatus::Running,
        ensures
            p == q,
            self.processor.current == Some(p),
    {
        reveal(Kernel::sched_ok);
    }

    /// A task that ended has a parent, which lives and has not ended, and
    /// is among the children of its parent: it stays there until the parent
    /// collects it.
    pub proof fn lemma_zombie_kept(&self, c: usize)
        requires
            self.wf(),
            self.live(c),
            self.status(c) == TaskStatus::Zombie,
        ensures
            self.parent_of(c) is Some,
            self.live(self.parent_of(c)->Some_0),
            self.children_of(self.parent_of(c)->Some_0).contains(c),
            self.status(self.parent_of(c)->Some_0) != TaskStatus::Zombie,
    {
        reveal(Kernel::family_ok);
        let p = self.parent_of(c)->Some_0;
        assert(self.parent_of(c) is Some);
        if self.status(p) == TaskStatus::Zombie {
            assert(self.children_of(p).len() == 0);
        }
    }

    /// The kernel stack of a task that does not exist can be mapped.
    pub proof fn lemma_can_host(&self, q: usize)
        requires
            self.wf(),
            q <= MAX_PID,
            !self.live(q),
        ensures
            self.res.can_host(q),
    {
        reveal(Kernel::stacks_ok);
        let ks = &self.res.kernel_space;
        assert forall|vpn: VirtPageNum|
            kstack_bottom_vpn(q) <= vpn.0 < kstack_top_vpn(q) implies !ks.page_table.is_mapped(
            vpn,
        ) by {
            if ks.page_table.is_mapped(vpn) {
                let a = choose|a: int| 0 <= a < ks.areas.len() && (#[trigger] ks.areas[a]).contains(vpn);
                let area = ks.areas[a];
                lemma_stack_owner(q);
                if area.start_vpn.0 >= KSTACK_FLOOR {
                    let p = stack_owner(area.start_vpn.0);
                    assert(KernelStack::is_stack_area(p, &area));
                    assert(self.live(p));
                    assert(self.task(p).pid.0 == p && p <= MAX_PID) by {
                        reveal(Kernel::tasks_ok);
                    }
                    lemma_stack_owner(p);
                    assert(p == q);
                }
            }
        }
    }

    /// The same tasks exist in `after` as in `before`, each as it was but
    /// for its state, and no task ended or came back
    /// to life; the resources and the initial task are the same.
    pub open spec fn only_status_changed(before: &Kernel, after: &Kernel) -> bool {
        &&& after.res == before.res
        &&& after.initproc == before.initproc
        &&& forall|q: usize| #[trigger] after.live(q) == before.live(q)
        &&& forall|q: usize|
            before.live(q) ==> same_but_status(&before.task(q), &#[trigger] after.task(q)) && ((
            after.task(q).inner.task_status == TaskStatus::Zombie) == (
            before.task(q).inner.task_status == TaskStatus::Zombie))
    }

    /// A change of one slot of the table that keeps all but the state of
    /// the task in it is a change of states only.
    pub proof fn lemma_slot_status(before: &Kernel, after: &Kernel, p: usize)
        requires
            before.live(p),
            after.res == before.res,
            after.initproc == before.initproc,
            after.tasks@.len() == before.tasks@.len(),
            forall|q: int| 0 <= q < before.tasks@.len() && q != p ==> #[trigger] after.tasks@[q] == before.tasks@[q],
            after.live(p),
            same_but_status(&before.task(p), &after.task(p)),
            before.status(p) != TaskStatus::Zombie,
            after.status(p) != TaskStatus::Zombie,
        ensures
            Self::only_status_changed(before, after),
    {
        assert forall|q: usize| #[trigger] after.live(q) == before.live(q) by {
            if q != p && q < before.tasks@.len() {
                assert(after.tasks@[q as int] == before.tasks@[q as int]);
            }
        }
        assert forall|q: usize| before.live(q) implies same_but_status(
            &before.task(q),
            &#[trigger] after.task(q),
        ) && ((after.task(q).inner.task_status == TaskStatus::Zombie) == (
        before.task(q).inner.task_status == TaskStatus::Zombie)) by {
            if q != p {
                assert(after.tasks@[q as int] == before.tasks@[q as int]);
            }
        }
    }

    /// A change of states only keeps the families.
    pub proof fn lemma_family_kept(before: &Kernel, after: &Kernel)
        requires
            before.family_ok(),
            Self::only_status_changed(before, after),
        ensures
            after.family_ok(),
    {
        reveal(Kernel::family_ok);
        assert forall|q: usize| before.live(q) implies #[trigger] after.parent_of(q) == before.parent_of(q)
            && after.children_of(q) == before.children_of(q) by {
            assert(same_but_status(&before.task(q), &after.task(q)));
        }
        assert forall|q: usize| before.live(q) implies #[trigger] after.children_of(q) == before.children_of(q) by {
            assert(same_but_status(&before.task(q), &after.task(q)));
        }
        assert(after.live(before.initproc) == before.live(before.initproc));
        assert(same_but_status(&before.task(before.initproc), &after.task(before.initproc)));
        assert forall|c: usize| after.live(c) implies ((#[trigger] after.parent_of(c)) is None <==> c
            == after.initproc) && after.parent_of(c) != Some(c) by {
            assert(after.live(c) == before.live(c));
            assert(before.parent_of(c) is None <==> c == before.initproc);
        }
        assert forall|q: usize, i: int|
            after.live(q) && 0 <= i < after.children_of(q).len() implies after.live(
            #[trigger] after.children_of(q)[i],
        ) && after.parent_of(after.children_of(q)[i]) == Some(q) by {
            assert(after.live(q) == before.live(q));
            assert(after.children_of(q) == before.children_of(q));
            let c = before.children_of(q)[i];
            assert(before.live(c) && before.parent_of(c) == Some(q));
            assert(after.live(c) == before.live(c));
            assert(after.parent_of(c) == before.parent_of(c));
        }
        assert forall|c: usize|
            after.live(c) && (#[trigger] after.parent_of(c)) is Some implies after.live(
            after.parent_of(c)->Some_0,
        ) && after.children_of(after.parent_of(c)->Some_0).contains(c) by {
            assert(after.live(c) == before.live(c));
            assert(after.parent_of(c) == before.parent_of(c));
            let q = before.parent_of(c)->Some_0;
            assert(before.live(q) && before.children_of(q).contains(c));
            assert(after.live(q) == before.live(q));
            assert(after.children_of(q) == before.children_of(q));
        }
        assert forall|q: usize| after.live(q) implies (#[trigger] after.children_of(q)).no_duplicates()
            && (after.status(q) == TaskStatus::Zombie ==> after.children_of(q).len() == 0) by {
            assert(after.live(q) == before.live(q));
            assert(after.children_of(q) == before.children_of(q));
            assert(same_but_status(&before.task(q), &after.task(q)));
            assert(before.children_of(q).no_duplicates());
        }
    }

    /// A change of states only keeps the tasks in order.
    pub proof fn lemma_tasks_kept(before: &Kernel, after: &Kernel)
        requires
            before.tasks_ok(),
            Self::only_status_changed(before, after),
        ensures
            after.tasks_ok(),
    {
        reveal(Kernel::tasks_ok);
        assert forall|q: usize| after.live(q) implies {
            let t = #[trigger] after.task(q);
            &&& t.pid.0 == q
            &&& t.kernel_stack.pid == q
            &&& q <= MAX_PID
            &&& after.res.pid_allocator.is_allocated(q)
            &&& t.inner.memory_set.wf()
            &&& t.inner.memory_set.owned_by(&after.res.frame_allocator)
            &&& (t.inner.task_status != TaskStatus::Zombie ==> t.inner.has_user_space())
            &&& (t.inner.task_status == TaskStatus::Zombie ==> t.inner.memory_set.areas.len() == 0)
        } by {
            assert(after.live(q) == before.live(q));
            assert(same_but_status(&before.task(q), &after.task(q)));
            let t0 = before.task(q);
            assert(t0.pid.0 == q);
            if t0.inner.task_status != TaskStatus::Zombie {
                assert(t0.inner.has_user_space());
            }
        }
        assert forall|q: usize| #[trigger] after.res.pid_allocator.is_allocated(q) implies after.live(
            q,
        ) by {
            assert(before.res.pid_allocator.is_allocated(q));
            assert(after.live(q) == before.live(q));
        }
    }

    /// A change of states only keeps the frames of the spaces apart.
    pub proof fn lemma_apart_kept(before: &Kernel, after: &Kernel)
        requires
            before.frames_apart(),
            Self::only_status_changed(before, after),
        ensures
            after.frames_apart(),
    {
        reveal(Kernel::frames_apart);
        assert forall|x: usize, y: usize, f: u64|
            after.live(x) && after.live(y) && x != y implies !(#[trigger] after.task(
            x,
        ).inner.memory_set.has_frame(f) && #[trigger] after.task(y).inner.memory_set.has_frame(f)) by {
            assert(after.live(x) == before.live(x));
            assert(after.live(y) == before.live(y));
            assert(same_but_status(&before.task(x), &after.task(x)));
            assert(same_but_status(&before.task(y), &after.task(y)));
            assert(!(before.task(x).inner.memory_set.has_frame(f) && before.task(
                y,
            ).inner.memory_set.has_frame(f)));
        }
        assert forall|x: usize, f: u64| after.live(x) implies !(#[trigger] after.task(
            x,
        ).inner.memory_set.has_frame(f) && after.res.kernel_space.has_frame(f)) by {
            assert(after.live(x) == before.live(x));
            assert(same_but_status(&before.task(x), &after.task(x)));
            assert(!(before.task(x).inner.memory_set.has_frame(f) && before.res.kernel_space.has_frame(
                f,
            )));
        }
    }

    /// A change of states only keeps the kernel stacks in order.
    pub proof fn lemma_stacks_kept(before: &Kernel, after: &Kernel)
        requires
            before.stacks_ok(),
            Self::only_status_changed(before, after),
        ensures
            after.stacks_ok(),
    {
        reveal(Kernel::stacks_ok);
        assert forall|a: int| 0 <= a < after.res.kernel_space.areas.len() implies {
            let area = #[trigger] after.res.kernel_space.areas[a];
            if area.start_vpn.0 < KSTACK_FLOOR {
                area.end_vpn.0 <= KSTACK_FLOOR
            } else {
                after.live(stack_owner(area.start_vpn.0)) && KernelStack::is_stack_area(
                    stack_owner(area.start_vpn.0),
                    &area,
                )
            }
        } by {
            let area = before.res.kernel_space.areas[a];
            if area.start_vpn.0 >= KSTACK_FLOOR {
                let pp = stack_owner(area.start_vpn.0);
                assert(before.live(pp));
                assert(after.live(pp) == before.live(pp));
            }
        }
        assert forall|q: usize| after.live(q) implies exists|a: int|
            0 <= a < after.res.kernel_space.areas.len() && (
            #[trigger] after.res.kernel_space.areas[a]).start_vpn.0 == kstack_bottom_vpn(q) by {
            assert(after.live(q) == before.live(q));
            let a = choose|a: int|
                0 <= a < before.res.kernel_space.areas.len() && (
                #[trigger] before.res.kernel_space.areas[a]).start_vpn.0 == kstack_bottom_vpn(q);
            assert(after.res.kernel_space.areas[a].start_vpn.0 == kstack_bottom_vpn(q));
        }
    }

    /// What a change of the state of one task does, where the ready queue
    /// and the processor change with it.
    pub proof fn lemma_status_change(before: &Kernel, after: &Kernel, p: usize)
        requires
            before.wf(),
            before.live(p),
            after.res == before.res,
            after.initproc == before.initproc,
            after.tasks@.len() == before.tasks@.len(),
            forall|q: int| 0 <= q < before.tasks@.len() && q != p ==> #[trigger] after.tasks@[q] == before.tasks@[q],
            after.live(p),
            same_but_status(&before.task(p), &after.task(p)),
            before.status(p) != TaskStatus::Zombie,
            after.status(p) != TaskStatus::Zombie,
            after.sched_ok(),
        ensures
            after.wf(),
    {
        Self::lemma_slot_status(before, after, p);
        Self::lemma_family_kept(before, after);
        Self::lemma_tasks_kept(before, after);
        Self::lemma_apart_kept(before, after);
        Self::lemma_stacks_kept(before, after);
    }

    /// Sets the state of the task `pid`.
    pub fn set_status(&mut self, pid: usize, status: TaskStatus)
        requires
            old(self).live(pid),
        ensures
            final(self).res == old(self).res,
            final(self).manager == old(self).manager,
            final(self).processor == old(self).processor,
            final(self).initproc == old(self).initproc,
            final(self).ticks == old(self).ticks,
            final(self).tasks@.len() == old(self).tasks@.len(),
            forall|q: int|
                0 <= q < old(self).tasks@.len() && q != pid ==> #[trigger] final(self).tasks@[q] == old(self).tasks@[q],
            final(self).live(pid),
            same_but_status(&old(self).task(pid), &final(self).task(pid)),
            final(self).status(pid) == status,
            final(self).task(pid).inner.task_cx == old(self).task(pid).inner.task_cx,
    {
        let mut slot = self.tasks[pid].take();
        match slot {
            Some(mut t) => {
                t.inner.task_status = status;
                self.tasks[pid] = Some(t);
            },
            None => {},
        }
    }

    /// One turn of the idle loop: takes the task at the front of the
    /// ready queue, marks it as running and puts it on the processor, which
    /// runs no task. Gives the identifier of the task, whose saved context
    /// is the one to switch to, or nothing where no task is ready.
    pub fn run_tasks(&mut self) -> (r: Option<usize>)
        requires
            old(self).wf(),
            old(self).processor.current is None,
        ensures
            final(self).wf(),
            final(self).res == old(self).res,
            final(self).initproc == old(self).initproc,
            final(self).ticks == old(self).ticks,
            final(self).tasks@.len() == old(self).tasks@.len(),
            old(self).manager.ready_queue@.len() == 0 ==> r is None && *final(self) == *old(self),
            old(self).manager.ready_queue@.len() > 0 ==> {
                let p = old(self).manager.ready_queue@[0];
                &&& r == Some(p)
                &&& final(self).processor.current == Some(p)
                &&& final(self).manager.ready_queue@ == old(self).manager.ready_queue@.subrange(
                    1,
                    old(self).manager.ready_queue@.len() as int,
                )
                &&& final(self).live(p)
                &&& final(self).status(p) == TaskStatus::Running
                &&& same_but_status(&old(self).task(p), &final(self).task(p))
                &&& forall|q: int|
                    0 <= q < old(self).tasks@.len() && q != p ==> #[trigger] final(self).tasks@[q]
                        == old(self).tasks@[q]
            },
    {
        let ghost q0 = self.manager.ready_queue@;
        if self.manager.ready_queue.len() == 0 {
            return None;
        }
        match self.manager.fetch() {
            Some(p) => {
                proof {
                    reveal(Kernel::sched_ok);
                    assert(q0[0] == p);
                    assert(old(self).live(p));
                }
                self.set_status(p, TaskStatus::Running);
                self.processor.current = Some(p);
                proof {
                    Self::lemma_dispatched(old(self), self, p);
                    Self::lemma_status_change(old(self), self, p);
                }
                Some(p)
            },
            None => None,
        }
    }

    /// After the task at the front of the ready queue was put on an idle
    /// processor, the processor and the queue are in order.
    proof fn lemma_dispatched(before: &Kernel, after: &Kernel, p: usize)
        requires
            before.sched_ok(),
            before.processor.current is None,
            before.manager.ready_queue@.len() > 0,
            p == before.manager.ready_queue@[0],
            after.manager.ready_queue@ == before.manager.ready_queue@.subrange(
                1,
                before.manager.ready_queue@.len() as int,
            ),
            after.processor.current == Some(p),
            after.tasks@.len() == before.tasks@.len(),
            forall|q: int| 0 <= q < before.tasks@.len() && q != p ==> #[trigger] after.tasks@[q] == before.tasks@[q],
            after.live(p),
            after.status(p) == TaskStatus::Running,
        ensures
            after.sched_ok(),
    {
        reveal(Kernel::sched_ok);
        let q0 = before.manager.ready_queue@;
        let q1 = after.manager.ready_queue@;
        assert forall|q: usize| q != p implies after.live(q) == before.live(q) && (after.live(q)
            ==> after.task(q) == before.task(q)) by {
            if q < before.tasks@.len() {
                assert(after.tasks@[q as int] == before.tasks@[q as int]);
            }
        }
        assert forall|i: int| 0 <= i < q1.len() implies after.live(#[trigger] q1[i]) && after.status(
            q1[i],
        ) == TaskStatus::Ready by {
            assert(q1[i] == q0[i + 1]);
            assert(q0[i + 1] != q0[0]);
            assert(before.live(q0[i + 1]));
        }
        assert forall|x: usize|
            after.live(x) && #[trigger] after.status(x) == TaskStatus::Ready implies q1.contains(
            x,
        ) by {
            assert(before.status(x) == TaskStatus::Ready);
            assert(q0.contains(x));
            let i = choose|i: int| 0 <= i < q0.len() && q0[i] == x;
            assert(q1[i - 1] == x);
        }
        assert forall|x: usize|
            after.live(x) && #[trigger] after.status(x) == TaskStatus::Running implies after.processor.current
            == Some(x) by {
            if x != p {
                assert(before.status(x) == TaskStatus::Running);
            }
        }
        assert(q1.no_duplicates()) by {
            assert forall|i: int, j: int| 0 <= i < q1.len() && 0 <= j < q1.len() && i != j implies q1[i]
                != q1[j] by {
                assert(q0[i + 1] != q0[j + 1]);
            }
        }
    }

    /// After the running task was taken off the processor and put at the
    /// end of the ready queue as a ready task, the processor and the queue
    /// are in order.
    proof fn lemma_requeued(before: &Kernel, after: &Kernel, p: usize)
        requires
            before.sched_ok(),
            before.processor.current == Some(p),
            after.manager.ready_queue@ == before.manager.ready_queue@.push(p),
            after.processor.current is None,
            after.tasks@.len() == before.tasks@.len(),
            forall|q: int| 0 <= q < before.tasks@.len() && q != p ==> #[trigger] after.tasks@[q] == before.tasks@[q],
            after.live(p),
            after.status(p) == TaskStatus::Ready,
        ensures
            after.sched_ok(),
    {
        reveal(Kernel::sched_ok);
        let q0 = before.manager.ready_queue@;
        let q1 = after.manager.ready_queue@;
        assert forall|q: usize| q != p implies after.live(q) == before.live(q) && (after.live(q)
            ==> after.task(q) == before.task(q)) by {
            if q < before.tasks@.len() {
                assert(after.tasks@[q as int] == before.tasks@[q as int]);
            }
        }
        assert forall|i: int| 0 <= i < q1.len() implies after.live(#[trigger] q1[i]) && after.status(
            q1[i],
        ) == TaskStatus::Ready by {
            if i < q0.len() {
                assert(q1[i] == q0[i]);
                assert(before.live(q0[i]) && before.status(q0[i]) == TaskStatus::Ready);
            }
        }
        assert forall|x: usize|
            after.live(x) && #[trigger] after.status(x) == TaskStatus::Ready implies q1.contains(
            x,
        ) by {
            if x == p {
                assert(q1[q0.len() as int] == p);
            } else {
                assert(before.status(x) == TaskStatus::Ready);
                let i = choose|i: int| 0 <= i < q0.len() && q0[i] == x;
                assert(q1[i] == x);
            }
        }
        assert forall|x: usize|
            after.live(x) && #[trigger] after.status(x) == TaskStatus::Running implies after.processor.current
            == Some(x) by {
            if x != p {
                assert(before.status(x) == TaskStatus::Running);
            }
        }
        assert(q1.no_duplicates()) by {
            assert forall|i: int, j: int| 0 <= i < q1.len() && 0 <= j < q1.len() && i != j implies q1[i]
                != q1[j] by {
                if i < q0.len() && j < q0.len() {
                    assert(q0[i] != q0[j]);
                } else if i < q0.len() {
                    assert(before.status(q0[i]) == TaskStatus::Ready);
                } else if j < q0.len() {
                    assert(before.status(q0[j]) == TaskStatus::Ready);
                }
            }
        }
    }

    /// The identifier of the running task.
    pub fn current_task(&self) -> (r: Option<usize>)
        ensures
            r == self.processor.current,
    {
        self.processor.current()
    }

    /// The `satp` value of the address space of the running task.
    pub fn current_user_token(&self) -> (r: u64)
        requires
            self.wf(),
            self.processor.current is Some,
        ensures
            r == (8u64 << 60) | self.task(
                self.processor.current->Some_0,
            ).inner.memory_set.page_table.root_ppn.0,
    {
        proof {
            reveal(Kernel::sched_ok);
        }
        match self.processor.current {
            Some(p) => match &self.tasks[p] {
                Some(t) => t.inner.get_user_token(),
                None => 0,
            },
            None => 0,
        }
    }

    /// The trap context of the running task.
    pub fn current_trap_cx(&self) -> (r: TrapContext)
        requires
            self.wf(),
            self.processor.current is Some,
        ensures
            r.words() == self.task(self.processor.current->Some_0).inner.trap_cx_words(),
    {
        proof {
            reveal(Kernel::sched_ok);
            reveal(Kernel::tasks_ok);
        }
        match self.processor.current {
            Some(p) => {
                assert(self.task(p).inner.has_user_space());
                match &self.tasks[p] {
                    Some(t) => t.inner.get_trap_cx(),
                    None => TrapContext::app_init_context(0, 0, 0, 0, 0, 0),
                }
            },
            None => TrapContext::app_init_context(0, 0, 0, 0, 0, 0),
        }
    }

    /// Takes the running task off the processor, puts it at the end of
    /// the ready queue as a ready task, and puts the task at the front of
    /// the queue on the processor. Gives the identifier of the task that
    /// runs now.
    pub fn suspend_current_and_run_next(&mut self) -> (r: usize)
        requires
            old(self).wf(),
            old(self).processor.current is Some,
        ensures
            final(self).wf(),
            final(self).res == old(self).res,
            final(self).initproc == old(self).initproc,
            final(self).ticks == old(self).ticks,
            final(self).tasks@.len() == old(self).tasks@.len(),
            r == old(self).manager.ready_queue@.push(old(self).processor.current->Some_0)[0],
            final(self).processor.current == Some(r),
            final(self).manager.ready_queue@ == old(self).manager.ready_queue@.push(
                old(self).processor.current->Some_0,
            ).subrange(1, old(self).manager.ready_queue@.len() as int + 1),
            Self::only_status_changed(old(self), final(self)),
            final(self).status(r) == TaskStatus::Running,
            r != old(self).processor.current->Some_0 ==> final(self).status(
                old(self).processor.current->Some_0,
            ) == TaskStatus::Ready,
    {
        let p = match crate::task::processor::take_current_task(&mut self.processor) {
            Some(p) => p,
            None => 0,
        };
        proof {
            reveal(Kernel::sched_ok);
        }
        self.set_status(p, TaskStatus::Ready);
        crate::task::manager::add_task(&mut self.manager, p);
        let ghost mid = *self;
        proof {
            Self::lemma_requeued(old(self), &mid, p);
            Self::lemma_status_change(old(self), &mid, p);
            Self::lemma_slot_status(old(self), &mid, p);
        }
        let r = match self.run_tasks() {
            Some(r) => r,
            None => 0,
        };
        proof {
            Self::lemma_slot_status(&mid, self, r);
            assert forall|q: usize| old(self).live(q) implies same_but_status(
                &old(self).task(q),
                &#[trigger] self.task(q),
            ) && ((self.task(q).inner.task_status == TaskStatus::Zombie) == (old(self).task(
                q,
            ).inner.task_status == TaskStatus::Zombie)) by {
                assert(mid.live(q) == old(self).live(q));
                assert(same_but_status(&old(self).task(q), &mid.task(q)));
                assert(same_but_status(&mid.task(q), &self.task(q)));
            }
            assert forall|q: usize| #[trigger] self.live(q) == old(self).live(q) by {
                assert(mid.live(q) == old(self).live(q));
                assert(self.live(q) == mid.live(q));
            }
        }
        r
    }
}

} // verus!
