//! The end of a task: it becomes a zombie, gives up the frames of its
//! areas, and leaves its children to the initial task.
use crate::mm::address::PhysPageNum;
use crate::mm::memory_set::MemorySet;
use crate::task::kernel::{stack_owner, Kernel, KSTACK_FLOOR};
use crate::task::pid::{kstack_bottom_vpn, KernelStack, MAX_PID};
use crate::task::task::{TaskControlBlock, TaskStatus};
use vstd::prelude::*;

verus! {

/// Two tasks that agree in all but their state, their parent, their
/// children, their exit code and their address space.
pub open spec fn same_core(a: &TaskControlBlock, b: &TaskControlBlock) -> bool {
    &&& a.pid == b.pid
    &&& a.kernel_stack == b.kernel_stack
    &&& a.inner.trap_cx_ppn == b.inner.trap_cx_ppn
    &&& a.inner.base_size == b.inner.base_size
    &&& a.inner.task_cx == b.inner.task_cx
    &&& a.inner.fd_table == b.inner.fd_table
    &&& a.inner.signals == b.inner.signals
    &&& a.inner.signal_mask == b.inner.signal_mask
    &&& a.inner.handling_sig == b.inner.handling_sig
    &&& a.inner.signal_actions == b.inner.signal_actions
    &&& a.inner.killed == b.inner.killed
    &&& a.inner.frozen == b.inner.frozen
    &&& a.inner.trap_ctx_backup == b.inner.trap_ctx_backup
}

/// What the end of the running task `p` with exit code `code` makes of
/// the kernel, before the next task is put on the processor: `p` is a
/// zombie with that exit code, without children and without areas; its
/// children are children of the initial task, after those that the initial
/// task had; the frames of its areas are free; nothing else changed.
pub open spec fn exited(before: &Kernel, after: &Kernel, p: usize, code: i32) -> bool {
    let init = before.initproc;
    &&& after.initproc == init
    &&& after.ticks == before.ticks
    &&& after.tasks@.len() == before.tasks@.len()
    &&& forall|q: usize| #[trigger] after.live(q) == before.live(q)
    &&& after.manager.ready_queue@ == before.manager.ready_queue@
    &&& after.processor.current is None
    &&& after.processor.idle_task_cx == before.processor.idle_task_cx
    &&& after.res.kernel_space == before.res.kernel_space
    &&& after.res.pid_allocator == before.res.pid_allocator
    &&& after.res.same_addresses(&before.res)
    &&& after.res.frame_allocator.wf()
    &&& after.res.frame_allocator.end == before.res.frame_allocator.end
    &&& after.res.frame_allocator.current == before.res.frame_allocator.current
    &&& forall|f: u64|
        after.res.frame_allocator.is_allocated(f) == (before.res.frame_allocator.is_allocated(f) && !(
        exists|a: int|
            0 <= a < before.task(p).inner.memory_set.areas.len() && (#[trigger] before.task(
                p,
            ).inner.memory_set.areas[a]).has_frame(f)))
    &&& forall|q: usize|
        before.live(q) ==> {
            let t0 = before.task(q);
            let t1 = #[trigger] after.task(q);
            &&& same_core(&t0, &t1)
            &&& t1.inner.task_status == if q == p {
                TaskStatus::Zombie
            } else {
                t0.inner.task_status
            }
            &&& t1.inner.exit_code == if q == p {
                code
            } else {
                t0.inner.exit_code
            }
            &&& t1.inner.parent == if t0.inner.parent == Some(p) {
                Some(init)
            } else {
                t0.inner.parent
            }
            &&& t1.inner.children@ == if q == p {
                Seq::<usize>::empty()
            } else if q == init {
                t0.inner.children@ + before.task(p).inner.children@
            } else {
                t0.inner.children@
            }
            &&& q != p ==> t1.inner.memory_set == t0.inner.memory_set
        }
    &&& after.task(p).inner.memory_set.page_table == before.task(p).inner.memory_set.page_table
    &&& after.task(p).inner.memory_set.areas.len() == 0
}

/// What the end of the running task `p` with exit code `code` makes of
/// the kernel, once the next task, `next`, is on the processor: what
/// `exited` says, but that `next` is running and has left the ready queue,
/// of which it was the front.
pub open spec fn exit_result(
    before: &Kernel,
    after: &Kernel,
    p: usize,
    code: i32,
    next: Option<usize>,
) -> bool {
    let init = before.initproc;
    &&& after.initproc == init
    &&& after.ticks == before.ticks
    &&& after.tasks@.len() == before.tasks@.len()
    &&& forall|q: usize| #[trigger] after.live(q) == before.live(q)
    &&& next == if before.manager.ready_queue@.len() > 0 {
        Some(before.manager.ready_queue@[0])
    } else {
        None
    }
    &&& after.manager.ready_queue@ == if before.manager.ready_queue@.len() > 0 {
        before.manager.ready_queue@.subrange(1, before.manager.ready_queue@.len() as int)
    } else {
        before.manager.ready_queue@
    }
    &&& after.processor.current == next
    &&& after.res.kernel_space == before.res.kernel_space
    &&& after.res.pid_allocator == before.res.pid_allocator
    &&& after.res.same_addresses(&before.res)
    &&& after.res.frame_allocator.end == before.res.frame_allocator.end
    &&& after.res.frame_allocator.current == before.res.frame_allocator.current
    &&& forall|f: u64|
        after.res.frame_allocator.is_allocated(f) == (before.res.frame_allocator.is_allocated(f) && !(
        exists|a: int|
            0 <= a < before.task(p).inner.memory_set.areas.len() && (#[trigger] before.task(
                p,
            ).inner.memory_set.areas[a]).has_frame(f)))
    &&& forall|q: usize|
        before.live(q) ==> {
            let t0 = before.task(q);
            let t1 = #[trigger] after.task(q);
            &&& same_core(&t0, &t1)
            &&& t1.inner.task_status == if q == p {
                TaskStatus::Zombie
            } else if next == Some(q) {
                TaskStatus::Running
            } else {
                t0.inner.task_status
            }
            &&& t1.inner.exit_code == if q == p {
                code
            } else {
                t0.inner.exit_code
            }
            &&& t1.inner.parent == if t0.inner.parent == Some(p) {
                Some(init)
            } else {
                t0.inner.parent
            }
            &&& t1.inner.children@ == if q == p {
                Seq::<usize>::empty()
            } else if q == init {
                t0.inner.children@ + before.task(p).inner.children@
            } else {
                t0.inner.children@
            }
            &&& q != p ==> t1.inner.memory_set == t0.inner.memory_set
        }
    &&& after.task(p).inner.memory_set.page_table == before.task(p).inner.memory_set.page_table
    &&& after.task(p).inner.memory_set.areas.len() == 0
}

impl Kernel {
    /// Marks the task `p` as ended with exit code `exit_code`, takes its
    /// children from it and gives the frames of its areas back. Gives the
    /// children.
    fn finish(&mut self, p: usize, exit_code: i32) -> (kids: Vec<usize>)
        requires
            old(self).live(p),
            old(self).task(p).inner.memory_set.wf(),
            old(self).task(p).inner.memory_set.owned_by(&old(self).res.frame_allocator),
            old(self).res.frame_allocator.wf(),
        ensures
            final(self).initproc == old(self).initproc,
            final(self).ticks == old(self).ticks,
            final(self).manager == old(self).manager,
            final(self).processor == old(self).processor,
            final(self).res.kernel_space == old(self).res.kernel_space,
            final(self).res.pid_allocator == old(self).res.pid_allocator,
            final(self).res.same_addresses(&old(self).res),
            final(self).tasks@.len() == old(self).tasks@.len(),
            forall|q: int|
                0 <= q < old(self).tasks@.len() && q != p ==> #[trigger] final(self).tasks@[q] == old(self).tasks@[q],
            final(self).live(p),
            same_core(&old(self).task(p), &final(self).task(p)),
            final(self).task(p).inner.task_status == TaskStatus::Zombie,
            final(self).task(p).inner.exit_code == exit_code,
            final(self).task(p).inner.parent == old(self).task(p).inner.parent,
            final(self).task(p).inner.children@.len() == 0,
            kids@ == old(self).task(p).inner.children@,
            final(self).task(p).inner.memory_set.page_table == old(self).task(
                p,
            ).inner.memory_set.page_table,
            final(self).task(p).inner.memory_set.areas.len() == 0,
            final(self).task(p).inner.memory_set.wf(),
            final(self).task(p).inner.memory_set.owned_by(&final(self).res.frame_allocator),
            final(self).res.frame_allocator.wf(),
            final(self).res.frame_allocator.end == old(self).res.frame_allocator.end,
            final(self).res.frame_allocator.current == old(self).res.frame_allocator.current,
            forall|f: u64|
                final(self).res.frame_allocator.is_allocated(f) == (old(self).res.frame_allocator.is_allocated(f) && !(exists|a: int|
                    0 <= a < old(self).task(p).inner.memory_set.areas.len() && (#[trigger] old(self).task(p).inner.memory_set.areas[a]).has_frame(f))),
    {
        let slot = self.tasks[p].take();
        match slot {
            Some(mut t) => {
                t.inner.task_status = TaskStatus::Zombie;
                t.inner.exit_code = exit_code;
                let kids = t.inner.children;
                t.inner.children = Vec::new();
                t.inner.memory_set.recycle_data_pages(&mut self.res.frame_allocator);
                self.tasks[p] = Some(t);
                kids
            },
            None => Vec::new(),
        }
    }

    /// Makes `parent` the parent of the task `c`.
    fn set_parent(&mut self, c: usize, parent: usize)
        requires
            old(self).live(c),
        ensures
            final(self).initproc == old(self).initproc,
            final(self).ticks == old(self).ticks,
            final(self).manager == old(self).manager,
            final(self).processor == old(self).processor,
            final(self).res == old(self).res,
            final(self).tasks@.len() == old(self).tasks@.len(),
            forall|q: int|
                0 <= q < old(self).tasks@.len() && q != c ==> #[trigger] final(self).tasks@[q] == old(self).tasks@[q],
            final(self).live(c),
            same_core(&old(self).task(c), &final(self).task(c)),
            final(self).task(c).inner.task_status == old(self).task(c).inner.task_status,
            final(self).task(c).inner.exit_code == old(self).task(c).inner.exit_code,
            final(self).task(c).inner.children == old(self).task(c).inner.children,
            final(self).task(c).inner.memory_set == old(self).task(c).inner.memory_set,
            final(self).task(c).inner.parent == Some(parent),
    {
        let slot = self.tasks[c].take();
        match slot {
            Some(mut t) => {
                t.inner.parent = Some(parent);
                self.tasks[c] = Some(t);
            },
            None => {},
        }
    }

    /// Adds `kids` to the children of the task `init`, after those that
    /// it has.
    fn adopt(&mut self, init: usize, kids: &Vec<usize>)
        requires
            old(self).live(init),
        ensures
            final(self).initproc == old(self).initproc,
            final(self).ticks == old(self).ticks,
            final(self).manager == old(self).manager,
            final(self).processor == old(self).processor,
            final(self).res == old(self).res,
            final(self).tasks@.len() == old(self).tasks@.len(),
            forall|q: int|
                0 <= q < old(self).tasks@.len() && q != init ==> #[trigger] final(self).tasks@[q]
                    == old(self).tasks@[q],
            final(self).live(init),
            same_core(&old(self).task(init), &final(self).task(init)),
            final(self).task(init).inner.task_status == old(self).task(init).inner.task_status,
            final(self).task(init).inner.exit_code == old(self).task(init).inner.exit_code,
            final(self).task(init).inner.parent == old(self).task(init).inner.parent,
            final(self).task(init).inner.memory_set == old(self).task(init).inner.memory_set,
            final(self).task(init).inner.children@ == old(self).task(init).inner.children@ + kids@,
    {
        let slot = self.tasks[init].take();
        match slot {
            Some(mut t) => {
                let ghost c0 = t.inner.children@;
                let mut i: usize = 0;
                assert(t.inner.children@ =~= c0 + kids@.take(0));
                while i < kids.len()
                    invariant
                        i <= kids@.len(),
                        t.inner.children@ == c0 + kids@.take(i as int),
                        t.pid == old(self).task(init).pid,
                        t.kernel_stack == old(self).task(init).kernel_stack,
                        t.inner.trap_cx_ppn == old(self).task(init).inner.trap_cx_ppn,
                        t.inner.base_size == old(self).task(init).inner.base_size,
                        t.inner.task_cx == old(self).task(init).inner.task_cx,
                        t.inner.task_status == old(self).task(init).inner.task_status,
                        t.inner.memory_set == old(self).task(init).inner.memory_set,
                        t.inner.parent == old(self).task(init).inner.parent,
                        t.inner.exit_code == old(self).task(init).inner.exit_code,
                        t.inner.fd_table == old(self).task(init).inner.fd_table,
                        t.inner.signals == old(self).task(init).inner.signals,
                        t.inner.signal_mask == old(self).task(init).inner.signal_mask,
                        t.inner.handling_sig == old(self).task(init).inner.handling_sig,
                        t.inner.signal_actions == old(self).task(init).inner.signal_actions,
                        t.inner.killed == old(self).task(init).inner.killed,
                        t.inner.frozen == old(self).task(init).inner.frozen,
                        t.inner.trap_ctx_backup == old(self).task(init).inner.trap_ctx_backup,
                    decreases kids@.len() - i,
                {
                    t.inner.children.push(kids[i]);
                    assert(t.inner.children@ =~= c0 + kids@.take(i + 1));
                    i += 1;
                }
                assert(kids@.take(kids@.len() as int) =~= kids@);
                self.tasks[init] = Some(t);
            },
            None => {},
        }
    }

    /// Ends the running task with exit code `exit_code` and puts the task
    /// at the front of the ready queue on the processor. The task becomes
    /// a zombie: it keeps its identifier, its kernel stack and its page
    /// table until its parent collects it, gives the frames of its areas
    /// back, and leaves its children to the initial task. Gives the
    /// identifier of the task that runs now, if there is one.
    pub fn exit_current_and_run_next(&mut self, exit_code: i32) -> (r: Option<usize>)
        requires
            old(self).wf(),
            old(self).exit_ready(),
        ensures
            final(self).wf(),
            exit_result(
                old(self),
                final(self),
                old(self).processor.current->Some_0,
                exit_code,
                r,
            ),
    {
        let p = match crate::task::processor::take_current_task(&mut self.processor) {
            Some(p) => p,
            None => 0,
        };
        proof {
            reveal(Kernel::sched_ok);
            reveal(Kernel::tasks_ok);
            assert(old(self).live(p));
            assert(old(self).task(p).inner.memory_set.wf());
        }
        let kids = self.finish(p, exit_code);
        let ghost fin = *self;
        let init = self.initproc;
        let mut i: usize = 0;
        proof {
            assert forall|q: usize| #[trigger] self.live(q) == old(self).live(q) by {
                if q != p && q < old(self).tasks@.len() {
                    assert(self.tasks@[q as int] == old(self).tasks@[q as int]);
                }
            }
        }
        while i < kids.len()
            invariant
                i <= kids@.len(),
                old(self).wf(),
                kids@ == old(self).children_of(p),
                old(self).live(p),
                init == old(self).initproc,
                self.initproc == fin.initproc,
                self.ticks == fin.ticks,
                self.manager == fin.manager,
                self.processor == fin.processor,
                self.res == fin.res,
                self.tasks@.len() == fin.tasks@.len(),
                forall|q: usize| #[trigger] self.live(q) == old(self).live(q),
                forall|q: usize| #[trigger] fin.live(q) == old(self).live(q),
                forall|q: usize|
                    fin.live(q) ==> {
                        let t0 = fin.task(q);
                        let t1 = #[trigger] self.task(q);
                        &&& same_core(&t0, &t1)
                        &&& t1.inner.task_status == t0.inner.task_status
                        &&& t1.inner.exit_code == t0.inner.exit_code
                        &&& t1.inner.children == t0.inner.children
                        &&& t1.inner.memory_set == t0.inner.memory_set
                        &&& t1.inner.parent == if kids@.take(i as int).contains(q) {
                            Some(init)
                        } else {
                            t0.inner.parent
                        }
                    },
            decreases kids@.len() - i,
        {
            let c = kids[i];
            let ghost before = *self;
            proof {
                reveal(Kernel::family_ok);
                assert(old(self).live(old(self).children_of(p)[i as int]));
                assert(self.live(c) == old(self).live(c));
            }
            self.set_parent(c, init);
            proof {
                assert forall|q: usize| #[trigger] self.live(q) == old(self).live(q) by {
                    assert(before.live(q) == old(self).live(q));
                    if q != c && q < before.tasks@.len() {
                        assert(self.tasks@[q as int] == before.tasks@[q as int]);
                    }
                }
                assert forall|q: usize| fin.live(q) implies {
                    let t0 = fin.task(q);
                    let t1 = #[trigger] self.task(q);
                    &&& same_core(&t0, &t1)
                    &&& t1.inner.task_status == t0.inner.task_status
                    &&& t1.inner.exit_code == t0.inner.exit_code
                    &&& t1.inner.children == t0.inner.children
                    &&& t1.inner.memory_set == t0.inner.memory_set
                    &&& t1.inner.parent == if kids@.take(i + 1).contains(q) {
                        Some(init)
                    } else {
                        t0.inner.parent
                    }
                } by {
                    assert(fin.live(q) == old(self).live(q));
                    assert(before.live(q) == old(self).live(q));
                    assert(same_core(&fin.task(q), &before.task(q)));
                    let s0 = kids@.take(i as int);
                    let s1 = kids@.take(i + 1);
                    assert(s1 =~= s0.push(c));
                    if q != c {
                        assert(self.tasks@[q as int] == before.tasks@[q as int]);
                        if s1.contains(q) {
                            let j = choose|j: int| 0 <= j < s1.len() && s1[j] == q;
                            assert(s0[j] == q);
                        }
                        if s0.contains(q) {
                            let j = choose|j: int| 0 <= j < s0.len() && s0[j] == q;
                            assert(s1[j] == q);
                        }
                    } else {
                        assert(s1[i as int] == c);
                    }
                }
            }
            i += 1;
        }
        let ghost moved = *self;
        proof {
            reveal(Kernel::family_ok);
            assert(self.live(init) == old(self).live(init));
        }
        self.adopt(init, &kids);
        let ghost mid = *self;
        proof {
            assert(kids@.take(kids@.len() as int) =~= kids@);
            assert forall|q: usize| #[trigger] mid.live(q) == old(self).live(q) by {
                assert(moved.live(q) == old(self).live(q));
                if q != init && q < moved.tasks@.len() {
                    assert(mid.tasks@[q as int] == moved.tasks@[q as int]);
                }
            }
            assert forall|q: usize| old(self).live(q) implies {
                let t0 = old(self).task(q);
                let t1 = #[trigger] mid.task(q);
                &&& same_core(&t0, &t1)
                &&& t1.inner.task_status == if q == p {
                    TaskStatus::Zombie
                } else {
                    t0.inner.task_status
                }
                &&& t1.inner.exit_code == if q == p {
                    exit_code
                } else {
                    t0.inner.exit_code
                }
                &&& t1.inner.parent == if t0.inner.parent == Some(p) {
                    Some(init)
                } else {
                    t0.inner.parent
                }
                &&& t1.inner.children@ == if q == p {
                    Seq::<usize>::empty()
                } else if q == init {
                    t0.inner.children@ + old(self).task(p).inner.children@
                } else {
                    t0.inner.children@
                }
                &&& q != p ==> t1.inner.memory_set == t0.inner.memory_set
            } by {
                assert(fin.live(q) == old(self).live(q));
                assert(moved.live(q) == old(self).live(q));
                assert(same_core(&fin.task(q), &moved.task(q)));
                if q != p {
                    assert(fin.tasks@[q as int] == old(self).tasks@[q as int]);
                }
                if q != init {
                    assert(mid.tasks@[q as int] == moved.tasks@[q as int]);
                }
                // a task is among the children of `p` exactly when `p` is its parent
                if kids@.contains(q) {
                    let j = choose|j: int| 0 <= j < kids@.len() && kids@[j] == q;
                    assert(old(self).parent_of(old(self).children_of(p)[j]) == Some(p));
                }
                if old(self).parent_of(q) == Some(p) {
                    assert(old(self).parent_of(q) is Some);
                    assert(old(self).children_of(p).contains(q));
                }
                assert(fin.task(q).inner.parent == old(self).task(q).inner.parent);
                if mid.task(q).inner.children@.len() == 0 && q == p {
                    assert(mid.task(q).inner.children@ =~= Seq::<usize>::empty());
                }
            }
            assert(mid.task(p).inner.memory_set == fin.task(p).inner.memory_set) by {
                assert(same_core(&fin.task(p), &moved.task(p)));
                assert(mid.tasks@[p as int] == moved.tasks@[p as int]);
            }
            assert(exited(old(self), &mid, p, exit_code));
            Self::lemma_exit_family(old(self), &mid, p, exit_code);
            Self::lemma_exit_sched(old(self), &mid, p, exit_code);
            Self::lemma_exit_tasks(old(self), &mid, p, exit_code);
            Self::lemma_exit_stacks(old(self), &mid, p, exit_code);
        }
        let r = self.run_tasks();
        proof {
            assert forall|q: usize| #[trigger] self.live(q) == old(self).live(q) by {
                assert(mid.live(q) == old(self).live(q));
                if r is Some && q != r->Some_0 && q < mid.tasks@.len() {
                    assert(self.tasks@[q as int] == mid.tasks@[q as int]);
                }
            }
            assert forall|q: usize| old(self).live(q) implies {
                let t0 = old(self).task(q);
                let t1 = #[trigger] self.task(q);
                &&& same_core(&t0, &t1)
                &&& t1.inner.task_status == if q == p {
                    TaskStatus::Zombie
                } else if r == Some(q) {
                    TaskStatus::Running
                } else {
                    t0.inner.task_status
                }
                &&& t1.inner.exit_code == if q == p {
                    exit_code
                } else {
                    t0.inner.exit_code
                }
                &&& t1.inner.parent == if t0.inner.parent == Some(p) {
                    Some(init)
                } else {
                    t0.inner.parent
                }
                &&& t1.inner.children@ == if q == p {
                    Seq::<usize>::empty()
                } else if q == init {
                    t0.inner.children@ + old(self).task(p).inner.children@
                } else {
                    t0.inner.children@
                }
                &&& q != p ==> t1.inner.memory_set == t0.inner.memory_set
            } by {
                assert(mid.live(q) == old(self).live(q));
                assert(same_core(&old(self).task(q), &mid.task(q)));
                if r == Some(q) {
                    reveal(Kernel::sched_ok);
                    assert(mid.manager.ready_queue@[0] == q);
                    assert(mid.status(q) == TaskStatus::Ready);
                    assert(crate::task::kernel::same_but_status(&mid.task(q), &self.task(q)));
                } else if r is Some {
                    assert(self.tasks@[q as int] == mid.tasks@[q as int]);
                }
            }
            if r is Some {
                let n = r->Some_0;
                if n != p {
                    assert(self.tasks@[p as int] == mid.tasks@[p as int]);
                } else {
                    reveal(Kernel::sched_ok);
                    assert(mid.status(p) == TaskStatus::Ready);
                }
            }
        }
        r
    }

    /// The end of the running task keeps the families in order.
    pub proof fn lemma_exit_family(before: &Kernel, after: &Kernel, p: usize, code: i32)
        requires
            before.family_ok(),
            before.live(p),
            p != before.initproc,
            exited(before, after, p, code),
        ensures
            after.family_ok(),
    {
        reveal(Kernel::family_ok);
        let init = before.initproc;
        let kids = before.children_of(p);
        assert(after.live(init) == before.live(init));
        assert(same_core(&before.task(init), &after.task(init)));
        assert(same_core(&before.task(p), &after.task(p)));
        assert forall|c: usize| after.live(c) implies ((#[trigger] after.parent_of(c)) is None <==> c
            == after.initproc) && after.parent_of(c) != Some(c) by {
            assert(after.live(c) == before.live(c));
            assert(same_core(&before.task(c), &after.task(c)));
            assert(before.parent_of(c) is None <==> c == init);
            assert(before.parent_of(c) != Some(c));
        }
        assert forall|q: usize, i: int|
            after.live(q) && 0 <= i < after.children_of(q).len() implies after.live(
            #[trigger] after.children_of(q)[i],
        ) && after.parent_of(after.children_of(q)[i]) == Some(q) by {
            assert(after.live(q) == before.live(q));
            assert(same_core(&before.task(q), &after.task(q)));
            let c = after.children_of(q)[i];
            if q == init && i >= before.children_of(init).len() {
                let j = i - before.children_of(init).len();
                assert(c == kids[j]);
                assert(before.live(kids[j]) && before.parent_of(kids[j]) == Some(p));
            } else {
                assert(c == before.children_of(q)[i]);
                assert(before.live(before.children_of(q)[i]) && before.parent_of(
                    before.children_of(q)[i],
                ) == Some(q));
            }
            assert(after.live(c) == before.live(c));
            assert(same_core(&before.task(c), &after.task(c)));
        }
        assert forall|c: usize|
            after.live(c) && (#[trigger] after.parent_of(c)) is Some implies after.live(
            after.parent_of(c)->Some_0,
        ) && after.children_of(after.parent_of(c)->Some_0).contains(c) by {
            assert(after.live(c) == before.live(c));
            assert(same_core(&before.task(c), &after.task(c)));
            assert(before.parent_of(c) is Some);
            let q0 = before.parent_of(c)->Some_0;
            assert(before.live(q0) && before.children_of(q0).contains(c));
            let j = choose|j: int| 0 <= j < before.children_of(q0).len() && before.children_of(q0)[j] == c;
            if q0 == p {
                assert(same_core(&before.task(init), &after.task(init)));
                assert(after.children_of(init)[before.children_of(init).len() + j] == c);
            } else {
                assert(after.live(q0) == before.live(q0));
                assert(same_core(&before.task(q0), &after.task(q0)));
                assert(after.children_of(q0)[j] == c);
            }
        }
        assert forall|q: usize| after.live(q) implies (#[trigger] after.children_of(q)).no_duplicates()
            && (after.status(q) == TaskStatus::Zombie ==> after.children_of(q).len() == 0) by {
            assert(after.live(q) == before.live(q));
            assert(same_core(&before.task(q), &after.task(q)));
            assert(before.children_of(q).no_duplicates());
            if q == init {
                let a0 = before.children_of(init);
                let all = after.children_of(init);
                assert(kids.no_duplicates());
                assert forall|i: int, j: int| 0 <= i < all.len() && 0 <= j < all.len() && i != j implies all[i]
                    != all[j] by {
                    if i < a0.len() && j < a0.len() {
                        assert(a0[i] != a0[j]);
                    } else if i >= a0.len() && j >= a0.len() {
                        assert(kids[i - a0.len()] != kids[j - a0.len()]);
                    } else if i < a0.len() {
                        assert(before.parent_of(a0[i]) == Some(init));
                        assert(before.parent_of(kids[j - a0.len()]) == Some(p));
                    } else {
                        assert(before.parent_of(a0[j]) == Some(init));
                        assert(before.parent_of(kids[i - a0.len()]) == Some(p));
                    }
                }
            }
        }
    }

    /// The end of the running task keeps the processor and the ready
    /// queue in order.
    pub proof fn lemma_exit_sched(before: &Kernel, after: &Kernel, p: usize, code: i32)
        requires
            before.sched_ok(),
            before.processor.current == Some(p),
            exited(before, after, p, code),
        ensures
            after.sched_ok(),
    {
        reveal(Kernel::sched_ok);
        let q0 = before.manager.ready_queue@;
        assert forall|i: int| 0 <= i < q0.len() implies after.live(#[trigger] q0[i]) && after.status(
            q0[i],
        ) == TaskStatus::Ready by {
            assert(before.live(q0[i]) && before.status(q0[i]) == TaskStatus::Ready);
            assert(after.live(q0[i]) == before.live(q0[i]));
            assert(same_core(&before.task(q0[i]), &after.task(q0[i])));
        }
        assert forall|x: usize|
            after.live(x) && #[trigger] after.status(x) == TaskStatus::Ready implies q0.contains(
            x,
        ) by {
            assert(after.live(x) == before.live(x));
            assert(same_core(&before.task(x), &after.task(x)));
            assert(before.status(x) == TaskStatus::Ready);
        }
        assert forall|x: usize|
            after.live(x) && #[trigger] after.status(x) == TaskStatus::Running implies after.processor.current
            == Some(x) by {
            assert(after.live(x) == before.live(x));
            assert(same_core(&before.task(x), &after.task(x)));
            if x != p {
                assert(before.status(x) == TaskStatus::Running);
            }
        }
    }

    /// The end of the running task keeps the tasks and the resources in
    /// order.
    pub proof fn lemma_exit_tasks(before: &Kernel, after: &Kernel, p: usize, code: i32)
        requires
            before.res.wf(),
            before.tasks_ok(),
            before.frames_apart(),
            before.live(p),
            exited(before, after, p, code),
            after.task(p).inner.memory_set.wf(),
            after.task(p).inner.memory_set.owned_by(&after.res.frame_allocator),
        ensures
            after.res.wf(),
            after.tasks_ok(),
            after.frames_apart(),
    {
        reveal(MemorySet::has_frame);
        reveal(Kernel::tasks_ok);
        reveal(Kernel::frames_apart);
        let al0 = &before.res.frame_allocator;
        let al1 = &after.res.frame_allocator;
        let sp = before.task(p).inner.memory_set;
        assert forall|f: u64| al0.is_allocated(f) && !al1.is_allocated(f) implies sp.has_frame(f) by {
            let a = choose|a: int| 0 <= a < sp.areas.len() && (#[trigger] sp.areas[a]).has_frame(f);
            assert(sp.areas[a].has_frame(f));
        }
        assert forall|q: usize| after.live(q) implies {
            let t = #[trigger] after.task(q);
            &&& t.pid.0 == q
            &&& t.kernel_stack.pid == q
            &&& q <= MAX_PID
            &&& after.res.pid_allocator.is_allocated(q)
            &&& t.inner.memory_set.wf()
            &&& t.inner.memory_set.owned_by(&after.res.frame_allocator)
            &&& (t.inner.task_status != TaskStatus::Zombie ==> t.inner.has_user_space())
            &&& (t.inner.task_status == TaskStatus::Zombie ==> t.inner.memory_set.areas.len() == 0)
        } by {
            assert(after.live(q) == before.live(q));
            assert(same_core(&before.task(q), &after.task(q)));
            let t0 = before.task(q);
            assert(t0.pid.0 == q);
            if q != p {
                let sq = t0.inner.memory_set;
                assert(after.task(q).inner.memory_set == sq);
                Self::lemma_owned_after_release(&sq, &sp, al0, al1);
                if t0.inner.task_status != TaskStatus::Zombie {
                    assert(t0.inner.has_user_space());
                }
            }
        }
        assert forall|q: usize| #[trigger] after.res.pid_allocator.is_allocated(q) implies after.live(
            q,
        ) by {
            assert(before.res.pid_allocator.is_allocated(q));
            assert(after.live(q) == before.live(q));
        }
        Self::lemma_owned_after_release(&before.res.kernel_space, &sp, al0, al1);
        assert forall|f: u64| after.task(p).inner.memory_set.has_frame(f) implies sp.has_frame(f) by {}
        assert forall|x: usize, y: usize, f: u64|
            after.live(x) && after.live(y) && x != y implies !(#[trigger] after.task(
            x,
        ).inner.memory_set.has_frame(f) && #[trigger] after.task(y).inner.memory_set.has_frame(f)) by {
            assert(after.live(x) == before.live(x));
            assert(after.live(y) == before.live(y));
            assert(same_core(&before.task(x), &after.task(x)));
            assert(same_core(&before.task(y), &after.task(y)));
            assert(!(before.task(x).inner.memory_set.has_frame(f) && before.task(
                y,
            ).inner.memory_set.has_frame(f)));
        }
        assert forall|x: usize, f: u64| after.live(x) implies !(#[trigger] after.task(
            x,
        ).inner.memory_set.has_frame(f) && after.res.kernel_space.has_frame(f)) by {
            assert(after.live(x) == before.live(x));
            assert(same_core(&before.task(x), &after.task(x)));
            assert(!(before.task(x).inner.memory_set.has_frame(f) && before.res.kernel_space.has_frame(
                f,
            )));
        }
    }

    /// A space keeps its frames handed out when frames of areas of
    /// another space, with which it shares none, are given back.
    pub proof fn lemma_owned_after_release(
        space: &MemorySet,
        other: &MemorySet,
        al0: &crate::mm::frame_allocator::StackFrameAllocator,
        al1: &crate::mm::frame_allocator::StackFrameAllocator,
    )
        requires
            space.owned_by(al0),
            forall|f: u64| !(space.has_frame(f) && other.has_frame(f)),
            forall|f: u64|
                al0.is_allocated(f) && !al1.is_allocated(f) ==> other.has_frame(f),
        ensures
            space.owned_by(al1),
    {
        reveal(MemorySet::has_frame);
        assert forall|k: int| 0 <= k < space.page_table.frames.len() implies al1.is_allocated(
            (#[trigger] space.page_table.frames[k]).ppn.0,
        ) by {
            let f = space.page_table.frames[k].ppn.0;
            assert(al0.is_allocated(f));
            assert(space.page_table.frames[k].ppn == PhysPageNum(f));
            assert(space.has_frame(f));
        }
        assert forall|a: int| 0 <= a < space.areas.len() implies (#[trigger] space.areas[a]).owned_by(
            al1,
        ) by {
            assert(space.areas[a].owned_by(al0));
            assert forall|i: int| 0 <= i < space.areas[a].data_frames.len() implies al1.is_allocated(
                (#[trigger] space.areas[a].data_frames[i]).ppn.0,
            ) by {
                let f = space.areas[a].data_frames[i].ppn.0;
                assert(al0.is_allocated(f));
                assert(space.areas[a].has_frame(f));
                assert(space.has_frame(f));
            }
        }
    }

    /// The end of the running task keeps the kernel stacks in order.
    pub proof fn lemma_exit_stacks(before: &Kernel, after: &Kernel, p: usize, code: i32)
        requires
            before.stacks_ok(),
            exited(before, after, p, code),
        ensures
            after.stacks_ok(),
    {
        reveal(Kernel::stacks_ok);
        assert forall|a: int| 0 <= a < after.res.kernel_space.areas.len() implies {
            let area = #[trigger] after.res.kernel_space.areas[a];
            if area.start_vpn.0 < KSTACK_FLOOR {
                area.end_vpn.0 <= KSTACK_FLOOR
            } else {
                after.live(stack_owner(area.start_vpn.0)) && KernelStack::is_stack_area(
                    stack_owner(area.start_vpn.0),
                    &area,
                )
            }
        } by {
            let area = before.res.kernel_space.areas[a];
            if area.start_vpn.0 >= KSTACK_FLOOR {
                let pp = stack_owner(area.start_vpn.0);
                assert(before.live(pp));
                assert(after.live(pp) == before.live(pp));
            }
        }
        assert forall|q: usize| after.live(q) implies exists|a: int|
            0 <= a < after.res.kernel_space.areas.len() && (
            #[trigger] after.res.kernel_space.areas[a]).start_vpn.0 == kstack_bottom_vpn(q) by {
            assert(after.live(q) == before.live(q));
            let a = choose|a: int|
                0 <= a < before.res.kernel_space.areas.len() && (
                #[trigger] before.res.kernel_space.areas[a]).start_vpn.0 == kstack_bottom_vpn(q);
            assert(after.res.kernel_space.areas[a].start_vpn.0 == kstack_bottom_vpn(q));
        }
    }
}

} // verus!
