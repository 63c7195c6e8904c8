//! Storing the saved registers of a task that lives.
use crate::mm::access::{lemma_same_shape, same_shape};
use crate::mm::address::VirtPageNum;
use crate::mm::frame_allocator::with_words;
use crate::mm::memory_set::TRAP_CONTEXT_VPN;
use crate::task::kernel::Kernel;
use crate::task::task::{TaskControlBlock, TaskStatus};
use crate::trap::context::TrapContext;
use vstd::prelude::*;

verus! {

/// Two tasks with the same standing in the kernel: the same identifier,
/// kernel stack, state, parent and children, and address spaces that
/// differ at most in what the frames of their areas hold.
pub open spec fn same_standing(a: &TaskControlBlock, b: &TaskControlBlock) -> bool {
    &&& a.pid == b.pid
    &&& a.kernel_stack == b.kernel_stack
    &&& a.inner.task_status == b.inner.task_status
    &&& a.inner.trap_cx_ppn == b.inner.trap_cx_ppn
    &&& a.inner.parent == b.inner.parent
    &&& a.inner.children == b.inner.children
    &&& same_shape(&a.inner.memory_set, &b.inner.memory_set)
}

/// Two tasks that differ at most in what the frames of their areas hold.
pub open spec fn same_but_memory(a: &TaskControlBlock, b: &TaskControlBlock) -> bool {
    &&& a.pid == b.pid
    &&& a.kernel_stack == b.kernel_stack
    &&& a.inner.task_cx == b.inner.task_cx
    &&& a.inner.task_status == b.inner.task_status
    &&& a.inner.trap_cx_ppn == b.inner.trap_cx_ppn
    &&& a.inner.base_size == b.inner.base_size
    &&& a.inner.parent == b.inner.parent
    &&& a.inner.children == b.inner.children
    &&& a.inner.exit_code == b.inner.exit_code
    &&& a.inner.fd_table == b.inner.fd_table
    &&& a.inner.signals == b.inner.signals
    &&& a.inner.signal_mask == b.inner.signal_mask
    &&& a.inner.handling_sig == b.inner.handling_sig
    &&& a.inner.signal_actions == b.inner.signal_actions
    &&& a.inner.killed == b.inner.killed
    &&& a.inner.frozen == b.inner.frozen
    &&& a.inner.trap_ctx_backup == b.inner.trap_ctx_backup
    &&& same_shape(&a.inner.memory_set, &b.inner.memory_set)
}

/// What storing the trap context `words` for the task `p` makes of the
/// kernel: the frame of the trap context of `p` holds `words` at its
/// start and, after them, what it held; every other page of `p`, every
/// other task and all else are as they were.
pub open spec fn context_stored(before: &Kernel, after: &Kernel, p: usize, words: Seq<u64>) -> bool {
    &&& after.res == before.res
    &&& after.manager == before.manager
    &&& after.processor == before.processor
    &&& after.initproc == before.initproc
    &&& after.ticks == before.ticks
    &&& after.tasks@.len() == before.tasks@.len()
    &&& forall|q: int|
        0 <= q < before.tasks@.len() && q != p ==> #[trigger] after.tasks@[q] == before.tasks@[q]
    &&& after.live(p)
    &&& same_but_memory(&before.task(p), &after.task(p))
    &&& after.task(p).inner.trap_cx_words() == words
    &&& after.task(p).inner.memory_set.page(VirtPageNum(TRAP_CONTEXT_VPN)) == with_words(
        before.task(p).inner.memory_set.page(VirtPageNum(TRAP_CONTEXT_VPN)),
        0,
        words,
    )
    &&& forall|v: VirtPageNum|
        before.task(p).inner.memory_set.backed(v) && v.0 != TRAP_CONTEXT_VPN ==> #[trigger] after.task(
            p,
        ).inner.memory_set.page(v) == before.task(p).inner.memory_set.page(v)
}

impl Kernel {
    /// A change of one task that keeps its standing keeps the kernel in
    /// order.
    pub proof fn lemma_standing_change(before: &Kernel, after: &Kernel, p: usize)
        requires
            before.wf(),
            before.live(p),
            after.res == before.res,
            after.manager == before.manager,
            after.processor == before.processor,
            after.initproc == before.initproc,
            after.tasks@.len() == before.tasks@.len(),
            forall|q: int|
                0 <= q < before.tasks@.len() && q != p ==> #[trigger] after.tasks@[q]
                    == before.tasks@[q],
            after.live(p),
            same_standing(&before.task(p), &after.task(p)),
            before.task(p).inner.has_user_space() ==> after.task(p).inner.has_user_space(),
        ensures
            after.wf(),
    {
        assert forall|q: usize| #[trigger] after.live(q) == before.live(q) by {
            if q != p && q < before.tasks@.len() {
                assert(after.tasks@[q as int] == before.tasks@[q as int]);
            }
        }
        assert forall|q: usize| before.live(q) && q != p implies #[trigger] after.task(q)
            == before.task(q) by {
            assert(after.tasks@[q as int] == before.tasks@[q as int]);
        }
        lemma_same_shape(
            &before.task(p).inner.memory_set,
            &after.task(p).inner.memory_set,
            &before.res.frame_allocator,
        );
        Self::lemma_standing_sched(before, after, p);
        Self::lemma_standing_family(before, after, p);
        Self::lemma_standing_tasks(before, after, p);
        Self::lemma_standing_apart(before, after, p);
        assert(after.stacks_ok()) by {
            reveal(Kernel::stacks_ok);
        }
    }

    /// A change of one task that keeps its standing keeps the ready queue
    /// and the processor in order.
    proof fn lemma_standing_sched(before: &Kernel, after: &Kernel, p: usize)
        requires
            before.sched_ok(),
            after.manager == before.manager,
            after.processor == before.processor,
            forall|q: usize| #[trigger] after.live(q) == before.live(q),
            forall|q: usize| before.live(q) && q != p ==> #[trigger] after.task(q) == before.task(q),
            before.live(p),
            same_standing(&before.task(p), &after.task(p)),
        ensures
            after.sched_ok(),
    {
        reveal(Kernel::sched_ok);
        assert forall|q: usize| before.live(q) implies #[trigger] after.status(q) == before.status(
            q,
        ) by {
            if q != p {
                assert(after.task(q) == before.task(q));
            }
        }
        assert forall|i: int| 0 <= i < after.manager.ready_queue@.len() implies after.live(
            #[trigger] after.manager.ready_queue@[i],
        ) && after.status(after.manager.ready_queue@[i]) == TaskStatus::Ready by {
            let q = before.manager.ready_queue@[i];
            assert(before.live(q));
            assert(after.live(q) == before.live(q));
            assert(after.status(q) == before.status(q));
        }
        assert forall|q: usize|
            after.live(q) && #[trigger] after.status(q) == TaskStatus::Ready implies after.manager.ready_queue@.contains(
            q,
        ) by {
            assert(after.live(q) == before.live(q));
            assert(before.status(q) == TaskStatus::Ready);
        }
        assert forall|q: usize|
            after.live(q) && #[trigger] after.status(q)
                == TaskStatus::Running implies after.processor.current == Some(q) by {
            assert(after.live(q) == before.live(q));
            assert(before.status(q) == TaskStatus::Running);
        }
    }

    /// A change of one task that keeps its standing keeps the families.
    proof fn lemma_standing_family(before: &Kernel, after: &Kernel, p: usize)
        requires
            before.family_ok(),
            after.initproc == before.initproc,
            forall|q: usize| #[trigger] after.live(q) == before.live(q),
            forall|q: usize| before.live(q) && q != p ==> #[trigger] after.task(q) == before.task(q),
            before.live(p),
            same_standing(&before.task(p), &after.task(p)),
        ensures
            after.family_ok(),
    {
        reveal(Kernel::family_ok);
        assert forall|q: usize| before.live(q) implies #[trigger] after.parent_of(q)
            == before.parent_of(q) by {
            if q != p {
                assert(after.task(q) == before.task(q));
            }
        }
        assert forall|q: usize| before.live(q) implies #[trigger] after.children_of(q)
            == before.children_of(q) by {
            if q != p {
                assert(after.task(q) == before.task(q));
            }
        }
        assert forall|q: usize| before.live(q) implies #[trigger] after.status(q) == before.status(
            q,
        ) by {
            if q != p {
                assert(after.task(q) == before.task(q));
            }
        }
        assert(after.live(before.initproc) == before.live(before.initproc));
        assert(after.status(before.initproc) == before.status(before.initproc));
        assert forall|c: usize| after.live(c) implies ((#[trigger] after.parent_of(c)) is None <==> c
            == after.initproc) && after.parent_of(c) != Some(c) by {
            assert(after.live(c) == before.live(c));
            assert(before.parent_of(c) is None <==> c == before.initproc);
        }
        assert forall|q: usize, i: int|
            after.live(q) && 0 <= i < after.children_of(q).len() implies after.live(
            #[trigger] after.children_of(q)[i],
        ) && after.parent_of(after.children_of(q)[i]) == Some(q) by {
            assert(after.live(q) == before.live(q));
            assert(after.children_of(q) == before.children_of(q));
            let c = before.children_of(q)[i];
            assert(before.live(c) && before.parent_of(c) == Some(q));
            assert(after.live(c) == before.live(c));
            assert(after.parent_of(c) == before.parent_of(c));
        }
        assert forall|c: usize|
            after.live(c) && (#[trigger] after.parent_of(c)) is Some implies after.live(
            after.parent_of(c)->Some_0,
        ) && after.children_of(after.parent_of(c)->Some_0).contains(c) by {
            assert(after.live(c) == before.live(c));
            assert(after.parent_of(c) == before.parent_of(c));
            let q = before.parent_of(c)->Some_0;
            assert(before.live(q) && before.children_of(q).contains(c));
            assert(after.live(q) == before.live(q));
            assert(after.children_of(q) == before.children_of(q));
        }
        assert forall|q: usize| after.live(q) implies (#[trigger] after.children_of(q)).no_duplicates()
            && (after.status(q) == TaskStatus::Zombie ==> after.children_of(q).len() == 0) by {
            assert(after.live(q) == before.live(q));
            assert(after.children_of(q) == before.children_of(q));
            assert(after.status(q) == before.status(q));
            assert(before.children_of(q).no_duplicates());
        }
    }

    /// A change of one task that keeps its standing keeps the tasks in
    /// order.
    proof fn lemma_standing_tasks(before: &Kernel, after: &Kernel, p: usize)
        requires
            before.tasks_ok(),
            after.res == before.res,
            forall|q: usize| #[trigger] after.live(q) == before.live(q),
            forall|q: usize| before.live(q) && q != p ==> #[trigger] after.task(q) == before.task(q),
            before.live(p),
            same_standing(&before.task(p), &after.task(p)),
            before.task(p).inner.has_user_space() ==> after.task(p).inner.has_user_space(),
        ensures
            after.tasks_ok(),
    {
        reveal(Kernel::tasks_ok);
        lemma_same_shape(
            &before.task(p).inner.memory_set,
            &after.task(p).inner.memory_set,
            &before.res.frame_allocator,
        );
        assert(same_shape(&before.task(p).inner.memory_set, &after.task(p).inner.memory_set));
        assert(after.task(p).inner.memory_set.areas.len() == before.task(
            p,
        ).inner.memory_set.areas.len()) by {
            reveal(same_shape);
        }
        assert forall|q: usize| after.live(q) implies {
            let t = #[trigger] after.task(q);
            &&& t.pid.0 == q
            &&& t.kernel_stack.pid == q
            &&& q <= crate::task::pid::MAX_PID
            &&& after.res.pid_allocator.is_allocated(q)
            &&& t.inner.memory_set.wf()
            &&& t.inner.memory_set.owned_by(&after.res.frame_allocator)
            &&& (t.inner.task_status != TaskStatus::Zombie ==> t.inner.has_user_space())
            &&& (t.inner.task_status == TaskStatus::Zombie ==> t.inner.memory_set.areas.len() == 0)
        } by {
            assert(after.live(q) == before.live(q));
            let t0 = before.task(q);
            assert(t0.pid.0 == q);
            if q != p {
                assert(after.task(q) == before.task(q));
            }
        }
        assert forall|q: usize| #[trigger] after.res.pid_allocator.is_allocated(q) implies after.live(
            q,
        ) by {
            assert(before.live(q));
            assert(after.live(q) == before.live(q));
        }
    }

    /// A change of one task that keeps its standing keeps the frames of
    /// the spaces apart.
    proof fn lemma_standing_apart(before: &Kernel, after: &Kernel, p: usize)
        requires
            before.frames_apart(),
            after.res == before.res,
            forall|q: usize| #[trigger] after.live(q) == before.live(q),
            forall|q: usize| before.live(q) && q != p ==> #[trigger] after.task(q) == before.task(q),
            before.live(p),
            same_standing(&before.task(p), &after.task(p)),
        ensures
            after.frames_apart(),
    {
        reveal(Kernel::frames_apart);
        lemma_same_shape(
            &before.task(p).inner.memory_set,
            &after.task(p).inner.memory_set,
            &before.res.frame_allocator,
        );
        assert forall|q: usize, f: u64| before.live(q) implies #[trigger] after.task(
            q,
        ).inner.memory_set.has_frame(f) == before.task(q).inner.memory_set.has_frame(f) by {
            if q != p {
                assert(after.task(q) == before.task(q));
            }
        }
        assert forall|q: usize, r: usize, f: u64|
            after.live(q) && after.live(r) && q != r implies !(#[trigger] after.task(
            q,
        ).inner.memory_set.has_frame(f) && #[trigger] after.task(r).inner.memory_set.has_frame(f)) by {
            assert(after.live(q) == before.live(q));
            assert(after.live(r) == before.live(r));
            assert(!(before.task(q).inner.memory_set.has_frame(f) && before.task(
                r,
            ).inner.memory_set.has_frame(f)));
        }
        assert forall|q: usize, f: u64| after.live(q) implies !(#[trigger] after.task(
            q,
        ).inner.memory_set.has_frame(f) && after.res.kernel_space.has_frame(f)) by {
            assert(after.live(q) == before.live(q));
            assert(!(before.task(q).inner.memory_set.has_frame(f)
                && before.res.kernel_space.has_frame(f)));
        }
    }

    /// Stores `cx` as the trap context of the task `p`, which has not
    /// ended.
    pub fn set_trap_cx(&mut self, p: usize, cx: &TrapContext)
        requires
            old(self).wf(),
            old(self).live(p),
            old(self).status(p) != TaskStatus::Zombie,
        ensures
            final(self).wf(),
            context_stored(old(self), final(self), p, cx.words()),
    {
        proof {
            reveal(Kernel::tasks_ok);
            assert(old(self).task(p).inner.has_user_space());
        }
        let slot = self.tasks[p].take();
        match slot {
            Some(mut t) => {
                t.inner.set_trap_cx(cx);
                self.tasks[p] = Some(t);
            },
            None => {},
        }
        proof {
            Self::lemma_standing_change(old(self), self, p);
        }
    }

    /// Stores `cx` as the trap context of the running task.
    pub fn set_current_trap_cx(&mut self, cx: &TrapContext)
        requires
            old(self).wf(),
            old(self).processor.current is Some,
        ensures
            final(self).wf(),
            context_stored(old(self), final(self), old(self).processor.current->Some_0, cx.words()),
    {
        proof {
            crate::task::kernel::Kernel::lemma_current(old(self));
        }
        match self.processor.current {
            Some(p) => self.set_trap_cx(p, cx),
            None => {},
        }
    }
}

} // verus!
