//! Replacing the program of the running task.
use crate::mm::address::VirtPageNum;
use crate::mm::elf::{le64, spec_headers};
use crate::mm::frame_allocator::{with_words, zeros};
use crate::mm::loader::{max_end, program_layout, user_stack_top};
use crate::mm::memory_set::TRAP_CONTEXT_VPN;
use crate::task::args::{arg_seqs, args_low, args_on_stack, args_sp, clear_below, stack_image};
use crate::task::kernel::{Kernel, KSTACK_FLOOR, stack_owner};
use crate::task::pid::{kstack_bottom_vpn, kstack_top, KernelStack, MAX_PID};
use crate::task::task::{space_replaced, TaskControlBlock, TaskStatus};
use crate::trap::context::TrapContext;
use vstd::prelude::*;

verus! {

/// Two tasks that differ at most in their address space and in the frame
/// of their trap context.
pub open spec fn same_but_space(a: &TaskControlBlock, b: &TaskControlBlock) -> bool {
    &&& a.pid == b.pid
    &&& a.kernel_stack == b.kernel_stack
    &&& a.inner.base_size == b.inner.base_size
    &&& a.inner.task_cx == b.inner.task_cx
    &&& a.inner.task_status == b.inner.task_status
    &&& a.inner.parent == b.inner.parent
    &&& a.inner.children == b.inner.children
    &&& a.inner.exit_code == b.inner.exit_code
    &&& a.inner.fd_table == b.inner.fd_table
    &&& a.inner.signals == b.inner.signals
    &&& a.inner.signal_mask == b.inner.signal_mask
    &&& a.inner.handling_sig == b.inner.handling_sig
    &&& a.inner.signal_actions == b.inner.signal_actions
    &&& a.inner.killed == b.inner.killed
    &&& a.inner.frozen == b.inner.frozen
    &&& a.inner.trap_ctx_backup == b.inner.trap_ctx_backup
}

/// What the replacing of the program of the task `p` makes of the
/// kernel: the task has a fresh address space in place of the one it had,
/// whose frames are free; nothing else changed.
pub open spec fn execed(before: &Kernel, after: &Kernel, p: usize) -> bool {
    &&& after.initproc == before.initproc
    &&& after.ticks == before.ticks
    &&& after.manager == before.manager
    &&& after.processor == before.processor
    &&& after.tasks@.len() == before.tasks@.len()
    &&& before.live(p)
    &&& after.live(p)
    &&& forall|q: int|
        0 <= q < before.tasks@.len() && q != p ==> #[trigger] after.tasks@[q] == before.tasks@[q]
    &&& same_but_space(&before.task(p), &after.task(p))
    &&& after.res.kernel_space == before.res.kernel_space
    &&& after.res.pid_allocator == before.res.pid_allocator
    &&& after.res.same_addresses(&before.res)
    &&& after.res.wf()
    &&& after.task(p).inner.has_user_space()
    &&& after.task(p).inner.memory_set.owned_by(&after.res.frame_allocator)
    &&& space_replaced(
        &before.res.frame_allocator,
        &after.res.frame_allocator,
        &before.task(p).inner.memory_set,
        &after.task(p).inner.memory_set,
    )
}

impl Kernel {
    /// The replacing of the program of a task keeps the kernel in
    /// order.
    pub proof fn lemma_execed(before: &Kernel, after: &Kernel, p: usize)
        requires
            before.wf(),
            before.status(p) != TaskStatus::Zombie,
            execed(before, after, p),
        ensures
            after.wf(),
    {
        assert forall|q: usize| #[trigger] after.live(q) == before.live(q) by {
            if q != p && q < before.tasks@.len() {
                assert(after.tasks@[q as int] == before.tasks@[q as int]);
            }
        }
        assert forall|q: usize| before.live(q) implies same_but_space(
            &before.task(q),
            &#[trigger] after.task(q),
        ) && (q != p ==> after.task(q) == before.task(q)) by {
            if q != p {
                assert(after.tasks@[q as int] == before.tasks@[q as int]);
            }
        }
        Self::lemma_exec_family(before, after);
        Self::lemma_exec_sched(before, after);
        Self::lemma_exec_tasks(before, after, p);
        Self::lemma_exec_stacks(before, after);
    }

    /// Tasks that keep their parents and children keep the families in
    /// order.
    proof fn lemma_exec_family(before: &Kernel, after: &Kernel)
        requires
            before.family_ok(),
            after.initproc == before.initproc,
            forall|q: usize| #[trigger] after.live(q) == before.live(q),
            forall|q: usize|
                before.live(q) ==> same_but_space(&before.task(q), &#[trigger] after.task(q)),
        ensures
            after.family_ok(),
    {
        reveal(Kernel::family_ok);
        assert forall|q: usize| before.live(q) implies #[trigger] after.parent_of(q)
            == before.parent_of(q) by {
            assert(same_but_space(&before.task(q), &after.task(q)));
        }
        assert forall|q: usize| before.live(q) implies #[trigger] after.children_of(q)
            == before.children_of(q) by {
            assert(same_but_space(&before.task(q), &after.task(q)));
        }
        assert(after.live(before.initproc) == before.live(before.initproc));
        assert(same_but_space(&before.task(before.initproc), &after.task(before.initproc)));
        assert forall|c: usize| after.live(c) implies ((#[trigger] after.parent_of(c)) is None <==> c
            == after.initproc) && after.parent_of(c) != Some(c) by {
            assert(after.live(c) == before.live(c));
            assert(before.parent_of(c) is None <==> c == before.initproc);
        }
        assert forall|q: usize, i: int|
            after.live(q) && 0 <= i < after.children_of(q).len() implies after.live(
            #[trigger] after.children_of(q)[i],
        ) && after.parent_of(after.children_of(q)[i]) == Some(q) by {
            assert(after.live(q) == before.live(q));
            assert(after.children_of(q) == before.children_of(q));
            let c = before.children_of(q)[i];
            assert(before.live(c) && before.parent_of(c) == Some(q));
            assert(after.live(c) == before.live(c));
            assert(after.parent_of(c) == before.parent_of(c));
        }
        assert forall|c: usize|
            after.live(c) && (#[trigger] after.parent_of(c)) is Some implies after.live(
            after.parent_of(c)->Some_0,
        ) && after.children_of(after.parent_of(c)->Some_0).contains(c) by {
            assert(after.live(c) == before.live(c));
            assert(after.parent_of(c) == before.parent_of(c));
            let q = before.parent_of(c)->Some_0;
            assert(before.live(q) && before.children_of(q).contains(c));
            assert(after.live(q) == before.live(q));
            assert(after.children_of(q) == before.children_of(q));
        }
        assert forall|q: usize| after.live(q) implies (#[trigger] after.children_of(q)).no_duplicates()
            && (after.status(q) == TaskStatus::Zombie ==> after.children_of(q).len() == 0) by {
            assert(after.live(q) == before.live(q));
            assert(after.children_of(q) == before.children_of(q));
            assert(same_but_space(&before.task(q), &after.task(q)));
            assert(before.children_of(q).no_duplicates());
        }
    }

    /// Tasks that keep their states keep the processor and the ready
    /// queue in order.
    proof fn lemma_exec_sched(before: &Kernel, after: &Kernel)
        requires
            before.sched_ok(),
            after.manager == before.manager,
            after.processor == before.processor,
            forall|q: usize| #[trigger] after.live(q) == before.live(q),
            forall|q: usize|
                before.live(q) ==> same_but_space(&before.task(q), &#[trigger] after.task(q)),
        ensures
            after.sched_ok(),
    {
        reveal(Kernel::sched_ok);
        let q0 = before.manager.ready_queue@;
        if after.processor.current is Some {
            let x = after.processor.current->Some_0;
            assert(after.live(x) == before.live(x));
            assert(same_but_space(&before.task(x), &after.task(x)));
        }
        assert forall|i: int| 0 <= i < q0.len() implies after.live(#[trigger] q0[i]) && after.status(
            q0[i],
        ) == TaskStatus::Ready by {
            assert(before.live(q0[i]) && before.status(q0[i]) == TaskStatus::Ready);
            assert(after.live(q0[i]) == before.live(q0[i]));
            assert(same_but_space(&before.task(q0[i]), &after.task(q0[i])));
        }
        assert forall|x: usize|
            after.live(x) && #[trigger] after.status(x) == TaskStatus::Ready implies q0.contains(
            x,
        ) by {
            assert(after.live(x) == before.live(x));
            assert(same_but_space(&before.task(x), &after.task(x)));
            assert(before.status(x) == TaskStatus::Ready);
        }
        assert forall|x: usize|
            after.live(x) && #[trigger] after.status(x) == TaskStatus::Running implies after.processor.current
            == Some(x) by {
            assert(after.live(x) == before.live(x));
            assert(same_but_space(&before.task(x), &after.task(x)));
            assert(before.status(x) == TaskStatus::Running);
        }
    }

    /// The replacing of the space of a task keeps the tasks in order and
    /// the frames of the spaces apart.
    proof fn lemma_exec_tasks(before: &Kernel, after: &Kernel, p: usize)
        requires
            before.res.kernel_space.owned_by(&before.res.frame_allocator),
            before.tasks_ok(),
            before.frames_apart(),
            before.status(p) != TaskStatus::Zombie,
            execed(before, after, p),
            forall|q: usize| #[trigger] after.live(q) == before.live(q),
            forall|q: usize|
                before.live(q) ==> same_but_space(&before.task(q), &#[trigger] after.task(q)) && (q
                    != p ==> after.task(q) == before.task(q)),
        ensures
            after.tasks_ok(),
            after.frames_apart(),
    {
        reveal(Kernel::tasks_ok);
        reveal(Kernel::frames_apart);
        reveal(space_replaced);
        let al0 = &before.res.frame_allocator;
        let al1 = &after.res.frame_allocator;
        let old_space = before.task(p).inner.memory_set;
        let new_space = after.task(p).inner.memory_set;
        let ks = before.res.kernel_space;
        assert forall|q: usize| after.live(q) implies {
            let t = #[trigger] after.task(q);
            &&& t.pid.0 == q
            &&& t.kernel_stack.pid == q
            &&& q <= MAX_PID
            &&& after.res.pid_allocator.is_allocated(q)
            &&& t.inner.memory_set.wf()
            &&& t.inner.memory_set.owned_by(&after.res.frame_allocator)
            &&& (t.inner.task_status != TaskStatus::Zombie ==> t.inner.has_user_space())
            &&& (t.inner.task_status == TaskStatus::Zombie ==> t.inner.memory_set.areas.len() == 0)
        } by {
            assert(after.live(q) == before.live(q));
            assert(same_but_space(&before.task(q), &after.task(q)));
            let t0 = before.task(q);
            assert(t0.pid.0 == q);
            if q != p {
                let sq = t0.inner.memory_set;
                assert forall|f: u64| sq.has_frame(f) implies al1.is_allocated(f) by {
                    sq.lemma_has_frame_allocated(al0, f);
                    assert(!(sq.has_frame(f) && old_space.has_frame(f)));
                }
                Self::lemma_owned_from_frames(&sq, al1);
                if t0.inner.task_status != TaskStatus::Zombie {
                    assert(t0.inner.has_user_space());
                }
            }
        }
        assert forall|q: usize| #[trigger] after.res.pid_allocator.is_allocated(q) implies after.live(
            q,
        ) by {
            assert(after.live(q) == before.live(q));
        }
        assert forall|x: usize, y: usize, f: u64|
            after.live(x) && after.live(y) && x != y implies !(#[trigger] after.task(
            x,
        ).inner.memory_set.has_frame(f) && #[trigger] after.task(y).inner.memory_set.has_frame(f)) by {
            assert(after.live(x) == before.live(x));
            assert(after.live(y) == before.live(y));
            if x != p && y != p {
                assert(!(before.task(x).inner.memory_set.has_frame(f) && before.task(
                    y,
                ).inner.memory_set.has_frame(f)));
            } else {
                let o = if x == p {
                    y
                } else {
                    x
                };
                let so = before.task(o).inner.memory_set;
                if so.has_frame(f) {
                    assert(before.task(o).pid.0 == o);
                    so.lemma_has_frame_allocated(al0, f);
                }
            }
        }
        assert forall|x: usize, f: u64| after.live(x) implies !(#[trigger] after.task(
            x,
        ).inner.memory_set.has_frame(f) && after.res.kernel_space.has_frame(f)) by {
            assert(after.live(x) == before.live(x));
            if x != p {
                assert(!(before.task(x).inner.memory_set.has_frame(f) && ks.has_frame(f)));
            } else if ks.has_frame(f) {
                ks.lemma_has_frame_allocated(al0, f);
            }
        }
    }

    /// Where the same tasks live and the kernel's space is the same, the
    /// kernel stacks stay in order.
    proof fn lemma_exec_stacks(before: &Kernel, after: &Kernel)
        requires
            before.stacks_ok(),
            after.res.kernel_space == before.res.kernel_space,
            forall|q: usize| #[trigger] after.live(q) == before.live(q),
        ensures
            after.stacks_ok(),
    {
        reveal(Kernel::stacks_ok);
        assert forall|a: int| 0 <= a < after.res.kernel_space.areas.len() implies {
            let area = #[trigger] after.res.kernel_space.areas[a];
            if area.start_vpn.0 < KSTACK_FLOOR {
                area.end_vpn.0 <= KSTACK_FLOOR
            } else {
                after.live(stack_owner(area.start_vpn.0)) && KernelStack::is_stack_area(
                    stack_owner(area.start_vpn.0),
                    &area,
                )
            }
        } by {
            let area = before.res.kernel_space.areas[a];
            if area.start_vpn.0 >= KSTACK_FLOOR {
                let pp = stack_owner(area.start_vpn.0);
                assert(before.live(pp));
                assert(after.live(pp) == before.live(pp));
            }
        }
        assert forall|q: usize| after.live(q) implies exists|a: int|
            0 <= a < after.res.kernel_space.areas.len() && (
            #[trigger] after.res.kernel_space.areas[a]).start_vpn.0 == kstack_bottom_vpn(q) by {
            assert(after.live(q) == before.live(q));
            let a = choose|a: int|
                0 <= a < before.res.kernel_space.areas.len() && (
                #[trigger] before.res.kernel_space.areas[a]).start_vpn.0 == kstack_bottom_vpn(q);
            assert(after.res.kernel_space.areas[a].start_vpn.0 == kstack_bottom_vpn(q));
        }
    }

    /// What holds of a living task that has not ended: its place, its
    /// space, and that its space shares no frame with the kernel's.
    pub proof fn lemma_task(kernel: &Kernel, p: usize)
        requires
            kernel.wf(),
            kernel.live(p),
        ensures
            kernel.task(p).pid.0 == p,
            kernel.task(p).kernel_stack.pid == p,
            p <= MAX_PID,
            kernel.task(p).inner.memory_set.wf(),
            kernel.task(p).inner.memory_set.owned_by(&kernel.res.frame_allocator),
            kernel.status(p) != TaskStatus::Zombie ==> kernel.task(p).inner.has_user_space(),
            forall|f: u64|
                !(kernel.task(p).inner.memory_set.has_frame(f) && kernel.res.kernel_space.has_frame(
                    f,
                )),
    {
        reveal(Kernel::tasks_ok);
        reveal(Kernel::frames_apart);
        assert(kernel.task(p).pid.0 == p);
        assert forall|f: u64|
            !(kernel.task(p).inner.memory_set.has_frame(f) && kernel.res.kernel_space.has_frame(
                f,
            )) by {}
    }

    /// Replaces the program of the running task by the program in the
    /// ELF file `elf_data`, started with the arguments `args`. Gives the
    /// number of arguments.
    pub fn exec_current(&mut self, elf_data: &[u8], args: Vec<String>) -> (r: isize)
        requires
            old(self).wf(),
            old(self).exec_ready(elf_data@, args@),
        ensures
            final(self).wf(),
            r == args@.len(),
            execed(old(self), final(self), old(self).processor.current->Some_0),
            program_layout(
                &final(self).task(old(self).processor.current->Some_0).inner.memory_set,
                elf_data@,
                old(self).res.strampoline,
            ),
            args_on_stack(
                stack_image(
                    &final(self).task(old(self).processor.current->Some_0).inner.memory_set,
                    user_stack_top(max_end(spec_headers(elf_data@))),
                ),
                (user_stack_top(max_end(spec_headers(elf_data@))) - 8192) as u64,
                arg_seqs(args@),
            ),
            clear_below(
                stack_image(
                    &final(self).task(old(self).processor.current->Some_0).inner.memory_set,
                    user_stack_top(max_end(spec_headers(elf_data@))),
                ),
                args_low(arg_seqs(args@)),
            ),
            final(self).task(old(self).processor.current->Some_0).inner.memory_set.page(
                VirtPageNum(TRAP_CONTEXT_VPN),
            ) == with_words(
                zeros(4096),
                0,
                final(self).task(old(self).processor.current->Some_0).inner.trap_cx_words(),
            ),
            final(self).task(old(self).processor.current->Some_0).inner.trap_cx_words()
                == TrapContext::spec_app_init(
                le64(elf_data@, 24),
                args_sp(user_stack_top(max_end(spec_headers(elf_data@))), arg_seqs(args@)),
                (8u64 << 60) | old(self).res.kernel_space.page_table.root_ppn.0,
                kstack_top(old(self).processor.current->Some_0),
                old(self).res.trap_handler,
                old(self).res.sstatus,
            ).update(10, args@.len() as u64).update(
                11,
                (user_stack_top(max_end(spec_headers(elf_data@))) - 8 * (args@.len() + 1)) as u64,
            ),
    {
        let p = match self.processor.current {
            Some(p) => p,
            None => 0,
        };
        proof {
            Self::lemma_current(old(self));
            Self::lemma_task(old(self), p);
            crate::task::args::lemma_args_size_nonneg(arg_seqs(args@), args@.len() as int);
        }
        let argc = args.len();
        let slot = self.tasks[p].take();
        match slot {
            Some(mut t) => {
                t.exec(elf_data, args, &mut self.res);
                self.tasks[p] = Some(t);
            },
            None => {},
        }
        proof {
            Self::lemma_execed(old(self), self, p);
        }
        argc as isize
    }
}

} // verus!
