//! The task control block.
use crate::mm::access::{lemma_same_shape, same_shape, vpn_of};
use crate::mm::address::{lemma_masks, PhysPageNum, VirtAddr, VirtPageNum};
use crate::mm::elf::{le64, spec_headers};
use crate::mm::frame_allocator::{
    lemma_with_words, with_words, words_at, zeros, StackFrameAllocator,
};
use crate::mm::loader::{
    elf_frames_needed, elf_loadable, lemma_program_space_kept, lemma_trap_context_backed, max_end,
    program_space, trap_context_area, user_stack_top,
};
use crate::mm::memory_set::{
    lemma_grew_allocator, lemma_owned_mono, space_fresh, space_grew, MemorySet, TRAMPOLINE_VPN,
    TRAP_CONTEXT_VPN,
};
use crate::task::action::SignalActions;
use crate::task::context::TaskContext;
use crate::task::pid::{
    kstack_bottom_vpn, kstack_top, kstack_top_vpn, pid_alloc, KernelStack, PidAllocator, PidHandle,
    MAX_PID,
};
use crate::task::signal::SignalFlags;
use crate::trap::context::TrapContext;
use vstd::prelude::*;

verus! {

/// The state of a task.
#[derive(Copy, Clone, Debug, PartialEq, Eq, Structural)]
pub enum TaskStatus {
    /// Waiting for the processor.
    Ready,
    /// On the processor.
    Running,
    /// Ended, not yet collected by its parent.
    Zombie,
}

/// An open file of a task.
#[derive(Copy, Clone, Debug, PartialEq, Eq, Structural)]
pub enum FileRef {
    /// The console, for reading.
    Stdin,
    /// The console, for writing.
    Stdout,
    /// The open file of this number.
    Open(usize),
}

/// What creating and destroying tasks works on beside the tasks: the
/// frame allocator, the kernel's address space, the allocator of
/// identifiers, and the addresses that contexts are made with.
pub struct Resources {
    /// The allocator of physical frames.
    pub frame_allocator: StackFrameAllocator,
    /// The kernel's address space, which holds the kernel stacks.
    pub kernel_space: MemorySet,
    /// The allocator of task identifiers.
    pub pid_allocator: PidAllocator,
    /// Physical address of the trampoline page.
    pub strampoline: u64,
    /// Address of the kernel's trap handler.
    pub trap_handler: u64,
    /// Address of the kernel's code that returns to user mode.
    pub trap_return: u64,
    /// Value of the status register that new trap contexts start from.
    pub sstatus: u64,
}

impl Resources {
    /// The trampoline starts at the start of a page; the allocators are
    /// well formed, and the kernel's space is well formed, maps nothing but
    /// its areas and the trampoline, and holds frames that are handed out.
    pub open spec fn wf(&self) -> bool {
        &&& self.strampoline % 4096 == 0
        &&& self.frame_allocator.wf()
        &&& self.pid_allocator.wf()
        &&& self.kernel_space.wf()
        &&& self.kernel_space.owned_by(&self.frame_allocator)
        &&& self.kernel_space.only_areas_mapped()
    }

    /// Whether the kernel stack of task `pid` can be mapped: the
    /// identifier is in range and the pages of the stack are not mapped.
    pub open spec fn can_host(&self, pid: usize) -> bool {
        &&& pid <= MAX_PID
        &&& forall|vpn: VirtPageNum|
            kstack_bottom_vpn(pid) <= vpn.0 < kstack_top_vpn(pid)
                ==> !self.kernel_space.page_table.is_mapped(vpn)
    }

    /// The addresses that contexts are made with are those of `other`.
    pub open spec fn same_addresses(&self, other: &Resources) -> bool {
        &&& self.strampoline == other.strampoline
        &&& self.trap_handler == other.trap_handler
        &&& self.trap_return == other.trap_return
        &&& self.sstatus == other.sstatus
    }
}

/// What the making of a task with the space `space` did to the
/// resources: an identifier was handed out and its kernel stack mapped as
/// the newest area of the kernel's space; frames were only handed out,
/// each to `space` or to the kernel's space; `space` holds no frame that
/// was handed out before, and shares none with the kernel's space.
#[verifier::opaque]
pub open spec fn task_made(before: &Resources, after: &Resources, space: &MemorySet, pid: usize) -> bool {
    &&& after.same_addresses(before)
    &&& pid == before.pid_allocator.next_pid()
    &&& !before.pid_allocator.is_allocated(pid)
    &&& forall|p: usize|
        after.pid_allocator.is_allocated(p) == (before.pid_allocator.is_allocated(p) || p == pid)
    &&& after.kernel_space.page_table.root_ppn == before.kernel_space.page_table.root_ppn
    &&& after.kernel_space.areas.len() == before.kernel_space.areas.len() + 1
    &&& forall|a: int|
        0 <= a < before.kernel_space.areas.len() ==> #[trigger] after.kernel_space.areas[a]
            == before.kernel_space.areas[a]
    &&& KernelStack::is_stack_area(pid, &after.kernel_space.areas@.last())
    &&& after.frame_allocator.end == before.frame_allocator.end
    &&& forall|p: u64|
        before.frame_allocator.is_allocated(p) ==> after.frame_allocator.is_allocated(p)
    &&& forall|p: u64|
        after.frame_allocator.is_allocated(p) && !before.frame_allocator.is_allocated(p)
            ==> space.has_frame(p) || after.kernel_space.has_frame(p)
    &&& forall|p: u64| before.kernel_space.has_frame(p) ==> after.kernel_space.has_frame(p)
    &&& forall|p: u64|
        after.kernel_space.has_frame(p) && !before.kernel_space.has_frame(p)
            ==> !before.frame_allocator.is_allocated(p)
    &&& forall|p: u64| space.has_frame(p) ==> !before.frame_allocator.is_allocated(p)
    &&& forall|p: u64| !(space.has_frame(p) && after.kernel_space.has_frame(p))
}

/// What the replacing of the address space `old_space` of a task by the
/// fresh space `new_space` made of the allocator: the frames of
/// `new_space` were not handed out before and are handed out now, the
/// frames of `old_space` are free, and nothing else changed.
#[verifier::opaque]
pub open spec fn space_replaced(
    al0: &StackFrameAllocator,
    al1: &StackFrameAllocator,
    old_space: &MemorySet,
    new_space: &MemorySet,
) -> bool {
    &&& al1.end == al0.end
    &&& forall|f: u64| #[trigger] new_space.has_frame(f) ==> !al0.is_allocated(f)
    &&& forall|f: u64| #[trigger]
        al1.is_allocated(f) == ((al0.is_allocated(f) && !old_space.has_frame(f))
            || new_space.has_frame(f))
}

/// A fresh space that took the place of a space whose frames were given
/// back has replaced it.
pub proof fn lemma_space_replaced(
    al0: &StackFrameAllocator,
    al1: &StackFrameAllocator,
    al2: &StackFrameAllocator,
    old_space: &MemorySet,
    made: &MemorySet,
    new_space: &MemorySet,
)
    requires
        space_fresh(made, al0, al1),
        made.owned_by(al1),
        old_space.owned_by(al0),
        al2.end == al1.end,
        forall|f: u64| #[trigger]
            al2.is_allocated(f) == (al1.is_allocated(f) && !old_space.has_frame(f)),
        forall|f: u64| made.has_frame(f) == new_space.has_frame(f),
    ensures
        space_replaced(al0, al2, old_space, new_space),
        old_space.owned_by(al1),
        forall|f: u64| !(new_space.has_frame(f) && old_space.has_frame(f)),
        forall|f: u64| !(made.has_frame(f) && old_space.has_frame(f)),
{
    reveal(space_replaced);
    reveal(space_fresh);
    lemma_owned_mono(old_space, al0, al1);
    assert forall|f: u64| !(made.has_frame(f) && old_space.has_frame(f)) by {
        if old_space.has_frame(f) {
            old_space.lemma_has_frame_allocated(al0, f);
        }
    }
    assert forall|f: u64| !(new_space.has_frame(f) && old_space.has_frame(f)) by {
        assert(made.has_frame(f) == new_space.has_frame(f));
    }
    assert forall|f: u64| #[trigger] new_space.has_frame(f) implies !al0.is_allocated(f) by {
        assert(made.has_frame(f) == new_space.has_frame(f));
    }
    assert forall|f: u64| #[trigger]
        al2.is_allocated(f) == ((al0.is_allocated(f) && !old_space.has_frame(f))
            || new_space.has_frame(f)) by {
        assert(made.has_frame(f) == new_space.has_frame(f));
        assert(al2.is_allocated(f) == (al1.is_allocated(f) && !old_space.has_frame(f)));
        if made.has_frame(f) {
            made.lemma_has_frame_allocated(al1, f);
        }
    }
}

/// The part of a task that changes while it lives.
pub struct TaskControlBlockInner {
    /// Number of the frame that holds the trap context.
    pub trap_cx_ppn: PhysPageNum,
    /// Size of the program's data: the top of its user stack.
    pub base_size: u64,
    /// The saved context of the task while it is not running.
    pub task_cx: TaskContext,
    /// The state of the task.
    pub task_status: TaskStatus,
    /// The address space of the task.
    pub memory_set: MemorySet,
    /// Identifier of the parent task, if there is one.
    pub parent: Option<usize>,
    /// Identifiers of the child tasks.
    pub children: Vec<usize>,
    /// The exit code, once the task ended.
    pub exit_code: i32,
    /// The open files of the task, by descriptor.
    pub fd_table: Vec<Option<FileRef>>,
    /// Signals that were sent to the task and not handled yet.
    pub signals: SignalFlags,
    /// Signals that the task holds back.
    pub signal_mask: SignalFlags,
    /// Number of the signal whose handler runs, or -1.
    pub handling_sig: isize,
    /// What the task does on each signal.
    pub signal_actions: SignalActions,
    /// Whether the task was killed.
    pub killed: bool,
    /// Whether the task was stopped.
    pub frozen: bool,
    /// The trap contexts that signal handlers interrupted.
    pub trap_ctx_backup: Vec<Option<TrapContext>>,
}

/// A task: its identifier, its kernel stack, and its changing part.
pub struct TaskControlBlock {
    /// The identifier of the task.
    pub pid: PidHandle,
    /// The kernel stack of the task.
    pub kernel_stack: KernelStack,
    /// The changing part of the task.
    pub inner: TaskControlBlockInner,
}

impl TaskControlBlockInner {
    /// The address space is that of a living user program: it is well
    /// formed, maps nothing but its areas and the trampoline, no area holds
    /// the trampoline page, and the last area is the page of the trap
    /// context, whose frame is `trap_cx_ppn`.
    pub open spec fn has_user_space(&self) -> bool {
        &&& self.memory_set.wf()
        &&& self.memory_set.only_areas_mapped()
        &&& self.memory_set.areas.len() >= 1
        &&& trap_context_area(&self.memory_set.areas[self.memory_set.areas.len() - 1])
        &&& forall|a: int|
            0 <= a < self.memory_set.areas.len() ==> !(#[trigger] self.memory_set.areas[a]).contains(
                VirtPageNum(TRAMPOLINE_VPN),
            )
        &&& self.trap_cx_ppn == self.memory_set.areas[self.memory_set.areas.len()
            - 1].data_frames[0].ppn
    }

    /// The 37 words of the trap context of the task, as its frame holds
    /// them.
    pub open spec fn trap_cx_words(&self) -> Seq<u64> {
        words_at(self.memory_set.page(VirtPageNum(TRAP_CONTEXT_VPN)), 0, 37)
    }

    /// The trap context of the task, read from its frame.
    pub fn get_trap_cx(&self) -> (r: TrapContext)
        requires
            self.has_user_space(),
        ensures
            r.words() == self.trap_cx_words(),
    {
        proof {
            lemma_trap_context_backed(&self.memory_set);
        }
        let words = self.memory_set.read_words(crate::config::TRAP_CONTEXT, 37);
        TrapContext::from_words(words.as_slice())
    }

    /// Stores `cx` as the trap context of the task at the start of its
    /// frame; the bytes of the frame after the context stay as they are.
    pub fn set_trap_cx(&mut self, cx: &TrapContext)
        requires
            old(self).has_user_space(),
        ensures
            final(self).has_user_space(),
            final(self).trap_cx_words() == cx.words(),
            final(self).memory_set.page(VirtPageNum(TRAP_CONTEXT_VPN)) == with_words(
                old(self).memory_set.page(VirtPageNum(TRAP_CONTEXT_VPN)),
                0,
                cx.words(),
            ),
            same_shape(&old(self).memory_set, &final(self).memory_set),
            final(self).trap_cx_ppn == old(self).trap_cx_ppn,
            final(self).base_size == old(self).base_size,
            final(self).task_cx == old(self).task_cx,
            final(self).task_status == old(self).task_status,
            final(self).parent == old(self).parent,
            final(self).children == old(self).children,
            final(self).exit_code == old(self).exit_code,
            final(self).fd_table == old(self).fd_table,
            final(self).signals == old(self).signals,
            final(self).signal_mask == old(self).signal_mask,
            final(self).handling_sig == old(self).handling_sig,
            final(self).signal_actions == old(self).signal_actions,
            final(self).killed == old(self).killed,
            final(self).frozen == old(self).frozen,
            final(self).trap_ctx_backup == old(self).trap_ctx_backup,
            forall|p: VirtPageNum| #[trigger]
                old(self).memory_set.backed(p) ==> final(self).memory_set.backed(p),
            forall|p: VirtPageNum|
                old(self).memory_set.backed(p) && p.0 != TRAP_CONTEXT_VPN ==> #[trigger] final(self).memory_set.page(p) == old(self).memory_set.page(p),
            forall|b: int, j: int|
                0 <= b < old(self).memory_set.areas.len() - 1 && 0 <= j < old(self).memory_set.areas[b].data_frames.len() ==> #[trigger] final(self).memory_set.areas[b].data_frames[j] == old(self).memory_set.areas[b].data_frames[j],
    {
        proof {
            lemma_trap_context_backed(&self.memory_set);
        }
        let words = cx.to_words();
        let last = self.memory_set.areas.len() - 1;
        self.memory_set.poke_words(last, 0, 0, words.as_slice());
        proof {
            reveal(same_shape);
            let al: StackFrameAllocator = arbitrary();
            lemma_same_shape(&old(self).memory_set, &self.memory_set, &al);
            assert(crate::mm::access::area_same_shape(
                &old(self).memory_set.areas[last as int],
                &self.memory_set.areas[last as int],
            ));
            assert(self.memory_set.areas[last as int].wf());
            assert forall|a: int| 0 <= a < self.memory_set.areas.len() implies !(
            #[trigger] self.memory_set.areas[a]).contains(VirtPageNum(TRAMPOLINE_VPN)) by {
                assert(crate::mm::access::area_same_shape(
                    &old(self).memory_set.areas[a],
                    &self.memory_set.areas[a],
                ));
            }
            lemma_trap_context_backed(&self.memory_set);
            lemma_with_words(
                old(self).memory_set.page(VirtPageNum(TRAP_CONTEXT_VPN)),
                0,
                cx.words(),
            );
        }
    }

    /// The value for the `satp` register that selects the task's address
    /// space.
    pub fn get_user_token(&self) -> (r: u64)
        ensures
            r == (8u64 << 60) | self.memory_set.page_table.root_ppn.0,
    {
        self.memory_set.token()
    }

    /// The state of the task.
    pub fn get_status(&self) -> (r: TaskStatus)
        ensures
            r == self.task_status,
    {
        self.task_status
    }

    /// Whether the task ended and was not collected yet.
    pub fn is_zombie(&self) -> (r: bool)
        ensures
            r == (self.task_status == TaskStatus::Zombie),
    {
        self.get_status() == TaskStatus::Zombie
    }

    /// The lowest free descriptor; the table grows by one free entry where
    /// every descriptor is in use.
    pub fn alloc_fd(&mut self) -> (r: usize)
        ensures
            r <= old(self).fd_table@.len(),
            forall|i: int| 0 <= i < r ==> old(self).fd_table@[i] is Some,
            r < old(self).fd_table@.len() ==> old(self).fd_table@[r as int] is None && final(self).fd_table@ == old(self).fd_table@,
            r == old(self).fd_table@.len() ==> final(self).fd_table@ == old(self).fd_table@.push(None),
            final(self).memory_set == old(self).memory_set,
            final(self).task_status == old(self).task_status,
            final(self).task_cx == old(self).task_cx,
            final(self).base_size == old(self).base_size,
            final(self).parent == old(self).parent,
            final(self).children == old(self).children,
            final(self).trap_cx_ppn == old(self).trap_cx_ppn,
            final(self).exit_code == old(self).exit_code,
            final(self).signals == old(self).signals,
            final(self).signal_mask == old(self).signal_mask,
            final(self).handling_sig == old(self).handling_sig,
            final(self).signal_actions == old(self).signal_actions,
            final(self).killed == old(self).killed,
            final(self).frozen == old(self).frozen,
            final(self).trap_ctx_backup == old(self).trap_ctx_backup,
    {
        let mut fd: usize = 0;
        while fd < self.fd_table.len()
            invariant
                fd <= self.fd_table@.len(),
                *self == *old(self),
                forall|i: int| 0 <= i < fd ==> self.fd_table@[i] is Some,
            decreases self.fd_table@.len() - fd,
        {
            if self.fd_table[fd].is_none() {
                return fd;
            }
            fd += 1;
        }
        self.fd_table.push(None);
        self.fd_table.len() - 1
    }
}

impl TaskControlBlock {
    /// The changing part of the task, for reading and writing.
    pub fn inner_exclusive_access(&mut self) -> (r: &mut TaskControlBlockInner)
        ensures
            *r == old(self).inner,
            final(self).inner == *final(r),
            final(self).pid == old(self).pid,
            final(self).kernel_stack == old(self).kernel_stack,
    {
        &mut self.inner
    }

    /// The identifier of the task.
    pub fn getpid(&self) -> (r: usize)
        ensures
            r == self.pid.0,
    {
        self.pid.0
    }

    /// The task of the program in the ELF file `elf_data`: ready to run,
    /// with a fresh identifier and kernel stack, no parent and no child, the
    /// console as its first three open files, and a trap context that starts
    /// the program at its entry point on its user stack.
    pub fn new(elf_data: &[u8], res: &mut Resources) -> (r: Self)
        requires
            elf_loadable(elf_data@),
            old(res).wf(),
            old(res).can_host(old(res).pid_allocator.next_pid()),
            old(res).frame_allocator.free_count() >= elf_frames_needed(elf_data@)
                + KernelStack::frames_needed(old(res).pid_allocator.next_pid()),
        ensures
            final(res).wf(),
            task_made(old(res), final(res), &r.inner.memory_set, r.pid.0),
            r.kernel_stack.pid == r.pid.0,
            r.pid.0 <= MAX_PID,
            program_space(&r.inner.memory_set, elf_data@, old(res).strampoline),
            r.inner.memory_set.owned_by(&final(res).frame_allocator),
            r.inner.has_user_space(),
            r.inner.trap_cx_words() == TrapContext::spec_app_init(
                le64(elf_data@, 24),
                user_stack_top(max_end(spec_headers(elf_data@))),
                (8u64 << 60) | old(res).kernel_space.page_table.root_ppn.0,
                kstack_top(r.pid.0),
                old(res).trap_handler,
                old(res).sstatus,
            ),
            r.inner.memory_set.page(VirtPageNum(TRAP_CONTEXT_VPN)) == with_words(
                zeros(4096),
                0,
                r.inner.trap_cx_words(),
            ),
            r.inner.base_size == user_stack_top(max_end(spec_headers(elf_data@))),
            r.inner.task_cx.ra == old(res).trap_return,
            r.inner.task_cx.sp == kstack_top(r.pid.0),
            r.inner.task_status == TaskStatus::Ready,
            r.inner.parent is None,
            r.inner.children@.len() == 0,
            r.inner.exit_code == 0,
            r.inner.fd_table@ == seq![
                Some(FileRef::Stdin),
                Some(FileRef::Stdout),
                Some(FileRef::Stdout),
            ],
            r.inner.signals.bits == 0,
            r.inner.signal_mask.bits == 0,
            r.inner.handling_sig == -1,
            !r.inner.killed,
            !r.inner.frozen,
            r.inner.trap_ctx_backup@.len() == 0,
            final(res).frame_allocator.free_count() >= old(res).frame_allocator.free_count()
                - elf_frames_needed(elf_data@) - KernelStack::frames_needed(r.pid.0),
    {
        let (memory_set, user_sp, entry_point) = MemorySet::from_elf(
            elf_data,
            res.strampoline,
            &mut res.frame_allocator,
        );
        let ghost al1 = res.frame_allocator;
        proof {
            lemma_trap_context_backed(&memory_set);
            lemma_masks(crate::config::TRAP_CONTEXT);
            lemma_grew_allocator(&memory_set, &memory_set, &old(res).frame_allocator, &al1);
            lemma_owned_mono(&old(res).kernel_space, &old(res).frame_allocator, &al1);
            assert(memory_set.page(VirtPageNum(TRAP_CONTEXT_VPN)) == zeros(4096));
        }
        let trap_cx_ppn = match memory_set.translate(
            VirtPageNum::from(VirtAddr::from(crate::config::TRAP_CONTEXT)),
        ) {
            Some(pte) => pte.ppn(),
            None => PhysPageNum(0),
        };
        let pid_handle = pid_alloc(&mut res.pid_allocator);
        let kernel_stack = KernelStack::new(
            &pid_handle,
            &mut res.kernel_space,
            &mut res.frame_allocator,
        );
        let kernel_stack_top = kernel_stack.get_top();
        let mut fd_table: Vec<Option<FileRef>> = Vec::new();
        fd_table.push(Some(FileRef::Stdin));
        fd_table.push(Some(FileRef::Stdout));
        fd_table.push(Some(FileRef::Stdout));
        let mut task_control_block = Self {
            pid: pid_handle,
            kernel_stack,
            inner: TaskControlBlockInner {
                trap_cx_ppn,
                base_size: user_sp,
                task_cx: TaskContext::goto_trap_return(kernel_stack_top, res.trap_return),
                task_status: TaskStatus::Ready,
                memory_set,
                parent: None,
                children: Vec::new(),
                exit_code: 0,
                fd_table,
                signals: SignalFlags::empty(),
                signal_mask: SignalFlags::empty(),
                handling_sig: -1,
                signal_actions: SignalActions::default(),
                killed: false,
                frozen: false,
                trap_ctx_backup: Vec::new(),
            },
        };
        let ghost made = task_control_block.inner.memory_set;
        proof {
            lemma_grew_allocator(
                &old(res).kernel_space,
                &res.kernel_space,
                &al1,
                &res.frame_allocator,
            );
            lemma_owned_mono(&made, &al1, &res.frame_allocator);
            crate::mm::loader::lemma_program_space_shape(&made, elf_data@, old(res).strampoline);
            assert(task_control_block.inner.has_user_space());
        }
        let trap_cx = TrapContext::app_init_context(
            entry_point,
            user_sp,
            res.kernel_space.token(),
            kernel_stack_top,
            res.trap_handler,
            res.sstatus,
        );
        task_control_block.inner.set_trap_cx(&trap_cx);
        proof {
            let fin = task_control_block.inner.memory_set;
            lemma_program_space_kept(&made, &fin, elf_data@, old(res).strampoline);
            lemma_same_shape(&made, &fin, &res.frame_allocator);
            assert(task_control_block.inner.fd_table@ =~= seq![
                Some(FileRef::Stdin),
                Some(FileRef::Stdout),
                Some(FileRef::Stdout),
            ]);
            Self::lemma_task_made(old(res), &al1, res, &made, &fin, pid_handle.0);
        }
        task_control_block
    }

    /// A child of the task: a copy of its address space, a fresh
    /// identifier and kernel stack, the same open files, signal mask and
    /// signal actions, and no child of its own. The child is ready to run.
    /// Every page of the task that has a frame has a frame of its own in
    /// the child, with the same bytes; the page of the trap context differs
    /// in one word, the top of the kernel stack, which is the child's own.
    /// Register `x10`, the result of the call, is left as the task has it:
    /// the zero that the child sees is stored by `Kernel::fork_current`. The
    /// child is added to the children of the task.
    pub fn fork(&mut self, res: &mut Resources) -> (child: Self)
        requires
            old(self).inner.has_user_space(),
            old(res).wf(),
            old(res).can_host(old(res).pid_allocator.next_pid()),
            old(res).frame_allocator.free_count() >= 3 + crate::mm::spaces::areas_needed(
                old(self).inner.memory_set.areas@,
            ) + KernelStack::frames_needed(old(res).pid_allocator.next_pid()),
        ensures
            final(res).wf(),
            task_made(old(res), final(res), &child.inner.memory_set, child.pid.0),
            child.kernel_stack.pid == child.pid.0,
            child.pid.0 <= MAX_PID,
            child.inner.has_user_space(),
            child.inner.memory_set.owned_by(&final(res).frame_allocator),
            child.inner.memory_set.areas.len() == old(self).inner.memory_set.areas.len(),
            forall|a: int|
                0 <= a < old(self).inner.memory_set.areas.len() - 1 ==> crate::mm::spaces::area_built(
                    &old(self).inner.memory_set.areas[a],
                    &#[trigger] child.inner.memory_set.areas[a],
                    true,
                ),
            child.inner.memory_set.page_table.walk(VirtPageNum(TRAMPOLINE_VPN)) == Some(
                crate::mm::page_table::PageTableEntry::spec_new(
                    PhysPageNum(((old(res).strampoline % 0x100_0000_0000_0000) / 4096) as u64),
                    crate::mm::page_table::PTEFlags { bits: 43 },
                ),
            ),
            child.inner.trap_cx_words() == old(self).inner.trap_cx_words().update(
                35,
                kstack_top(child.pid.0),
            ),
            child.inner.memory_set.page(VirtPageNum(TRAP_CONTEXT_VPN)) == with_words(
                old(self).inner.memory_set.page(VirtPageNum(TRAP_CONTEXT_VPN)),
                0,
                old(self).inner.trap_cx_words().update(35, kstack_top(child.pid.0)),
            ),
            child.inner.base_size == old(self).inner.base_size,
            child.inner.task_cx.ra == old(res).trap_return,
            child.inner.task_cx.sp == kstack_top(child.pid.0),
            child.inner.task_status == TaskStatus::Ready,
            child.inner.parent == Some(old(self).pid.0),
            child.inner.children@.len() == 0,
            child.inner.exit_code == 0,
            child.inner.fd_table@ == old(self).inner.fd_table@,
            child.inner.signals.bits == 0,
            child.inner.signal_mask == old(self).inner.signal_mask,
            child.inner.handling_sig == -1,
            child.inner.signal_actions == old(self).inner.signal_actions,
            !child.inner.killed,
            !child.inner.frozen,
            child.inner.trap_ctx_backup@.len() == 0,
            final(self).pid == old(self).pid,
            final(self).kernel_stack == old(self).kernel_stack,
            final(self).inner.children@ == old(self).inner.children@.push(child.pid.0),
            final(self).inner.memory_set == old(self).inner.memory_set,
            final(self).inner.trap_cx_ppn == old(self).inner.trap_cx_ppn,
            final(self).inner.base_size == old(self).inner.base_size,
            final(self).inner.task_cx == old(self).inner.task_cx,
            final(self).inner.task_status == old(self).inner.task_status,
            final(self).inner.parent == old(self).inner.parent,
            final(self).inner.exit_code == old(self).inner.exit_code,
            final(self).inner.fd_table == old(self).inner.fd_table,
            final(self).inner.signals == old(self).inner.signals,
            final(self).inner.signal_mask == old(self).inner.signal_mask,
            final(self).inner.handling_sig == old(self).inner.handling_sig,
            final(self).inner.signal_actions == old(self).inner.signal_actions,
            final(self).inner.killed == old(self).inner.killed,
            final(self).inner.frozen == old(self).inner.frozen,
            final(self).inner.trap_ctx_backup == old(self).inner.trap_ctx_backup,
            final(res).frame_allocator.free_count() >= old(res).frame_allocator.free_count() - 3
                - crate::mm::spaces::areas_needed(old(self).inner.memory_set.areas@)
                - KernelStack::frames_needed(child.pid.0),
    {
        let memory_set = MemorySet::from_existed_user(
            &self.inner.memory_set,
            res.strampoline,
            &mut res.frame_allocator,
        );
        let ghost al1 = res.frame_allocator;
        let ghost n = self.inner.memory_set.areas.len() as int;
        proof {
            assert(crate::mm::spaces::area_built(
                &self.inner.memory_set.areas[n - 1],
                &memory_set.areas[n - 1],
                true,
            ));
            lemma_trap_context_backed(&memory_set);
            lemma_trap_context_backed(&self.inner.memory_set);
            lemma_masks(crate::config::TRAP_CONTEXT);
            lemma_grew_allocator(&memory_set, &memory_set, &old(res).frame_allocator, &al1);
            lemma_owned_mono(&old(res).kernel_space, &old(res).frame_allocator, &al1);
        }
        let trap_cx_ppn = match memory_set.translate(
            VirtPageNum::from(VirtAddr::from(crate::config::TRAP_CONTEXT)),
        ) {
            Some(pte) => pte.ppn(),
            None => PhysPageNum(0),
        };
        let pid_handle = pid_alloc(&mut res.pid_allocator);
        let kernel_stack = KernelStack::new(
            &pid_handle,
            &mut res.kernel_space,
            &mut res.frame_allocator,
        );
        let kernel_stack_top = kernel_stack.get_top();
        let mut new_fd_table: Vec<Option<FileRef>> = Vec::new();
        let mut i: usize = 0;
        while i < self.inner.fd_table.len()
            invariant
                i <= self.inner.fd_table@.len(),
                new_fd_table@ == self.inner.fd_table@.take(i as int),
            decreases self.inner.fd_table@.len() - i,
        {
            match self.inner.fd_table[i] {
                Some(file) => {
                    new_fd_table.push(Some(file));
                },
                None => {
                    new_fd_table.push(None);
                },
            }
            assert(new_fd_table@ =~= self.inner.fd_table@.take(i + 1));
            i += 1;
        }
        assert(new_fd_table@ =~= self.inner.fd_table@);
        let child_pid = pid_handle.0;
        let mut task_control_block = TaskControlBlock {
            pid: pid_handle,
            kernel_stack,
            inner: TaskControlBlockInner {
                trap_cx_ppn,
                base_size: self.inner.base_size,
                task_cx: TaskContext::goto_trap_return(kernel_stack_top, res.trap_return),
                task_status: TaskStatus::Ready,
                memory_set,
                parent: Some(self.pid.0),
                children: Vec::new(),
                exit_code: 0,
                fd_table: new_fd_table,
                signals: SignalFlags::empty(),
                signal_mask: self.inner.signal_mask,
                handling_sig: -1,
                signal_actions: self.inner.signal_actions,
                killed: false,
                frozen: false,
                trap_ctx_backup: Vec::new(),
            },
        };
        let ghost made = task_control_block.inner.memory_set;
        proof {
            lemma_grew_allocator(
                &old(res).kernel_space,
                &res.kernel_space,
                &al1,
                &res.frame_allocator,
            );
            lemma_owned_mono(&made, &al1, &res.frame_allocator);
            assert forall|a: int| 0 <= a < made.areas.len() implies !(#[trigger] made.areas[a]).contains(
                VirtPageNum(TRAMPOLINE_VPN),
            ) by {
                assert(crate::mm::spaces::area_built(
                    &self.inner.memory_set.areas[a],
                    &made.areas[a],
                    true,
                ));
            }
            assert(task_control_block.inner.has_user_space());
        }
        self.inner.children.push(child_pid);
        let mut trap_cx = task_control_block.inner.get_trap_cx();
        trap_cx.kernel_sp = kernel_stack_top;
        task_control_block.inner.set_trap_cx(&trap_cx);
        proof {
            let fin = task_control_block.inner.memory_set;
            lemma_same_shape(&made, &fin, &res.frame_allocator);
            reveal(same_shape);
            Self::lemma_task_made(old(res), &al1, res, &made, &fin, child_pid);
            assert(task_control_block.inner.trap_cx_words() =~= old(self).inner.trap_cx_words().update(
                35,
                kstack_top(child_pid),
            ));
            assert(made.page(VirtPageNum(TRAP_CONTEXT_VPN)) == old(self).inner.memory_set.page(
                VirtPageNum(TRAP_CONTEXT_VPN),
            ));
            assert forall|a: int|
                0 <= a < old(self).inner.memory_set.areas.len()
                    - 1 implies crate::mm::spaces::area_built(
                &old(self).inner.memory_set.areas[a],
                &#[trigger] fin.areas[a],
                true,
            ) by {
                assert(crate::mm::spaces::area_built(
                    &old(self).inner.memory_set.areas[a],
                    &made.areas[a],
                    true,
                ));
                assert(crate::mm::access::area_same_shape(&made.areas[a], &fin.areas[a]));
                assert(fin.areas[a].wf());
                assert forall|i: int| 0 <= i < fin.areas[a].data_frames.len() implies (
                #[trigger] fin.areas[a].data_frames[i])@ == old(self).inner.memory_set.areas[a].data_frames[i]@ by {
                    assert(fin.areas[a].data_frames[i] == made.areas[a].data_frames[i]);
                }
            }
        }
        task_control_block
    }

    /// Replaces the program of the task by the program in the ELF file
    /// `elf_data`, started with the arguments `args`: the task gets a fresh
    /// address space for the program, with the arguments on its user stack,
    /// and gives back the frames of the space that it had. Its trap context
    /// starts the program at its entry point, with the stack pointer below
    /// the arguments, the number of arguments in register `x10` and the
    /// address of the array of their addresses in `x11`.
    #[verifier::rlimit(60)]
    pub fn exec(&mut self, elf_data: &[u8], args: Vec<String>, res: &mut Resources)
        requires
            elf_loadable(elf_data@),
            crate::task::args::args_fit(crate::task::args::arg_seqs(args@)),
            old(self).pid.0 <= MAX_PID,
            old(self).kernel_stack.pid == old(self).pid.0,
            old(self).inner.memory_set.wf(),
            old(self).inner.memory_set.owned_by(&old(res).frame_allocator),
            forall|f: u64|
                !(old(self).inner.memory_set.has_frame(f) && old(res).kernel_space.has_frame(f)),
            old(res).wf(),
            old(res).frame_allocator.free_count() >= elf_frames_needed(elf_data@),
        ensures
            final(res).wf(),
            final(res).kernel_space == old(res).kernel_space,
            final(res).pid_allocator == old(res).pid_allocator,
            final(res).same_addresses(old(res)),
            space_replaced(
                &old(res).frame_allocator,
                &final(res).frame_allocator,
                &old(self).inner.memory_set,
                &final(self).inner.memory_set,
            ),
            crate::mm::loader::program_layout(
                &final(self).inner.memory_set,
                elf_data@,
                old(res).strampoline,
            ),
            final(self).inner.has_user_space(),
            final(self).inner.memory_set.owned_by(&final(res).frame_allocator),
            crate::task::args::args_on_stack(
                crate::task::args::stack_image(
                    &final(self).inner.memory_set,
                    user_stack_top(max_end(spec_headers(elf_data@))),
                ),
                (user_stack_top(max_end(spec_headers(elf_data@))) - 8192) as u64,
                crate::task::args::arg_seqs(args@),
            ),
            crate::task::args::clear_below(
                crate::task::args::stack_image(
                    &final(self).inner.memory_set,
                    user_stack_top(max_end(spec_headers(elf_data@))),
                ),
                crate::task::args::args_low(crate::task::args::arg_seqs(args@)),
            ),
            final(self).inner.memory_set.page(VirtPageNum(TRAP_CONTEXT_VPN)) == with_words(
                zeros(4096),
                0,
                final(self).inner.trap_cx_words(),
            ),
            final(self).inner.trap_cx_words() == TrapContext::spec_app_init(
                le64(elf_data@, 24),
                crate::task::args::args_sp(
                    user_stack_top(max_end(spec_headers(elf_data@))),
                    crate::task::args::arg_seqs(args@),
                ),
                (8u64 << 60) | old(res).kernel_space.page_table.root_ppn.0,
                kstack_top(old(self).pid.0),
                old(res).trap_handler,
                old(res).sstatus,
            ).update(10, args@.len() as u64).update(
                11,
                (user_stack_top(max_end(spec_headers(elf_data@))) - 8 * (args@.len() + 1)) as u64,
            ),
            final(self).pid == old(self).pid,
            final(self).kernel_stack == old(self).kernel_stack,
            final(self).inner.base_size == old(self).inner.base_size,
            final(self).inner.task_cx == old(self).inner.task_cx,
            final(self).inner.task_status == old(self).inner.task_status,
            final(self).inner.parent == old(self).inner.parent,
            final(self).inner.children == old(self).inner.children,
            final(self).inner.exit_code == old(self).inner.exit_code,
            final(self).inner.fd_table == old(self).inner.fd_table,
            final(self).inner.signals == old(self).inner.signals,
            final(self).inner.signal_mask == old(self).inner.signal_mask,
            final(self).inner.handling_sig == old(self).inner.handling_sig,
            final(self).inner.signal_actions == old(self).inner.signal_actions,
            final(self).inner.killed == old(self).inner.killed,
            final(self).inner.frozen == old(self).inner.frozen,
            final(self).inner.trap_ctx_backup == old(self).inner.trap_ctx_backup,
    {
        let ghost al0 = res.frame_allocator;
        let ghost old_space = self.inner.memory_set;
        let ghost top = user_stack_top(max_end(spec_headers(elf_data@)));
        let (mut memory_set, entry_point, sp, argv_base) = Self::build_image(
            elf_data,
            &args,
            res.strampoline,
            &mut res.frame_allocator,
        );
        let ghost pushed = memory_set;
        let ghost al1 = res.frame_allocator;
        proof {
            crate::mm::loader::lemma_program_layout_shape(
                &pushed,
                elf_data@,
                old(res).strampoline,
            );
            lemma_trap_context_backed(&pushed);
            lemma_masks(crate::config::TRAP_CONTEXT);
        }
        let trap_cx_ppn = match memory_set.translate(
            VirtPageNum::from(VirtAddr::from(crate::config::TRAP_CONTEXT)),
        ) {
            Some(pte) => pte.ppn(),
            None => PhysPageNum(0),
        };
        core::mem::swap(&mut self.inner.memory_set, &mut memory_set);
        proof {
            lemma_grew_allocator(&pushed, &pushed, &al0, &al1);
            lemma_owned_mono(&old_space, &al0, &al1);
        }
        memory_set.destroy(&mut res.frame_allocator);
        self.inner.trap_cx_ppn = trap_cx_ppn;
        let mut trap_cx = TrapContext::app_init_context(
            entry_point,
            sp,
            res.kernel_space.token(),
            self.kernel_stack.get_top(),
            res.trap_handler,
            res.sstatus,
        );
        let ghost words0 = trap_cx.words();
        trap_cx.x[10] = args.len() as u64;
        trap_cx.x[11] = argv_base;
        proof {
            assert(trap_cx.words() =~= words0.update(10, args@.len() as u64).update(11, argv_base));
        }
        self.inner.set_trap_cx(&trap_cx);
        proof {
            let fin = self.inner.memory_set;
            Self::lemma_exec_done(
                &al0,
                &al1,
                &res.frame_allocator,
                &old(res).kernel_space,
                &old_space,
                &pushed,
                &fin,
                elf_data@,
                old(res).strampoline,
                top,
            );
        }
    }

    /// The address space of the program in the ELF file `elf_data` with
    /// the arguments `args` on its user stack; beside it the entry point of
    /// the program, the stack pointer below the arguments, and the address
    /// of the array of the addresses of the arguments.
    pub fn build_image(
        elf_data: &[u8],
        args: &Vec<String>,
        strampoline: u64,
        allocator: &mut StackFrameAllocator,
    ) -> (r: (MemorySet, u64, u64, u64))
        requires
            elf_loadable(elf_data@),
            strampoline % 4096 == 0,
            crate::task::args::args_fit(crate::task::args::arg_seqs(args@)),
            old(allocator).wf(),
            old(allocator).free_count() >= elf_frames_needed(elf_data@),
        ensures
            final(allocator).wf(),
            r.0.wf(),
            r.0.owned_by(final(allocator)),
            space_fresh(&r.0, old(allocator), final(allocator)),
            crate::mm::loader::program_layout(&r.0, elf_data@, strampoline),
            crate::task::args::stack_at(&r.0, user_stack_top(max_end(spec_headers(elf_data@)))),
            crate::task::args::args_on_stack(
                crate::task::args::stack_image(
                    &r.0,
                    user_stack_top(max_end(spec_headers(elf_data@))),
                ),
                (user_stack_top(max_end(spec_headers(elf_data@))) - 8192) as u64,
                crate::task::args::arg_seqs(args@),
            ),
            crate::task::args::clear_below(
                crate::task::args::stack_image(
                    &r.0,
                    user_stack_top(max_end(spec_headers(elf_data@))),
                ),
                crate::task::args::args_low(crate::task::args::arg_seqs(args@)),
            ),
            crate::mm::access::vpn_of(
                (user_stack_top(max_end(spec_headers(elf_data@))) - 8192) as u64,
            ).0 != TRAP_CONTEXT_VPN,
            crate::mm::access::vpn_of(
                (user_stack_top(max_end(spec_headers(elf_data@))) - 4096) as u64,
            ).0 != TRAP_CONTEXT_VPN,
            r.0.page(VirtPageNum(TRAP_CONTEXT_VPN)) == zeros(4096),
            r.1 == le64(elf_data@, 24),
            r.2 == crate::task::args::args_sp(
                user_stack_top(max_end(spec_headers(elf_data@))),
                crate::task::args::arg_seqs(args@),
            ),
            r.3 == user_stack_top(max_end(spec_headers(elf_data@))) - 8 * (args@.len() + 1),
            final(allocator).free_count() >= old(allocator).free_count() - elf_frames_needed(
                elf_data@,
            ),
    {
        let (mut memory_set, user_sp, entry_point) = MemorySet::from_elf(
            elf_data,
            strampoline,
            allocator,
        );
        let ghost made = memory_set;
        proof {
            crate::mm::loader::lemma_program_stack(&made, elf_data@, strampoline);
            crate::mm::loader::lemma_max_end_room(spec_headers(elf_data@));
            lemma_trap_context_backed(&made);
            assert(made.page(VirtPageNum(TRAP_CONTEXT_VPN)) == zeros(4096));
        }
        let (argv_base, sp) = crate::task::args::push_args(&mut memory_set, user_sp, args);
        proof {
            Self::lemma_image_built(&made, &memory_set, old(allocator), allocator, elf_data@, strampoline);
            let before = crate::task::args::stack_image(&made, user_sp);
            let after = crate::task::args::stack_image(&memory_set, user_sp);
            assert forall|o: int|
                0 <= o < crate::task::args::args_low(
                    crate::task::args::arg_seqs(args@),
                ) implies #[trigger] after[o] == 0 by {
                crate::task::args::lemma_args_size_nonneg(
                    crate::task::args::arg_seqs(args@),
                    args@.len() as int,
                );
                assert(before =~= zeros(4096) + zeros(4096));
                assert(before[o] == 0);
                assert(after[o] == before[o]);
            }
        }
        (memory_set, entry_point, sp, argv_base)
    }

    /// The space of a program stays fresh and laid out as the space of
    /// the program when arguments are put on its user stack.
    proof fn lemma_image_built(
        made: &MemorySet,
        pushed: &MemorySet,
        al0: &StackFrameAllocator,
        al1: &StackFrameAllocator,
        data: Seq<u8>,
        strampoline: u64,
    )
        requires
            elf_loadable(data),
            crate::mm::loader::program_layout(made, data, strampoline),
            space_fresh(made, al0, al1),
            made.owned_by(al1),
            pushed.wf(),
            crate::task::args::stack_changed(
                made,
                pushed,
                user_stack_top(max_end(spec_headers(data))),
            ),
            crate::mm::access::vpn_of((user_stack_top(max_end(spec_headers(data))) - 8192) as u64).0
                == max_end(spec_headers(data)) + 1,
            crate::mm::access::vpn_of((user_stack_top(max_end(spec_headers(data))) - 4096) as u64).0
                == max_end(spec_headers(data)) + 2,
        ensures
            pushed.owned_by(al1),
            space_fresh(pushed, al0, al1),
            crate::mm::loader::program_layout(pushed, data, strampoline),
    {
        crate::mm::loader::lemma_segments_untouched(made, pushed, data, strampoline);
        crate::mm::loader::lemma_program_layout_kept(made, pushed, data, strampoline);
        lemma_same_shape(made, pushed, al1);
        reveal(space_fresh);
        assert forall|f: u64| al1.is_allocated(f) && !al0.is_allocated(f) implies pushed.has_frame(
            f,
        ) by {
            assert(made.has_frame(f) == pushed.has_frame(f));
        }
        assert forall|f: u64| pushed.has_frame(f) implies !al0.is_allocated(f) by {
            assert(made.has_frame(f) == pushed.has_frame(f));
        }
    }

    /// What holds once the new space of a task has its trap context and
    /// the frames of its old space are given back.
    proof fn lemma_exec_done(
        al0: &StackFrameAllocator,
        al1: &StackFrameAllocator,
        al2: &StackFrameAllocator,
        ks: &MemorySet,
        old_space: &MemorySet,
        pushed: &MemorySet,
        fin: &MemorySet,
        data: Seq<u8>,
        strampoline: u64,
        top: u64,
    )
        requires
            elf_loadable(data),
            crate::mm::loader::program_layout(pushed, data, strampoline),
            space_fresh(pushed, al0, al1),
            pushed.owned_by(al1),
            old_space.owned_by(al0),
            ks.owned_by(al0),
            forall|f: u64| !(old_space.has_frame(f) && ks.has_frame(f)),
            al2.end == al1.end,
            forall|f: u64| #[trigger]
                al2.is_allocated(f) == (al1.is_allocated(f) && !old_space.has_frame(f)),
            fin.wf(),
            same_shape(pushed, fin),
            forall|b: int, j: int|
                0 <= b < pushed.areas.len() - 1 && 0 <= j < pushed.areas[b].data_frames.len()
                    ==> #[trigger] fin.areas[b].data_frames[j] == pushed.areas[b].data_frames[j],
            forall|p: VirtPageNum| #[trigger] pushed.backed(p) ==> fin.backed(p),
            forall|p: VirtPageNum|
                pushed.backed(p) && p.0 != TRAP_CONTEXT_VPN ==> #[trigger] fin.page(p) == pushed.page(
                    p,
                ),
            crate::task::args::stack_at(pushed, top),
            crate::mm::access::vpn_of((top - 8192) as u64).0 != TRAP_CONTEXT_VPN,
            crate::mm::access::vpn_of((top - 4096) as u64).0 != TRAP_CONTEXT_VPN,
        ensures
            space_replaced(al0, al2, old_space, fin),
            crate::mm::loader::program_layout(fin, data, strampoline),
            ks.owned_by(al2),
            fin.owned_by(al2),
            crate::task::args::stack_image(fin, top) == crate::task::args::stack_image(pushed, top),
    {
        lemma_same_shape(pushed, fin, al1);
        assert forall|b: int, j: int|
            0 <= b < pushed.areas.len() - 2 && 0 <= j < pushed.areas[b].data_frames.len() implies (
        #[trigger] fin.areas[b].data_frames[j])@ == pushed.areas[b].data_frames[j]@ by {
            assert(fin.areas[b].data_frames[j] == pushed.areas[b].data_frames[j]);
        }
        crate::mm::loader::lemma_program_layout_kept(pushed, fin, data, strampoline);
        lemma_space_replaced(al0, al1, al2, old_space, pushed, fin);
        lemma_grew_allocator(pushed, pushed, al0, al1);
        lemma_owned_mono(ks, al0, al1);
        crate::task::kernel::Kernel::lemma_owned_after_release(ks, old_space, al1, al2);
        crate::task::kernel::Kernel::lemma_owned_after_release(fin, old_space, al1, al2);
        crate::task::args::lemma_image_kept(pushed, fin, top);
    }

    /// The making of a task from a fresh space and a kernel stack mapped
    /// after it is a making of a task.
    proof fn lemma_task_made(
        before: &Resources,
        al1: &StackFrameAllocator,
        after: &Resources,
        made: &MemorySet,
        fin: &MemorySet,
        pid: usize,
    )
        requires
            before.wf(),
            after.same_addresses(before),
            space_fresh(made, &before.frame_allocator, al1),
            space_grew(&before.kernel_space, &after.kernel_space, al1, &after.frame_allocator),
            made.owned_by(al1),
            before.kernel_space.owned_by(&before.frame_allocator),
            forall|p: u64| made.has_frame(p) == fin.has_frame(p),
            pid == before.pid_allocator.next_pid(),
            !before.pid_allocator.is_allocated(pid),
            forall|p: usize|
                after.pid_allocator.is_allocated(p) == (before.pid_allocator.is_allocated(p) || p
                    == pid),
            after.kernel_space.page_table.root_ppn == before.kernel_space.page_table.root_ppn,
            after.kernel_space.areas.len() == before.kernel_space.areas.len() + 1,
            forall|a: int|
                0 <= a < before.kernel_space.areas.len() ==> #[trigger] after.kernel_space.areas[a]
                    == before.kernel_space.areas[a],
            KernelStack::is_stack_area(pid, &after.kernel_space.areas@.last()),
        ensures
            task_made(before, after, fin, pid),
    {
        reveal(task_made);
        reveal(space_fresh);
        reveal(space_grew);
        assert forall|p: u64| !(fin.has_frame(p) && after.kernel_space.has_frame(p)) by {
            if fin.has_frame(p) && after.kernel_space.has_frame(p) {
                made.lemma_has_frame_allocated(al1, p);
                if before.kernel_space.has_frame(p) {
                    before.kernel_space.lemma_has_frame_allocated(&before.frame_allocator, p);
                }
            }
        }
    }
}

} // verus!
