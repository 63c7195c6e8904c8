//! Testing what the operations of the kernel ask for before they are
//! called: a layout to boot on, a program that can be loaded, arguments
//! that fit, and enough free frames.
use crate::mm::access::vpn_of;
use crate::mm::budget::{elf_fits, elf_frames, frames_for_areas, tables_for};
use crate::mm::loader::{elf_frames_needed, elf_loadable};
use crate::mm::spaces::{areas_needed, KernelLayout};
use crate::task::args::{arg_seqs, args_fit, args_size, lemma_args_size};
use crate::task::kernel::{Kernel, KSTACK_FLOOR};
use crate::task::pid::{KernelStack, PidAllocator, MAX_PID};
use crate::task::wait::waitpid_result;
use vstd::prelude::*;

verus! {

impl KernelLayout {
    /// Whether a kernel can be set up as the layout says: the layout is
    /// in order, the memory after the kernel image holds the frames that
    /// the kernel space needs, and every area lies below the kernel stacks.
    pub open spec fn bootable(&self) -> bool {
        &&& self.wf()
        &&& (self.ekernel as int % 0x100_0000_0000_0000 + 4095) / 4096 + self.frames_needed() <= (
        self.memory_end as int % 0x100_0000_0000_0000) / 4096
        &&& forall|i: int|
            0 <= i < self.count() ==> #[trigger] self.start_vpn(i) < KSTACK_FLOOR && self.end_vpn(i)
                <= KSTACK_FLOOR
    }

    /// Whether a kernel can be set up as the layout says.
    pub fn can_boot(&self) -> (r: bool)
        ensures
            r == self.bootable(),
    {
        if !self.in_order() {
            return false;
        }
        let first: u64 = (self.ekernel % 0x100_0000_0000_0000 + 4095) / 4096;
        let end: u64 = (self.memory_end % 0x100_0000_0000_0000) / 4096;
        if first as u128 + self.frames() > end as u128 {
            return false;
        }
        let v = match self.page_ranges() {
            None => {
                return false;
            },
            Some(v) => v,
        };
        let n = v.len();
        let mut i: usize = 0;
        while i < n
            invariant
                i <= n,
                n == v.len(),
                n == self.count(),
                forall|a: int|
                    0 <= a < n ==> (#[trigger] v[a]) == (self.start_vpn(a), self.end_vpn(a)),
                forall|a: int|
                    0 <= a < i ==> #[trigger] self.start_vpn(a) < KSTACK_FLOOR && self.end_vpn(a)
                        <= KSTACK_FLOOR,
            decreases n - i,
        {
            let (s, e) = v[i];
            assert(v[i as int] == (self.start_vpn(i as int), self.end_vpn(i as int)));
            if s >= KSTACK_FLOOR || e > KSTACK_FLOOR {
                return false;
            }
            i += 1;
        }
        true
    }
}

impl PidAllocator {
    /// The identifier that is handed out next.
    pub fn peek(&self) -> (r: usize)
        ensures
            r == self.next_pid(),
    {
        let n = self.recycled.len();
        if n > 0 {
            self.recycled[n - 1]
        } else {
            self.current
        }
    }
}

impl KernelStack {
    /// Number of free frames that mapping the stack of task `pid` is sure
    /// to succeed with.
    pub fn frames_for(pid: usize) -> (r: u64)
        requires
            pid <= MAX_PID,
        ensures
            r == Self::frames_needed(pid),
            r <= 6,
    {
        let top: u64 = 0x7ff_ffff - 3 * (pid as u64);
        tables_for(top - 2, top) + 2
    }
}

/// Whether the arguments `args` fit on the user stack with the array of
/// their addresses.
pub fn args_fit_stack(args: &Vec<String>) -> (r: bool)
    ensures
        r == args_fit(arg_seqs(args@)),
{
    let n = args.len();
    let ghost a = arg_seqs(args@);
    proof {
        lemma_args_size(a, 0, n as int);
    }
    if n >= 1024 {
        return false;
    }
    let mut total: usize = 8 * (n + 1);
    let mut i: usize = 0;
    while i < n
        invariant
            i <= n,
            n == args@.len(),
            n < 1024,
            a == arg_seqs(args@),
            total == 8 * (n + 1) + args_size(a, i as int),
            total <= 8192,
        decreases n - i,
    {
        let bytes = args[i].as_str().as_bytes();
        let len = bytes.len();
        proof {
            assert(bytes@ == a[i as int]);
            lemma_args_size(a, i as int + 1, n as int);
        }
        if len >= 8192 || len + 1 > 8192 - total {
            return false;
        }
        total = total + len + 1;
        i += 1;
    }
    true
}

impl Kernel {
    /// Whether the first task can be made from the file `elf`: the file
    /// can be loaded, an identifier is left, and the free frames suffice for
    /// the program and a kernel stack.
    pub open spec fn startable(&self, elf: Seq<u8>) -> bool {
        &&& elf_loadable(elf)
        &&& self.res.pid_allocator.next_pid() <= MAX_PID
        &&& self.res.frame_allocator.free_count() >= elf_frames_needed(elf)
            + KernelStack::frames_needed(self.res.pid_allocator.next_pid())
    }

    /// Whether the first task can be made from the file `elf_data`.
    pub fn can_start(&self, elf_data: &[u8]) -> (r: bool)
        requires
            self.res.frame_allocator.wf(),
        ensures
            r == self.startable(elf_data@),
    {
        if !elf_fits(elf_data) {
            return false;
        }
        let pid = self.res.pid_allocator.peek();
        if pid > MAX_PID {
            return false;
        }
        self.res.frame_allocator.free_frames() >= elf_frames(elf_data) + KernelStack::frames_for(
            pid,
        ) as u128
    }

    /// Whether the running task can have a child: a task runs, an
    /// identifier is left, and the free frames suffice for a copy of its
    /// address space and a kernel stack.
    pub open spec fn forkable(&self) -> bool {
        &&& self.processor.current is Some
        &&& self.res.pid_allocator.next_pid() <= MAX_PID
        &&& self.res.frame_allocator.free_count() >= 3 + areas_needed(
            self.task(self.processor.current->Some_0).inner.memory_set.areas@,
        ) + KernelStack::frames_needed(self.res.pid_allocator.next_pid())
    }

    /// Whether the running task can have a child.
    pub fn can_fork(&self) -> (r: bool)
        requires
            self.wf(),
        ensures
            r == self.forkable(),
    {
        proof {
            reveal(Kernel::sched_ok);
            reveal(Kernel::tasks_ok);
        }
        let p = match self.processor.current {
            Some(p) => p,
            None => {
                return false;
            },
        };
        let pid = self.res.pid_allocator.peek();
        if pid > MAX_PID {
            return false;
        }
        assert(self.task(p).inner.memory_set.wf());
        let copy = match &self.tasks[p] {
            Some(t) => frames_for_areas(&t.inner.memory_set.areas),
            None => 0,
        };
        self.res.frame_allocator.free_frames() >= 3 + copy + KernelStack::frames_for(pid) as u128
    }

    /// Whether the running task can take up the program of the file `elf`
    /// with the arguments `args`: a task runs, the file can be loaded, the
    /// arguments fit on the stack, and the free frames suffice for the
    /// program.
    pub open spec fn exec_ready(&self, elf: Seq<u8>, args: Seq<String>) -> bool {
        &&& self.processor.current is Some
        &&& elf_loadable(elf)
        &&& args_fit(arg_seqs(args))
        &&& self.res.frame_allocator.free_count() >= elf_frames_needed(elf)
    }

    /// Whether the running task can take up the program of the file
    /// `elf_data` with the arguments `args`.
    pub fn can_exec(&self, elf_data: &[u8], args: &Vec<String>) -> (r: bool)
        requires
            self.res.frame_allocator.wf(),
        ensures
            r == self.exec_ready(elf_data@, args@),
    {
        if self.processor.current.is_none() {
            return false;
        }
        if !elf_fits(elf_data) {
            return false;
        }
        if !args_fit_stack(args) {
            return false;
        }
        self.res.frame_allocator.free_frames() >= elf_frames(elf_data)
    }

    /// Whether the running task can wait for `pid` with `ptr` as the
    /// place of the exit code: a task runs, and where a child is there to
    /// collect, four bytes at `ptr` lie in one page of a framed area of the
    /// task.
    pub open spec fn wait_ready(&self, pid: isize, ptr: u64) -> bool {
        &&& self.processor.current is Some
        &&& waitpid_result(self, self.processor.current->Some_0, pid) >= 0 ==> self.task(
            self.processor.current->Some_0,
        ).inner.memory_set.backed(vpn_of(ptr)) && ptr % 4096 <= 4092
    }

    /// Whether the running task can wait for `pid` with `ptr` as the
    /// place of the exit code.
    pub fn can_wait(&self, pid: isize, ptr: u64) -> (r: bool)
        requires
            self.wf(),
        ensures
            r == self.wait_ready(pid, ptr),
    {
        let p = match self.processor.current {
            Some(p) => p,
            None => {
                return false;
            },
        };
        proof {
            Self::lemma_current(self);
            reveal(Kernel::tasks_ok);
        }
        if !self.any_child_awaited(p, pid) {
            return true;
        }
        if self.find_zombie(p, pid).is_none() {
            return true;
        }
        assert(self.task(p).inner.memory_set.wf());
        let framed = match &self.tasks[p] {
            Some(t) => t.inner.memory_set.is_backed(ptr),
            None => false,
        };
        framed && ptr % 4096 <= 4092
    }

    /// Whether the running task can end: a task runs, and it is not the
    /// initial task, which takes the children of tasks that end.
    pub open spec fn exit_ready(&self) -> bool {
        self.processor.current is Some && self.processor.current != Some(self.initproc)
    }

    /// Whether the running task can end.
    pub fn can_exit(&self) -> (r: bool)
        ensures
            r == self.exit_ready(),
    {
        match self.processor.current {
            Some(p) => p != self.initproc,
            None => false,
        }
    }
}

} // verus!
