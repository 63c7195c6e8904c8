//! The trap context: the registers of a user program as they are saved on
//! a trap, and what the trap entry code needs to enter the kernel.
use vstd::prelude::*;

verus! {

/// Number of 64-bit words of a trap context: 32 registers, then
/// `sstatus`, `sepc`, `kernel_satp`, `kernel_sp` and `trap_handler`.
pub const TRAP_CONTEXT_WORDS: usize = 37;

/// The bit of `sstatus` that holds the privilege level before the trap.
pub const SSTATUS_SPP: u64 = 0x100;

/// The saved registers of a user program and the kernel's entry data.
#[derive(Copy, Clone, Debug)]
pub struct TrapContext {
    /// The integer registers `x0` to `x31`.
    pub x: [u64; 32],
    /// The supervisor status register.
    pub sstatus: u64,
    /// The address at which the program goes on.
    pub sepc: u64,
    /// The `satp` value of the kernel's address space.
    pub kernel_satp: u64,
    /// The top of the kernel stack of the task.
    pub kernel_sp: u64,
    /// The address of the kernel's trap handler.
    pub trap_handler: u64,
}

impl TrapContext {
    /// The context as the 37 words of its layout in memory, in order.
    pub open spec fn words(&self) -> Seq<u64> {
        self.x@ + seq![self.sstatus, self.sepc, self.kernel_satp, self.kernel_sp, self.trap_handler]
    }

    /// The context of a program that is about to start: every register
    /// zero but the stack pointer, the entry point as the address to go on
    /// at, and user mode as the privilege level to return to.
    pub open spec fn spec_app_init(
        entry: u64,
        sp: u64,
        kernel_satp: u64,
        kernel_sp: u64,
        trap_handler: u64,
        sstatus: u64,
    ) -> Seq<u64> {
        Seq::new(
            37,
            |i: int|
                if i == 2 {
                    sp
                } else if i < 32 {
                    0u64
                } else if i == 32 {
                    sstatus & !0x100u64
                } else if i == 33 {
                    entry
                } else if i == 34 {
                    kernel_satp
                } else if i == 35 {
                    kernel_sp
                } else {
                    trap_handler
                },
        )
    }

    /// Sets the stack pointer, register `x2`.
    pub fn set_sp(&mut self, sp: u64)
        ensures
            final(self).x@ == old(self).x@.update(2, sp),
            final(self).sstatus == old(self).sstatus,
            final(self).sepc == old(self).sepc,
            final(self).kernel_satp == old(self).kernel_satp,
            final(self).kernel_sp == old(self).kernel_sp,
            final(self).trap_handler == old(self).trap_handler,
    {
        self.x[2] = sp;
    }

    /// The context of a program that is about to start at `entry` with
    /// its stack at `sp`. `sstatus` is the present value of the status
    /// register; the privilege level to return to is set to user mode.
    pub fn app_init_context(
        entry: u64,
        sp: u64,
        kernel_satp: u64,
        kernel_sp: u64,
        trap_handler: u64,
        sstatus: u64,
    ) -> (r: Self)
        ensures
            r.words() == Self::spec_app_init(
                entry,
                sp,
                kernel_satp,
                kernel_sp,
                trap_handler,
                sstatus,
            ),
    {
        let mut cx = Self {
            x: [0u64;32],
            sstatus: sstatus & !SSTATUS_SPP,
            sepc: entry,
            kernel_satp,
            kernel_sp,
            trap_handler,
        };
        cx.set_sp(sp);
        assert(cx.words() =~= Self::spec_app_init(
            entry,
            sp,
            kernel_satp,
            kernel_sp,
            trap_handler,
            sstatus,
        ));
        cx
    }

    /// The context as the 37 words of its layout in memory.
    pub fn to_words(&self) -> (r: Vec<u64>)
        ensures
            r@ == self.words(),
    {
        let mut r: Vec<u64> = Vec::new();
        let mut i: usize = 0;
        while i < 32
            invariant
                i <= 32,
                r@ == self.x@.take(i as int),
            decreases 32 - i,
        {
            r.push(self.x[i]);
            assert(r@ =~= self.x@.take(i + 1));
            i += 1;
        }
        r.push(self.sstatus);
        r.push(self.sepc);
        r.push(self.kernel_satp);
        r.push(self.kernel_sp);
        r.push(self.trap_handler);
        assert(r@ =~= self.words());
        r
    }

    /// The context whose layout in memory is the 37 words `words`.
    pub fn from_words(words: &[u64]) -> (r: Self)
        requires
            words@.len() == 37,
        ensures
            r.words() == words@,
    {
        let mut x = [0u64;32];
        let mut i: usize = 0;
        while i < 32
            invariant
                i <= 32,
                words@.len() == 37,
                forall|j: int| 0 <= j < i ==> x@[j] == words@[j],
            decreases 32 - i,
        {
            x[i] = words[i];
            i += 1;
        }
        let r = Self {
            x,
            sstatus: words[32],
            sepc: words[33],
            kernel_satp: words[34],
            kernel_sp: words[35],
            trap_handler: words[36],
        };
        assert(r.words() =~= words@);
        r
    }

    /// Number of the system call that the program asks for, from register
    /// `a7`.
    pub fn syscall_id(&self) -> (r: usize)
        ensures
            r == self.x@[17] as usize,
    {
        #[verifier::truncate]
        (self.x[17] as usize)
    }

    /// The arguments of the system call that the program asks for, from
    /// registers `a0`, `a1` and `a2`.
    pub fn syscall_args(&self) -> (r: [usize; 3])
        ensures
            r@ == seq![self.x@[10] as usize, self.x@[11] as usize, self.x@[12] as usize],
    {
        let r = [
            #[verifier::truncate]
            (self.x[10] as usize),
            #[verifier::truncate]
            (self.x[11] as usize),
            #[verifier::truncate]
            (self.x[12] as usize),
        ];
        assert(r@ =~= seq![self.x@[10] as usize, self.x@[11] as usize, self.x@[12] as usize]);
        r
    }

    /// Sets the value that a system call returns to the program, in
    /// register `a0`.
    pub fn set_return(&mut self, value: isize)
        ensures
            final(self).x@ == old(self).x@.update(10, value as u64),
            final(self).sstatus == old(self).sstatus,
            final(self).sepc == old(self).sepc,
            final(self).kernel_satp == old(self).kernel_satp,
            final(self).kernel_sp == old(self).kernel_sp,
            final(self).trap_handler == old(self).trap_handler,
    {
        self.x[10] = #[verifier::truncate]
        (value as u64);
    }

    /// Moves the address at which the program goes on over the
    /// instruction of four bytes that made the system call.
    pub fn step_over_call(&mut self)
        ensures
            final(self).x@ == old(self).x@,
            final(self).sstatus == old(self).sstatus,
            final(self).sepc == if old(self).sepc <= u64::MAX - 4 {
                old(self).sepc + 4
            } else {
                old(self).sepc + 4 - 0x1_0000_0000_0000_0000
            },
            final(self).kernel_satp == old(self).kernel_satp,
            final(self).kernel_sp == old(self).kernel_sp,
            final(self).trap_handler == old(self).trap_handler,
    {
        self.sepc = if self.sepc <= u64::MAX - 4 {
            self.sepc + 4
        } else {
            self.sepc - (u64::MAX - 3)
        };
    }
}

} // verus!
