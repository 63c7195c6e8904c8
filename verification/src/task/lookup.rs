//! Finding the address space that a `satp` value selects.
use crate::mm::address::PhysPageNum;
use crate::mm::memory_set::MemorySet;
use crate::task::kernel::Kernel;
use vstd::prelude::*;

verus! {

/// The `satp` value that selects the address space `space`.
pub open spec fn token_of(space: &MemorySet) -> u64 {
    (8u64 << 60) | space.page_table.root_ppn.0
}

impl Kernel {
    /// No two address spaces have the same `satp` value: the spaces of two
    /// tasks differ in it, and the space of a task differs in it from the
    /// kernel's space.
    pub proof fn lemma_token_unique(&self, p: usize, q: usize)
        requires
            self.wf(),
            self.live(p),
            self.live(q),
            p != q,
        ensures
            token_of(&self.task(p).inner.memory_set) != token_of(&self.task(q).inner.memory_set),
            token_of(&self.task(p).inner.memory_set) != token_of(&self.res.kernel_space),
    {
        reveal(Kernel::tasks_ok);
        reveal(Kernel::frames_apart);
        reveal(MemorySet::has_frame);
        let sp = self.task(p).inner.memory_set;
        let sq = self.task(q).inner.memory_set;
        let sk = self.res.kernel_space;
        let a = sp.page_table.root_ppn.0;
        let b = sq.page_table.root_ppn.0;
        let c = sk.page_table.root_ppn.0;
        assert(sp.wf() && sq.wf() && sk.wf());
        assert(sp.page_table.frames[0].ppn == PhysPageNum(a));
        assert(sq.page_table.frames[0].ppn == PhysPageNum(b));
        assert(sk.page_table.frames[0].ppn == PhysPageNum(c));
        assert(sp.page_table.owns(PhysPageNum(a)));
        assert(sq.page_table.owns(PhysPageNum(b)));
        assert(sk.page_table.owns(PhysPageNum(c)));
        assert(sp.has_frame(a));
        assert(sq.has_frame(b));
        assert(sk.has_frame(c));
        assert(!(sp.has_frame(a) && sq.has_frame(a)));
        assert(!(sp.has_frame(a) && sk.has_frame(a)));
        assert(a != b && a != c);
        assert(a < 0x1000_0000_0000 && b < 0x1000_0000_0000 && c < 0x1000_0000_0000);
        assert(a < 0x1000_0000_0000 && b < 0x1000_0000_0000 && (8u64 << 60) | a == (8u64 << 60) | b
            ==> a == b) by (bit_vector);
        assert(a < 0x1000_0000_0000 && c < 0x1000_0000_0000 && (8u64 << 60) | a == (8u64 << 60) | c
            ==> a == c) by (bit_vector);
    }

    /// Whether `token` selects the address space of a task with an
    /// identifier below `n`.
    pub open spec fn token_among(&self, token: u64, n: int) -> bool {
        exists|q: usize| q < n && self.live(q) && token_of(&#[trigger] self.task(q).inner.memory_set) == token
    }

    /// The address space that the `satp` value `token` selects: the
    /// kernel's space, else the space of the task with the lowest identifier
    /// that has this token, or nothing where it selects no space.
    pub fn space_of_token(&self, token: u64) -> (r: Option<&MemorySet>)
        ensures
            r is Some <==> token_of(&self.res.kernel_space) == token || self.token_among(
                token,
                self.tasks@.len() as int,
            ),
            r matches Some(space) ==> token_of(space) == token,
            r matches Some(space) ==> if token_of(&self.res.kernel_space) == token {
                *space == self.res.kernel_space
            } else {
                exists|p: usize|
                    self.live(p) && *space == (#[trigger] self.task(p)).inner.memory_set
                        && !self.token_among(token, p as int)
            },
    {
        if self.res.kernel_space.token() == token {
            return Some(&self.res.kernel_space);
        }
        let mut p: usize = 0;
        while p < self.tasks.len()
            invariant
                p <= self.tasks@.len(),
                token_of(&self.res.kernel_space) != token,
                !self.token_among(token, p as int),
            decreases self.tasks@.len() - p,
        {
            match &self.tasks[p] {
                Some(t) => {
                    if t.inner.memory_set.token() == token {
                        assert(self.live(p));
                        assert(t.inner.memory_set == self.task(p).inner.memory_set);
                        assert(self.token_among(token, self.tasks@.len() as int));
                        return Some(&t.inner.memory_set);
                    }
                },
                None => {},
            }
            proof {
                if self.token_among(token, p + 1) {
                    let q = choose|q: usize|
                        q < p + 1 && self.live(q) && token_of(
                            &#[trigger] self.task(q).inner.memory_set,
                        ) == token;
                    if q < p {
                        assert(self.token_among(token, p as int));
                    }
                }
            }
            p += 1;
        }
        None
    }
}

} // verus!
