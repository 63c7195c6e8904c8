//! Sv39 page-table entries and the three-level page table.
use crate::mm::address::{lemma_masks, lemma_shift_page, PhysAddr, PhysPageNum, VirtAddr, VirtPageNum, vpn_indexes};
use crate::mm::frame_allocator::{
    frame_alloc, lemma_with_word, lemma_zero_word, word_at, zeros, FrameTracker, StackFrameAllocator,
};
use vstd::prelude::*;

verus! {

/// Valid: the entry is in use.
pub const PTE_V: u8 = 1;

/// Readable.
pub const PTE_R: u8 = 2;

/// Writable.
pub const PTE_W: u8 = 4;

/// Executable.
pub const PTE_X: u8 = 8;

/// Accessible in user mode.
pub const PTE_U: u8 = 16;

/// Global mapping.
pub const PTE_G: u8 = 32;

/// Accessed since the bit was last cleared.
pub const PTE_A: u8 = 64;

/// Written since the bit was last cleared.
pub const PTE_D: u8 = 128;

/// The eight flag bits of a page-table entry.
#[derive(Copy, Clone, Debug, PartialEq, Eq, Structural)]
pub struct PTEFlags {
    /// The flags, one bit each, `V` lowest.
    pub bits: u8,
}

impl PTEFlags {
    /// No flag set.
    pub fn empty() -> (r: Self)
        ensures
            r.bits == 0,
    {
        PTEFlags { bits: 0 }
    }

    /// The flags whose bits are set in `bits`. Every bit is a flag, so every
    /// value is accepted.
    pub fn from_bits(bits: u8) -> (r: Option<Self>)
        ensures
            r == Some(PTEFlags { bits }),
    {
        Some(PTEFlags { bits })
    }

    /// The flags as a byte.
    pub fn bits(&self) -> (r: u8)
        ensures
            r == self.bits,
    {
        self.bits
    }

    /// Whether every flag of `other` is set in `self`.
    pub fn contains(&self, other: PTEFlags) -> (r: bool)
        ensures
            r == (self.bits & other.bits == other.bits),
    {
        self.bits & other.bits == other.bits
    }

    /// The flags set in `self` or in `other`.
    pub fn union(self, other: PTEFlags) -> (r: Self)
        ensures
            r.bits == self.bits | other.bits,
    {
        PTEFlags { bits: self.bits | other.bits }
    }

    /// The flags set in both `self` and `other`.
    pub fn intersection(self, other: PTEFlags) -> (r: Self)
        ensures
            r.bits == self.bits & other.bits,
    {
        PTEFlags { bits: self.bits & other.bits }
    }

    /// Whether no flag is set.
    pub fn is_empty(&self) -> (r: bool)
        ensures
            r == (self.bits == 0),
    {
        self.bits == 0
    }
}

/// Number of bits below the page number in an entry.
pub const PTE_PPN_OFFSET: u64 = 10;

/// Width of the page number in an entry.
pub const PTE_PPN_WIDTH: u64 = 44;

/// A page-table entry: ten reserved bits, a 44-bit physical page number,
/// two bits for software, and the eight flags `D A G U X W R V`.
#[derive(Copy, Clone, Debug, PartialEq, Eq, Structural)]
pub struct PageTableEntry {
    /// The entry as stored in a table.
    pub bits: u64,
}

impl PageTableEntry {
    /// The entry that `new` builds from a page number and flags.
    pub open spec fn spec_new(ppn: PhysPageNum, flags: PTEFlags) -> PageTableEntry {
        PageTableEntry { bits: (ppn.0 << 10) | (flags.bits as u64) }
    }

    /// The page number held in the entry.
    pub open spec fn spec_ppn(&self) -> PhysPageNum {
        PhysPageNum((self.bits >> 10) & 0xfff_ffff_ffff)
    }

    /// The flags held in the entry.
    pub open spec fn spec_flags(&self) -> PTEFlags {
        PTEFlags { bits: self.bits as u8 }
    }

    /// Whether the `V` flag is set.
    pub open spec fn spec_is_valid(&self) -> bool {
        self.bits as u8 & 1 != 0
    }

    /// An entry that points to frame `ppn` with the given flags.
    pub fn new(ppn: PhysPageNum, flags: PTEFlags) -> (r: Self)
        ensures
            r == Self::spec_new(ppn, flags),
    {
        PageTableEntry { bits: ppn.0 << PTE_PPN_OFFSET | flags.bits as u64 }
    }

    /// The all-zero entry, which is not valid.
    pub fn empty() -> (r: Self)
        ensures
            r.bits == 0,
            !r.spec_is_valid(),
    {
        proof {
            lemma_flag_bits(0);
        }
        PageTableEntry { bits: 0 }
    }

    /// The page number held in the entry.
    pub fn ppn(&self) -> (r: PhysPageNum)
        ensures
            r == self.spec_ppn(),
            r.0 < 0x1000_0000_0000,
    {
        proof {
            lemma_masks(0);
        }
        let v: u64 = self.bits >> PTE_PPN_OFFSET & ((1u64 << PTE_PPN_WIDTH) - 1);
        proof {
            lemma_masks(v);
            let b = self.bits;
            assert(((b >> 10) & 0xfff_ffff_ffff) < 0x1000_0000_0000) by (bit_vector);
        }
        PhysPageNum::from(v)
    }

    /// The flags held in the entry.
    pub fn flags(&self) -> (r: PTEFlags)
        ensures
            r == self.spec_flags(),
    {
        match PTEFlags::from_bits(self.bits as u8) {
            Some(f) => f,
            None => PTEFlags::empty(),
        }
    }

    /// Whether the entry is in use.
    pub fn is_valid(&self) -> (r: bool)
        ensures
            r == self.spec_is_valid(),
    {
        !self.flags().intersection(PTEFlags { bits: PTE_V }).is_empty()
    }

    /// Whether the page may be read.
    pub fn readable(&self) -> (r: bool)
        ensures
            r == (self.spec_flags().bits & 2 != 0),
    {
        !self.flags().intersection(PTEFlags { bits: PTE_R }).is_empty()
    }

    /// Whether the page may be written.
    pub fn writable(&self) -> (r: bool)
        ensures
            r == (self.spec_flags().bits & 4 != 0),
    {
        !self.flags().intersection(PTEFlags { bits: PTE_W }).is_empty()
    }

    /// Whether code may be run from the page.
    pub fn executable(&self) -> (r: bool)
        ensures
            r == (self.spec_flags().bits & 8 != 0),
    {
        !self.flags().intersection(PTEFlags { bits: PTE_X }).is_empty()
    }
}

/// Facts about the flag bits that the proofs of this crate use.
pub proof fn lemma_flag_bits(f: u8)
    ensures
        0u64 as u8 & 1 == 0,
        1u8 & 1 != 0,
        43u8 & 1 != 0,
        (f | 1) & 1 != 0,
        2u8 | 8u8 == 10u8,
        2u8 | 4u8 == 6u8,
        2u8 | 4u8 | 16u8 == 22u8,
        42u8 | 1u8 == 43u8,
{
    assert(0u64 as u8 & 1 == 0 && 1u8 & 1 != 0 && 43u8 & 1 != 0 && (f | 1) & 1 != 0 && 2u8 | 8u8
        == 10u8 && 2u8 | 4u8 == 6u8 && 2u8 | 4u8 | 16u8 == 22u8 && 42u8 | 1u8 == 43u8)
        by (bit_vector);
}

/// An entry built from a page number of at most 44 bits and a set of
/// flags gives back that page number and those flags; it is valid exactly
/// when the `V` flag is among them.
pub proof fn lemma_entry_round_trip(ppn: PhysPageNum, flags: PTEFlags)
    requires
        ppn.0 < 0x1000_0000_0000,
    ensures
        PageTableEntry::spec_new(ppn, flags).spec_ppn() == ppn,
        PageTableEntry::spec_new(ppn, flags).spec_flags() == flags,
        PageTableEntry::spec_new(ppn, flags).spec_is_valid() == (flags.bits & 1 != 0),
{
    let p = ppn.0;
    let f = flags.bits;
    assert((p < 0x1000_0000_0000 ==> ((((p << 10) | (f as u64)) >> 10) & 0xfff_ffff_ffff) == p) && (
    ((p << 10) | (f as u64)) as u8) == f) by (bit_vector);
}

/// Mapping a page sets `V` beside the flags asked for: the stored entry
/// gives back the page number and the flags with `V` added.
pub proof fn lemma_mapped_entry(ppn: PhysPageNum, flags: PTEFlags)
    requires
        ppn.0 < 0x1000_0000_0000,
    ensures
        PageTableEntry::spec_new(ppn, PTEFlags { bits: flags.bits | 1 }).spec_ppn() == ppn,
        PageTableEntry::spec_new(ppn, PTEFlags { bits: flags.bits | 1 }).spec_flags().bits
            == flags.bits | 1,
        PageTableEntry::spec_new(ppn, PTEFlags { bits: flags.bits | 1 }).spec_is_valid(),
{
    lemma_entry_round_trip(ppn, PTEFlags { bits: flags.bits | 1 });
    lemma_flag_bits(flags.bits);
}


/// Place of a middle table in the tree: the root index that leads to it.
pub open spec fn mid_code(i0: int) -> int {
    i0
}

/// Place of a leaf table in the tree: the root and middle indices that
/// lead to it.
pub open spec fn leaf_code(i0: int, i1: int) -> int {
    512 + 512 * i0 + i1
}

/// Whether two page numbers select the same leaf table.
pub open spec fn same_leaf_table(a: VirtPageNum, b: VirtPageNum) -> bool {
    vpn_indexes(a.0)[0] == vpn_indexes(b.0)[0] && vpn_indexes(a.0)[1] == vpn_indexes(b.0)[1]
}

/// Whether two page numbers select the same entry of the same leaf table,
/// which they do exactly when their low 27 bits agree.
pub open spec fn same_slot(a: VirtPageNum, b: VirtPageNum) -> bool {
    same_leaf_table(a, b) && vpn_indexes(a.0)[2] == vpn_indexes(b.0)[2]
}

/// The entry with no bit set.
pub open spec fn zero_entry() -> PageTableEntry {
    PageTableEntry { bits: 0 }
}

/// The entry by which a table points to the table in frame `ppn`.
pub open spec fn link_entry(ppn: PhysPageNum) -> PageTableEntry {
    PageTableEntry::spec_new(ppn, PTEFlags { bits: 1 })
}

/// An Sv39 page table: the root frame and every frame that holds one of
/// its middle or leaf tables.
pub struct PageTable {
    /// Number of the root frame.
    pub root_ppn: PhysPageNum,
    /// The frames of the tables, the root first.
    pub frames: Vec<FrameTracker>,
    /// For each frame its place in the tree: -1 for the root, `mid_code`
    /// or `leaf_code` for the others.
    pub roles: Ghost<Seq<int>>,
    /// For each place in the tree that has a table, the index of its
    /// frame.
    pub slots: Ghost<Map<int, int>>,
}

impl PageTable {
    /// Entry `idx` of the table in frame number `k` of `frames`.
    pub open spec fn entry(&self, k: int, idx: int) -> PageTableEntry {
        PageTableEntry { bits: word_at(self.frames[k]@, idx * 8) }
    }

    /// Whether the table holds frame `ppn`.
    pub open spec fn owns(&self, ppn: PhysPageNum) -> bool {
        exists|k: int| 0 <= k < self.frames.len() && self.frames[k].ppn == ppn
    }

    /// Index in `frames` of frame `ppn`.
    pub open spec fn index_of(&self, ppn: PhysPageNum) -> int {
        choose|k: int| 0 <= k < self.frames.len() && self.frames[k].ppn == ppn
    }

    /// What a lookup needs: whole frames with distinct numbers, the root
    /// first.
    pub open spec fn readable(&self) -> bool {
        &&& forall|k: int| 0 <= k < self.frames.len() ==> (#[trigger] self.frames[k]).wf()
        &&& forall|j: int, k: int|
            0 <= j < k < self.frames.len() ==> (#[trigger] self.frames[j]).ppn != (
            #[trigger] self.frames[k]).ppn
        &&& self.frames.len() > 0 ==> self.frames[0].ppn == self.root_ppn
    }

    /// The entry that the three-level lookup of `vpn` ends at: `None` where
    /// the root or the middle table has no valid entry for it (or the table
    /// it points to is not held here), else the entry of the leaf table,
    /// valid or not.
    #[verifier::opaque]
    pub open spec fn walk(&self, vpn: VirtPageNum) -> Option<PageTableEntry> {
        let i = vpn_indexes(vpn.0);
        if self.frames.len() == 0 {
            None
        } else {
            let e0 = self.entry(0, i[0] as int);
            if !e0.spec_is_valid() || !self.owns(e0.spec_ppn()) {
                None
            } else {
                let e1 = self.entry(self.index_of(e0.spec_ppn()), i[1] as int);
                if !e1.spec_is_valid() || !self.owns(e1.spec_ppn()) {
                    None
                } else {
                    Some(self.entry(self.index_of(e1.spec_ppn()), i[2] as int))
                }
            }
        }
    }

    /// Whether `vpn` is mapped: its lookup ends at a valid entry.
    pub open spec fn is_mapped(&self, vpn: VirtPageNum) -> bool {
        self.walk(vpn) is Some && self.walk(vpn)->Some_0.spec_is_valid()
    }

    /// Number of tables that are missing on the way to the leaf entry of
    /// `vpn`.
    pub open spec fn missing_levels(&self, vpn: VirtPageNum) -> int {
        let i = vpn_indexes(vpn.0);
        if !self.slots@.contains_key(mid_code(i[0] as int)) {
            2
        } else if !self.slots@.contains_key(leaf_code(i[0] as int, i[1] as int)) {
            1
        } else {
            0
        }
    }

    /// The tables form a tree below the root: every frame but the root is
    /// pointed to by exactly one valid entry of the table above it, those
    /// entries carry the flag `V` alone, and every other entry of the root
    /// and the middle tables is zero.
    pub open spec fn wf(&self) -> bool {
        &&& self.frames.len() >= 1
        &&& self.roles@.len() == self.frames.len()
        &&& self.frames[0].ppn == self.root_ppn
        &&& self.roles@[0] == -1
        &&& forall|k: int|
            0 <= k < self.frames.len() ==> (#[trigger] self.frames[k]).wf() && self.frames[k].ppn.0
                < 0x1000_0000_0000
        &&& forall|j: int, k: int|
            0 <= j < k < self.frames.len() ==> (#[trigger] self.frames[j]).ppn != (
            #[trigger] self.frames[k]).ppn
        &&& forall|k: int|
            0 <= k < self.frames.len() ==> -1 <= #[trigger] self.roles@[k] < 512 + 512 * 512
                && self.slots@.contains_key(self.roles@[k]) && self.slots@[self.roles@[k]] == k
        &&& forall|c: int| #[trigger]
            self.slots@.contains_key(c) ==> 0 <= self.slots@[c] < self.frames.len()
                && self.roles@[self.slots@[c]] == c
        &&& forall|i0: int|
            0 <= i0 < 512 ==> #[trigger] self.entry(0, i0) == if self.slots@.contains_key(i0) {
                link_entry(self.frames[self.slots@[i0]].ppn)
            } else {
                zero_entry()
            }
        &&& forall|i0: int, i1: int|
            0 <= i0 < 512 && 0 <= i1 < 512 && self.slots@.contains_key(i0) ==> #[trigger] self.entry(
                self.slots@[i0],
                i1,
            ) == if self.slots@.contains_key(leaf_code(i0, i1)) {
                link_entry(self.frames[self.slots@[leaf_code(i0, i1)]].ppn)
            } else {
                zero_entry()
            }
        &&& forall|i0: int, i1: int|
            0 <= i0 < 512 && 0 <= i1 < 512 && #[trigger] self.slots@.contains_key(leaf_code(i0, i1))
                ==> self.slots@.contains_key(i0)
    }

    /// Every frame of the table is handed out by `allocator` at present.
    pub open spec fn owned_by(&self, allocator: &StackFrameAllocator) -> bool {
        forall|k: int|
            0 <= k < self.frames.len() ==> allocator.is_allocated((#[trigger] self.frames[k]).ppn.0)
    }

    /// The lookup of `vpn` read off the tree: the entry of the leaf table
    /// where the tree has one for `vpn`.
    pub open spec fn walk_tree(&self, vpn: VirtPageNum) -> Option<PageTableEntry> {
        let i = vpn_indexes(vpn.0);
        if self.slots@.contains_key(i[0] as int) && self.slots@.contains_key(
            leaf_code(i[0] as int, i[1] as int),
        ) {
            Some(self.entry(self.slots@[leaf_code(i[0] as int, i[1] as int)], i[2] as int))
        } else {
            None
        }
    }

    /// In a well-formed table the lookup through the stored entries ends
    /// where the tree says.
    pub proof fn lemma_walk(&self, vpn: VirtPageNum)
        requires
            self.wf(),
        ensures
            self.walk(vpn) == self.walk_tree(vpn),
            ({
                let i0 = vpn_indexes(vpn.0)[0] as int;
                let i1 = vpn_indexes(vpn.0)[1] as int;
                let e0 = self.entry(0, i0);
                &&& e0.spec_is_valid() == self.slots@.contains_key(i0)
                &&& self.slots@.contains_key(i0) ==> {
                    let e1 = self.entry(self.slots@[i0], i1);
                    &&& self.owns(e0.spec_ppn())
                    &&& self.index_of(e0.spec_ppn()) == self.slots@[i0]
                    &&& e1.spec_is_valid() == self.slots@.contains_key(leaf_code(i0, i1))
                    &&& self.slots@.contains_key(leaf_code(i0, i1)) ==> self.owns(e1.spec_ppn())
                        && self.index_of(e1.spec_ppn()) == self.slots@[leaf_code(i0, i1)]
                }
            }),
    {
        reveal(PageTable::walk);
        let i = vpn_indexes(vpn.0);
        let i0 = i[0] as int;
        let i1 = i[1] as int;
        let e0 = self.entry(0, i0);
        lemma_flag_bits(0);
        if self.slots@.contains_key(i0) {
            let j = self.slots@[i0];
            lemma_entry_round_trip(self.frames[j].ppn, PTEFlags { bits: 1 });
            assert(self.owns(e0.spec_ppn()));
            assert(self.index_of(e0.spec_ppn()) == j);
            let e1 = self.entry(j, i1);
            if self.slots@.contains_key(leaf_code(i0, i1)) {
                let k = self.slots@[leaf_code(i0, i1)];
                lemma_entry_round_trip(self.frames[k].ppn, PTEFlags { bits: 1 });
                assert(self.owns(e1.spec_ppn()));
                assert(self.index_of(e1.spec_ppn()) == k);
            }
        }
    }

    /// A table with a fresh, empty root.
    pub fn new(allocator: &mut StackFrameAllocator) -> (r: Self)
        requires
            old(allocator).wf(),
            old(allocator).free_count() >= 1,
        ensures
            r.wf(),
            r.owned_by(final(allocator)),
            final(allocator).wf(),
            final(allocator).end == old(allocator).end,
            final(allocator).free_count() == old(allocator).free_count() - 1,
            r.frames.len() == 1,
            Some(r.root_ppn.0) == old(allocator).next_free(),
            !old(allocator).is_allocated(r.root_ppn.0),
            forall|p: u64|
                final(allocator).is_allocated(p) == (old(allocator).is_allocated(p) || p
                    == r.root_ppn.0),
            forall|v: VirtPageNum| r.walk(v) is None,
    {
        let frame = frame_alloc(allocator).unwrap();
        let root_ppn = frame.ppn;
        let mut frames: Vec<FrameTracker> = Vec::new();
        frames.push(frame);
        let roles: Ghost<Seq<int>> = Ghost(Seq::<int>::empty().push(-1int));
        let slots: Ghost<Map<int, int>> = Ghost(Map::<int, int>::empty().insert(-1int, 0int));
        let r = PageTable { root_ppn, frames, roles, slots };
        proof {
            assert forall|i0: int| 0 <= i0 < 512 implies #[trigger] r.entry(0, i0) == zero_entry() by {
                lemma_zero_word(4096, i0 * 8);
            }
            assert(r.wf());
            assert forall|v: VirtPageNum| r.walk(v) is None by {
                r.lemma_walk(v);
            }
        }
        r
    }

    /// A view of the table whose root is named by `satp`: it names the
    /// root and holds no frame. The frames of a table belong to the table
    /// that was made with `new`, so no lookup through the view finds
    /// anything. To translate the pointers of a program, take the address
    /// space that `satp` selects from `Kernel::space_of_token` and use its
    /// page table.
    pub fn from_token(satp: u64) -> (r: Self)
        ensures
            r.root_ppn.0 == satp as int % 0x1000_0000_0000,
            r.frames.len() == 0,
            r.readable(),
            forall|v: VirtPageNum| r.walk(v) is None,
    {
        proof {
            reveal(PageTable::walk);
            lemma_masks(satp);
            lemma_masks((satp & 0xfff_ffff_ffff) as u64);
        }
        let roles: Ghost<Seq<int>> = Ghost(Seq::empty());
        let slots: Ghost<Map<int, int>> = Ghost(Map::empty());
        PageTable {
            root_ppn: PhysPageNum::from(satp & ((1u64 << 44) - 1)),
            frames: Vec::new(),
            roles,
            slots,
        }
    }

    /// The value for the `satp` register that selects this table: mode 8
    /// (Sv39) in the top four bits, the root's page number below.
    pub fn token(&self) -> (r: u64)
        ensures
            r == (8u64 << 60) | self.root_ppn.0,
    {
        8u64 << 60 | self.root_ppn.0
    }

    /// Index in `frames` of frame `ppn`, if the table holds it.
    pub fn frame_index(&self, ppn: PhysPageNum) -> (r: Option<usize>)
        requires
            self.readable(),
        ensures
            r is Some <==> self.owns(ppn),
            r is Some ==> r->Some_0 < self.frames.len() && r->Some_0 == self.index_of(ppn)
                && self.frames[r->Some_0 as int].ppn == ppn,
    {
        let mut k: usize = 0;
        while k < self.frames.len()
            invariant
                self.readable(),
                k <= self.frames.len(),
                forall|j: int| 0 <= j < k ==> self.frames[j].ppn != ppn,
            decreases self.frames.len() - k,
        {
            if self.frames[k].ppn.0 == ppn.0 {
                assert(self.frames[k as int].ppn == ppn);
                assert(self.owns(ppn));
                let ghost c = self.index_of(ppn);
                assert(self.frames[c].ppn == self.frames[k as int].ppn);
                assert(c == k);
                return Some(k);
            }
            k += 1;
        }
        None
    }

    /// Entry `idx` of the table in frame number `k` of `frames`.
    pub fn read_entry(&self, k: usize, idx: usize) -> (r: PageTableEntry)
        requires
            k < self.frames.len(),
            idx < 512,
            self.frames[k as int].wf(),
        ensures
            r == self.entry(k as int, idx as int),
    {
        PageTableEntry { bits: self.frames[k].read_word(idx * 8) }
    }

    /// The 512 entries of the table in frame number `k` of `frames`.
    pub fn get_pte_array(&self, k: usize) -> (r: Vec<PageTableEntry>)
        requires
            k < self.frames.len(),
            self.frames[k as int].wf(),
        ensures
            r@.len() == 512,
            forall|i: int| 0 <= i < 512 ==> #[trigger] r@[i] == self.entry(k as int, i),
    {
        let mut r: Vec<PageTableEntry> = Vec::new();
        let mut i: usize = 0;
        while i < 512
            invariant
                i <= 512,
                k < self.frames.len(),
                self.frames[k as int].wf(),
                r@.len() == i,
                forall|j: int| 0 <= j < i ==> #[trigger] r@[j] == self.entry(k as int, j),
            decreases 512 - i,
        {
            r.push(self.read_entry(k, i));
            i += 1;
        }
        r
    }

    /// Stores `pte` as entry `idx` of the table in frame number `k`.
    pub fn write_entry(&mut self, k: usize, idx: usize, pte: PageTableEntry)
        requires
            k < old(self).frames.len(),
            idx < 512,
            old(self).frames[k as int].wf(),
        ensures
            final(self).root_ppn == old(self).root_ppn,
            final(self).roles == old(self).roles,
            final(self).slots == old(self).slots,
            final(self).frames.len() == old(self).frames.len(),
            forall|j: int|
                0 <= j < old(self).frames.len() ==> (#[trigger] final(self).frames[j]).ppn == old(self).frames[j].ppn && final(self).frames[j].wf() == old(self).frames[j].wf(),
            forall|j: int|
                0 <= j < old(self).frames.len() && j != k ==> #[trigger] final(self).frames[j] == old(self).frames[j],
            final(self).entry(k as int, idx as int) == pte,
            forall|i: int|
                0 <= i < 512 && i != idx ==> #[trigger] final(self).entry(k as int, i) == old(self).entry(k as int, i),
    {
        proof {
            lemma_with_word(self.frames[k as int]@, idx * 8, pte.bits);
        }
        self.frames[k].write_word(idx * 8, pte.bits);
        proof {
            assert forall|i: int| 0 <= i < 512 && i != idx implies #[trigger] self.entry(
                k as int,
                i,
            ) == old(self).entry(k as int, i) by {
                assert(i * 8 + 8 <= idx * 8 || idx * 8 + 8 <= i * 8);
            }
        }
    }

    /// Where the lookup of `vpn` ends: the index of the leaf table's frame
    /// and the index of the entry in it.
    pub fn find_pte(&self, vpn: VirtPageNum) -> (r: Option<(usize, usize)>)
        requires
            self.readable(),
        ensures
            match r {
                Some((k, i)) => k < self.frames.len() && i < 512 && self.walk(vpn) == Some(
                    self.entry(k as int, i as int),
                ),
                None => self.walk(vpn) is None,
            },
            self.wf() ==> match r {
                Some((k, i)) => k == self.slots@[leaf_code(
                    vpn_indexes(vpn.0)[0] as int,
                    vpn_indexes(vpn.0)[1] as int,
                )] && i == vpn_indexes(vpn.0)[2],
                None => true,
            },
    {
        let idxs = vpn.indexes();
        proof {
            reveal(PageTable::walk);
        }
        if self.frames.len() == 0 {
            return None;
        }
        proof {
            if self.wf() {
                self.lemma_walk(vpn);
            }
        }
        let e0 = self.read_entry(0, idxs[0]);
        if !e0.is_valid() {
            return None;
        }
        match self.frame_index(e0.ppn()) {
            None => None,
            Some(j) => {
                let e1 = self.read_entry(j, idxs[1]);
                if !e1.is_valid() {
                    return None;
                }
                match self.frame_index(e1.ppn()) {
                    None => None,
                    Some(k) => Some((k, idxs[2])),
                }
            },
        }
    }

    /// The entry that the lookup of `vpn` ends at, if it reaches a leaf
    /// table.
    pub fn translate(&self, vpn: VirtPageNum) -> (r: Option<PageTableEntry>)
        requires
            self.readable(),
        ensures
            r == self.walk(vpn),
    {
        match self.find_pte(vpn) {
            Some((k, i)) => Some(self.read_entry(k, i)),
            None => None,
        }
    }

    /// The physical address that `va` stands for: the page number of the
    /// entry found for its page, followed by the offset of `va` in the page.
    pub fn translate_va(&self, va: VirtAddr) -> (r: Option<PhysAddr>)
        requires
            self.readable(),
        ensures
            r == match self.walk(va.spec_floor()) {
                Some(pte) => Some(PhysAddr((pte.spec_ppn().0 * 4096 + va.0 % 4096) as u64)),
                None => None,
            },
    {
        match self.find_pte(va.floor()) {
            Some((k, i)) => {
                let pte = self.read_entry(k, i);
                let ppn = pte.ppn();
                proof {
                    lemma_shift_page(ppn.0);
                    lemma_masks((ppn.0 * 4096 + va.0 % 4096) as u64);
                }
                let aligned_pa: PhysAddr = PhysAddr::from(ppn);
                let offset = va.page_offset();
                let aligned_pa_u64: u64 = u64::from(aligned_pa);
                Some(PhysAddr::from(aligned_pa_u64 + offset))
            },
            None => None,
        }
    }

    /// Index of the frame of the table that entry `idx` of the table in
    /// frame `parent` points to. Where the entry is not valid, a fresh
    /// cleared frame is taken for the table and the entry made to point to
    /// it.
    fn ensure_child(
        &mut self,
        parent: usize,
        idx: usize,
        code: Ghost<int>,
        allocator: &mut StackFrameAllocator,
    ) -> (r: usize)
        requires
            old(self).wf(),
            old(self).owned_by(old(allocator)),
            old(allocator).wf(),
            parent < old(self).frames.len(),
            idx < 512,
            (parent == 0 && code@ == idx) || (0 <= old(self).roles@[parent as int] < 512 && code@
                == leaf_code(old(self).roles@[parent as int], idx as int)),
            !old(self).slots@.contains_key(code@) ==> old(allocator).free_count() >= 1,
        ensures
            final(self).wf(),
            final(self).owned_by(final(allocator)),
            final(allocator).wf(),
            final(allocator).end == old(allocator).end,
            final(self).root_ppn == old(self).root_ppn,
            final(self).slots@.contains_key(code@),
            final(self).slots@[code@] == r,
            old(self).slots@.contains_key(code@) ==> {
                &&& final(self).frames@ == old(self).frames@
                &&& final(self).roles == old(self).roles
                &&& final(self).slots == old(self).slots
                &&& final(allocator).current == old(allocator).current
                &&& final(allocator).recycled@ == old(allocator).recycled@
            },
            !old(self).slots@.contains_key(code@) ==> {
                &&& final(self).frames.len() == old(self).frames.len() + 1
                &&& r == old(self).frames.len()
                &&& final(self).slots@ == old(self).slots@.insert(code@, r as int)
                &&& final(self).roles@ == old(self).roles@.push(code@)
                &&& forall|k: int|
                    0 <= k < old(self).frames.len() ==> (#[trigger] final(self).frames[k]).ppn
                        == old(self).frames[k].ppn
                &&& forall|k: int|
                    0 <= k < old(self).frames.len() && k != parent ==> #[trigger] final(self).frames[k] == old(self).frames[k]
                &&& final(self).frames[r as int]@ == zeros(4096)
                &&& !old(allocator).is_allocated(final(self).frames[r as int].ppn.0)
                &&& final(allocator).free_count() == old(allocator).free_count() - 1
                &&& forall|p: u64|
                    final(allocator).is_allocated(p) == (old(allocator).is_allocated(p) || p
                        == final(self).frames[r as int].ppn.0)
            },
    {
        let e = self.read_entry(parent, idx);
        proof {
            lemma_flag_bits(0);
            if parent == 0 {
                assert(e == self.entry(0, idx as int));
            } else {
                let i0 = self.roles@[parent as int];
                assert(self.slots@[i0] == parent);
                assert(e == self.entry(self.slots@[i0], idx as int));
            }
            if self.slots@.contains_key(code@) {
                lemma_entry_round_trip(self.frames[self.slots@[code@]].ppn, PTEFlags { bits: 1 });
            }
        }
        if e.is_valid() {
            let ppn = e.ppn();
            assert(self.frames[self.slots@[code@]].ppn == ppn);
            match self.frame_index(ppn) {
                Some(k) => k,
                None => 0,
            }
        } else {
            let frame = frame_alloc(allocator).unwrap();
            let ppn = frame.ppn;
            let ghost old_len = self.frames.len() as int;
            self.write_entry(parent, idx, PageTableEntry::new(ppn, PTEFlags { bits: PTE_V }));
            let ghost wrote = *self;
            self.frames.push(frame);
            self.roles = Ghost(self.roles@.push(code@));
            self.slots = Ghost(self.slots@.insert(code@, old_len));
            proof {
                let c = code@;
                assert forall|k: int, i: int| 0 <= k < old_len && 0 <= i < 512 implies #[trigger] self.entry(
                    k,
                    i,
                ) == wrote.entry(k, i) by {
                    assert(self.frames[k] == wrote.frames[k]);
                }
                assert forall|k: int| 0 <= k < self.frames.len() implies -1 <= #[trigger] self.roles@[k]
                    < 512 + 512 * 512 && self.slots@.contains_key(self.roles@[k])
                    && self.slots@[self.roles@[k]] == k by {
                    if k < old_len {
                        assert(self.roles@[k] == old(self).roles@[k]);
                    }
                }
                assert forall|cc: int| #[trigger] self.slots@.contains_key(cc) implies 0
                    <= self.slots@[cc] < self.frames.len() && self.roles@[self.slots@[cc]] == cc by {
                    if cc != c {
                        assert(old(self).slots@.contains_key(cc));
                    }
                }
                assert forall|j: int, k: int| 0 <= j < k < self.frames.len() implies (
                #[trigger] self.frames[j]).ppn != (#[trigger] self.frames[k]).ppn by {
                    if k == old_len {
                        assert(old(allocator).is_allocated(old(self).frames[j].ppn.0));
                    } else {
                        assert(old(self).frames[j].ppn != old(self).frames[k].ppn);
                    }
                }
                assert forall|i0: int| 0 <= i0 < 512 implies #[trigger] self.entry(0, i0)
                    == if self.slots@.contains_key(i0) {
                    link_entry(self.frames[self.slots@[i0]].ppn)
                } else {
                    zero_entry()
                } by {
                    assert(old(self).entry(0, i0) == if old(self).slots@.contains_key(i0) {
                        link_entry(old(self).frames[old(self).slots@[i0]].ppn)
                    } else {
                        zero_entry()
                    });
                    assert(self.entry(0, i0) == wrote.entry(0, i0));
                    if parent == 0 {
                        if i0 != idx {
                            assert(wrote.entry(0, i0) == old(self).entry(0, i0));
                        }
                    } else {
                        assert(wrote.frames[0] == old(self).frames[0]);
                    }
                }
                assert forall|i0: int, i1: int|
                    0 <= i0 < 512 && 0 <= i1 < 512 && self.slots@.contains_key(
                        i0,
                    ) implies #[trigger] self.entry(self.slots@[i0], i1) == if self.slots@.contains_key(
                    leaf_code(i0, i1),
                ) {
                    link_entry(self.frames[self.slots@[leaf_code(i0, i1)]].ppn)
                } else {
                    zero_entry()
                } by {
                    let m = self.slots@[i0];
                    if parent == 0 && i0 == idx {
                        assert(m == old_len);
                        lemma_zero_word(4096, i1 * 8);
                        assert(!old(self).slots@.contains_key(leaf_code(i0, i1)));
                    } else {
                        assert(old(self).slots@.contains_key(i0));
                        assert(m == old(self).slots@[i0]);
                        assert(old(self).roles@[m] == i0);
                        assert(old(self).entry(m, i1) == if old(self).slots@.contains_key(
                            leaf_code(i0, i1),
                        ) {
                            link_entry(old(self).frames[old(self).slots@[leaf_code(i0, i1)]].ppn)
                        } else {
                            zero_entry()
                        });
                        assert(self.entry(m, i1) == wrote.entry(m, i1));
                        if m == parent {
                            if i1 != idx {
                                assert(wrote.entry(m, i1) == old(self).entry(m, i1));
                            }
                        } else {
                            assert(wrote.frames[m] == old(self).frames[m]);
                        }
                    }
                }
                assert forall|i0: int, i1: int|
                    0 <= i0 < 512 && 0 <= i1 < 512 && #[trigger] self.slots@.contains_key(
                        leaf_code(i0, i1),
                    ) implies self.slots@.contains_key(i0) by {
                    if leaf_code(i0, i1) == c {
                        assert(old(self).slots@.contains_key(old(self).roles@[parent as int]));
                    } else {
                        assert(old(self).slots@.contains_key(leaf_code(i0, i1)));
                    }
                }
                assert(self.wf());
            }
            self.frames.len() - 1
        }
    }

    /// Where the leaf entry of `vpn` is: the index of the leaf table's
    /// frame and the index of the entry in it. Tables that are missing on
    /// the way are created, each in a fresh cleared frame.
    pub fn find_pte_create(&mut self, vpn: VirtPageNum, allocator: &mut StackFrameAllocator) -> (r: (
        usize,
        usize,
    ))
        requires
            old(self).wf(),
            old(self).owned_by(old(allocator)),
            old(allocator).wf(),
            old(allocator).free_count() >= old(self).missing_levels(vpn),
        ensures
            final(self).wf(),
            final(self).owned_by(final(allocator)),
            final(allocator).wf(),
            final(allocator).end == old(allocator).end,
            final(self).root_ppn == old(self).root_ppn,
            r.0 < final(self).frames.len(),
            r.1 == vpn_indexes(vpn.0)[2],
            final(self).walk(vpn) == Some(final(self).entry(r.0 as int, r.1 as int)),
            final(self).missing_levels(vpn) == 0,
            r.0 == final(self).slots@[leaf_code(
                vpn_indexes(vpn.0)[0] as int,
                vpn_indexes(vpn.0)[1] as int,
            )],
            forall|v: VirtPageNum| #[trigger]
                final(self).walk(v) == if old(self).walk(v) is None && same_leaf_table(v, vpn) {
                    Some(zero_entry())
                } else {
                    old(self).walk(v)
                },
            final(self).frames.len() == old(self).frames.len() + old(self).missing_levels(vpn),
            final(allocator).free_count() == old(allocator).free_count() - old(self).missing_levels(
                vpn,
            ),
            forall|k: int|
                0 <= k < old(self).frames.len() ==> (#[trigger] final(self).frames[k]).ppn == old(self).frames[k].ppn,
            forall|k: int|
                old(self).frames.len() <= k < final(self).frames.len() ==> !old(allocator).is_allocated((#[trigger] final(self).frames[k]).ppn.0),
            forall|p: u64|
                final(allocator).is_allocated(p) == (old(allocator).is_allocated(p) || exists|k: int|
                    old(self).frames.len() <= k < final(self).frames.len() && (
                    #[trigger] final(self).frames[k]).ppn.0 == p),
    {
        let idxs = vpn.indexes();
        let ghost i0 = idxs[0] as int;
        let ghost i1 = idxs[1] as int;
        let j = self.ensure_child(0, idxs[0], Ghost(i0), allocator);
        let ghost mid = *self;
        let ghost mid_alloc = *allocator;
        assert(self.roles@[j as int] == i0);
        let k = self.ensure_child(j, idxs[1], Ghost(leaf_code(i0, i1)), allocator);
        proof {
            let fin = *self;
            assert forall|v: VirtPageNum| #[trigger]
                fin.walk(v) == if old(self).walk(v) is None && same_leaf_table(v, vpn) {
                    Some(zero_entry())
                } else {
                    old(self).walk(v)
                } by {
                old(self).lemma_walk(v);
                mid.lemma_walk(v);
                fin.lemma_walk(v);
                let v0 = vpn_indexes(v.0)[0] as int;
                let v1 = vpn_indexes(v.0)[1] as int;
                let v2 = vpn_indexes(v.0)[2] as int;
                if fin.slots@.contains_key(v0) && fin.slots@.contains_key(leaf_code(v0, v1)) {
                    let kk = fin.slots@[leaf_code(v0, v1)];
                    if old(self).slots@.contains_key(leaf_code(v0, v1)) {
                        assert(old(self).slots@[leaf_code(v0, v1)] == kk);
                        assert(old(self).roles@[kk] == leaf_code(v0, v1));
                        assert(mid.frames[kk] == old(self).frames[kk]);
                        assert(fin.frames[kk] == mid.frames[kk]);
                    } else {
                        assert(v0 == i0 && v1 == i1);
                        lemma_zero_word(4096, v2 * 8);
                    }
                }
            }
            fin.lemma_walk(vpn);
            assert forall|p: u64|
                allocator.is_allocated(p) == (old(allocator).is_allocated(p) || exists|k: int|
                    old(self).frames.len() <= k < fin.frames.len() && (#[trigger] fin.frames[k]).ppn.0
                        == p) by {
                if mid.frames.len() > old(self).frames.len() {
                    let n0 = old(self).frames.len() as int;
                    assert(fin.frames[n0].ppn == mid.frames[n0].ppn);
                }
                if fin.frames.len() > mid.frames.len() {
                    let n1 = mid.frames.len() as int;
                    assert(fin.frames[n1].ppn.0 == fin.frames[n1].ppn.0);
                }
            }
        }
        (k, idxs[2])
    }

    /// Maps `vpn` to frame `ppn` with the given flags and `V`.
    pub fn map(
        &mut self,
        vpn: VirtPageNum,
        ppn: PhysPageNum,
        flags: PTEFlags,
        allocator: &mut StackFrameAllocator,
    )
        requires
            old(self).wf(),
            old(self).owned_by(old(allocator)),
            old(allocator).wf(),
            !old(self).is_mapped(vpn),
            old(allocator).free_count() >= old(self).missing_levels(vpn),
        ensures
            final(self).wf(),
            final(self).owned_by(final(allocator)),
            final(allocator).wf(),
            final(allocator).end == old(allocator).end,
            final(self).root_ppn == old(self).root_ppn,
            final(self).walk(vpn) == Some(
                PageTableEntry::spec_new(ppn, PTEFlags { bits: flags.bits | 1 }),
            ),
            final(self).missing_levels(vpn) == 0,
            table_grew(old(self), final(self), old(allocator)),
            vpn.0 < 0x800_0000 ==> outside_kept(old(self), final(self), vpn.0 as int, vpn.0 + 1),
            forall|v: VirtPageNum|
                !same_slot(v, vpn) ==> #[trigger] final(self).walk(v) == if old(self).walk(v) is None
                    && same_leaf_table(v, vpn) {
                    Some(zero_entry())
                } else {
                    old(self).walk(v)
                },
            final(self).frames.len() == old(self).frames.len() + old(self).missing_levels(vpn),
            final(allocator).free_count() == old(allocator).free_count() - old(self).missing_levels(
                vpn,
            ),
            forall|k: int|
                0 <= k < old(self).frames.len() ==> (#[trigger] final(self).frames[k]).ppn == old(self).frames[k].ppn,
            forall|k: int|
                old(self).frames.len() <= k < final(self).frames.len() ==> !old(allocator).is_allocated((#[trigger] final(self).frames[k]).ppn.0),
            forall|p: u64|
                final(allocator).is_allocated(p) == (old(allocator).is_allocated(p) || exists|k: int|
                    old(self).frames.len() <= k < final(self).frames.len() && (
                    #[trigger] final(self).frames[k]).ppn.0 == p),
    {
        let (k, i) = self.find_pte_create(vpn, allocator);
        let ghost mid = *self;
        self.write_entry(k, i, PageTableEntry::new(ppn, flags.union(PTEFlags { bits: PTE_V })));
        proof {
            self.lemma_leaf_write(mid, k as int);
            assert forall|v: VirtPageNum| !same_slot(v, vpn) implies #[trigger] self.walk(v)
                == mid.walk(v) by {
                mid.lemma_walk(v);
                self.lemma_walk(v);
            }
            self.lemma_walk(vpn);
            assert(table_grew(old(self), self, old(allocator))) by {
                reveal(table_grew);
                assert forall|k: int| 0 <= k < old(self).frames.len() implies (
                #[trigger] self.frames[k]).ppn == old(self).frames[k].ppn by {
                    assert(mid.frames[k].ppn == old(self).frames[k].ppn);
                }
                assert forall|k: int|
                    old(self).frames.len() <= k < self.frames.len() implies !old(allocator).is_allocated(
                    (#[trigger] self.frames[k]).ppn.0,
                ) by {
                    assert(!old(allocator).is_allocated(mid.frames[k].ppn.0));
                }
            }
            if vpn.0 < 0x800_0000 {
                reveal(outside_kept);
                lemma_zero_not_valid();
                assert forall|v: VirtPageNum|
                    v.0 < 0x800_0000 && !(vpn.0 <= v.0 < vpn.0 + 1) implies (#[trigger] self.walk(v)
                    == old(self).walk(v) || (!old(self).is_mapped(v) && !self.is_mapped(v))) by {
                    if same_slot(v, vpn) {
                        lemma_slot_unique(v, vpn);
                    }
                    assert(self.walk(v) == mid.walk(v));
                }
            }
            assert forall|p: u64|
                allocator.is_allocated(p) == (old(allocator).is_allocated(p) || exists|k: int|
                    old(self).frames.len() <= k < self.frames.len() && (#[trigger] self.frames[k]).ppn.0
                        == p) by {
                if exists|k: int|
                    old(self).frames.len() <= k < mid.frames.len() && (#[trigger] mid.frames[k]).ppn.0
                        == p {
                    let w = choose|k: int|
                        old(self).frames.len() <= k < mid.frames.len() && (
                        #[trigger] mid.frames[k]).ppn.0 == p;
                    assert(self.frames[w].ppn == mid.frames[w].ppn);
                }
                if exists|k: int|
                    old(self).frames.len() <= k < self.frames.len() && (
                    #[trigger] self.frames[k]).ppn.0 == p {
                    let w = choose|k: int|
                        old(self).frames.len() <= k < self.frames.len() && (
                        #[trigger] self.frames[k]).ppn.0 == p;
                    assert(self.frames[w].ppn == mid.frames[w].ppn);
                }
            }
        }
    }

    /// Storing into a leaf table keeps the tree as it is.
    proof fn lemma_leaf_write(&self, before: PageTable, k: int)
        requires
            before.wf(),
            0 <= k < before.frames.len(),
            before.roles@[k] >= 512,
            self.root_ppn == before.root_ppn,
            self.roles == before.roles,
            self.slots == before.slots,
            self.frames.len() == before.frames.len(),
            forall|j: int|
                0 <= j < before.frames.len() ==> (#[trigger] self.frames[j]).ppn
                    == before.frames[j].ppn && self.frames[j].wf() == before.frames[j].wf(),
            forall|j: int|
                0 <= j < before.frames.len() && j != k ==> #[trigger] self.frames[j]
                    == before.frames[j],
        ensures
            self.wf(),
    {
        assert forall|i0: int| 0 <= i0 < 512 implies #[trigger] self.entry(0, i0)
            == if self.slots@.contains_key(i0) {
            link_entry(self.frames[self.slots@[i0]].ppn)
        } else {
            zero_entry()
        } by {
            assert(self.frames[0] == before.frames[0]);
            assert(before.entry(0, i0) == if before.slots@.contains_key(i0) {
                link_entry(before.frames[before.slots@[i0]].ppn)
            } else {
                zero_entry()
            });
        }
        assert forall|i0: int, i1: int|
            0 <= i0 < 512 && 0 <= i1 < 512 && self.slots@.contains_key(i0) implies #[trigger] self.entry(
            self.slots@[i0],
            i1,
        ) == if self.slots@.contains_key(leaf_code(i0, i1)) {
            link_entry(self.frames[self.slots@[leaf_code(i0, i1)]].ppn)
        } else {
            zero_entry()
        } by {
            let m = before.slots@[i0];
            assert(before.roles@[m] == i0);
            assert(self.frames[m] == before.frames[m]);
            assert(before.entry(m, i1) == if before.slots@.contains_key(leaf_code(i0, i1)) {
                link_entry(before.frames[before.slots@[leaf_code(i0, i1)]].ppn)
            } else {
                zero_entry()
            });
        }
        assert forall|j: int, k2: int| 0 <= j < k2 < self.frames.len() implies (
        #[trigger] self.frames[j]).ppn != (#[trigger] self.frames[k2]).ppn by {
            assert(before.frames[j].ppn != before.frames[k2].ppn);
        }
    }

    /// Where the leaf table of a page exists, so does the middle table
    /// above it.
    pub proof fn lemma_mid_present(&self, vpn: VirtPageNum)
        requires
            self.wf(),
            self.missing_levels(vpn) == 0,
        ensures
            self.slots@.contains_key(mid_code(vpn_indexes(vpn.0)[0] as int)),
    {
    }

    /// Gives every frame of the table back, the root first. The table is
    /// no table any more after that.
    pub fn release_frames(&mut self, allocator: &mut StackFrameAllocator)
        requires
            old(self).readable(),
            old(self).owned_by(old(allocator)),
            old(allocator).wf(),
        ensures
            final(self).frames.len() == 0,
            final(allocator).wf(),
            final(allocator).end == old(allocator).end,
            final(allocator).current == old(allocator).current,
            final(allocator).free_count() == old(allocator).free_count() + old(self).frames.len(),
            final(allocator).recycled@ == old(allocator).recycled@
                + crate::mm::frame_allocator::numbers_of(old(self).frames@),
            forall|p: u64|
                final(allocator).is_allocated(p) == (old(allocator).is_allocated(p) && !old(self).owns(
                    PhysPageNum(p),
                )),
    {
        let ghost n = self.frames.len() as int;
        let ghost mut k: int = 0;
        let ghost all = crate::mm::frame_allocator::numbers_of(old(self).frames@);
        proof {
            assert(self.frames@ =~= old(self).frames@.subrange(0, n));
            assert(allocator.recycled@ =~= old(allocator).recycled@ + all.subrange(0, 0));
        }
        while self.frames.len() > 0
            invariant
                all == crate::mm::frame_allocator::numbers_of(old(self).frames@),
                allocator.recycled@ == old(allocator).recycled@ + all.subrange(0, k),
                n == old(self).frames.len(),
                old(self).readable(),
                old(self).owned_by(old(allocator)),
                0 <= k <= n,
                self.frames@ == old(self).frames@.subrange(k, n),
                allocator.wf(),
                allocator.end == old(allocator).end,
                allocator.current == old(allocator).current,
                allocator.free_count() == old(allocator).free_count() + k,
                forall|p: u64|
                    allocator.is_allocated(p) == (old(allocator).is_allocated(p) && !(exists|i: int|
                        0 <= i < k && (#[trigger] old(self).frames[i]).ppn.0 == p)),
            decreases self.frames.len(),
        {
            let frame = self.frames.remove(0);
            proof {
                assert(frame == old(self).frames[k]);
                assert(old(allocator).is_allocated(old(self).frames[k].ppn.0));
                if exists|i: int| 0 <= i < k && (#[trigger] old(self).frames[i]).ppn.0 == frame.ppn.0 {
                    let i = choose|i: int|
                        0 <= i < k && (#[trigger] old(self).frames[i]).ppn.0 == frame.ppn.0;
                    assert(old(self).frames[i].ppn != old(self).frames[k].ppn);
                }
                assert(self.frames@ =~= old(self).frames@.subrange(k + 1, n));
            }
            crate::mm::frame_allocator::frame_dealloc(allocator, frame);
            proof {
                assert(all.subrange(0, k + 1) =~= all.subrange(0, k).push(old(self).frames[k].ppn.0));
                assert(allocator.recycled@ =~= old(allocator).recycled@ + all.subrange(0, k + 1));
                assert forall|p: u64|
                    allocator.is_allocated(p) == (old(allocator).is_allocated(p) && !(exists|i: int|
                        0 <= i < k + 1 && (#[trigger] old(self).frames[i]).ppn.0 == p)) by {
                    if exists|i: int| 0 <= i < k && (#[trigger] old(self).frames[i]).ppn.0 == p {
                        let i = choose|i: int| 0 <= i < k && (#[trigger] old(self).frames[i]).ppn.0 == p;
                        assert(0 <= i < k + 1 && old(self).frames[i].ppn.0 == p);
                    }
                    if p == old(self).frames[k].ppn.0 {
                        assert(0 <= k < k + 1 && old(self).frames[k].ppn.0 == p);
                    }
                    if exists|i: int| 0 <= i < k + 1 && (#[trigger] old(self).frames[i]).ppn.0 == p {
                        let i = choose|i: int|
                            0 <= i < k + 1 && (#[trigger] old(self).frames[i]).ppn.0 == p;
                        if i < k {
                            assert(0 <= i < k && old(self).frames[i].ppn.0 == p);
                        }
                    }
                }
                k = k + 1;
            }
        }
        proof {
            assert(all.subrange(0, n) =~= all);
            assert forall|p: u64|
                allocator.is_allocated(p) == (old(allocator).is_allocated(p) && !old(self).owns(
                    PhysPageNum(p),
                )) by {
                if old(self).owns(PhysPageNum(p)) {
                    let i = choose|i: int|
                        0 <= i < old(self).frames.len() && old(self).frames[i].ppn == PhysPageNum(p);
                    assert(0 <= i < k && old(self).frames[i].ppn.0 == p);
                }
                if exists|i: int| 0 <= i < k && (#[trigger] old(self).frames[i]).ppn.0 == p {
                    let i = choose|i: int| 0 <= i < k && (#[trigger] old(self).frames[i]).ppn.0 == p;
                    assert(old(self).frames[i].ppn == PhysPageNum(p));
                }
            }
        }
    }

    /// Removes the mapping of `vpn`: its leaf entry becomes zero.
    pub fn unmap(&mut self, vpn: VirtPageNum)
        requires
            old(self).wf(),
            old(self).is_mapped(vpn),
        ensures
            final(self).wf(),
            final(self).root_ppn == old(self).root_ppn,
            final(self).walk(vpn) == Some(zero_entry()),
            final(self).roles == old(self).roles,
            forall|v: VirtPageNum|
                !same_slot(v, vpn) ==> #[trigger] final(self).walk(v) == old(self).walk(v),
            forall|v: VirtPageNum|
                v.0 < 0x800_0000 && vpn.0 < 0x800_0000 && v != vpn ==> #[trigger] final(self).walk(v)
                    == old(self).walk(v),
            final(self).frames.len() == old(self).frames.len(),
            final(self).slots == old(self).slots,
            forall|k: int|
                0 <= k < old(self).frames.len() ==> (#[trigger] final(self).frames[k]).ppn == old(self).frames[k].ppn,
    {
        proof {
            self.lemma_walk(vpn);
        }
        match self.find_pte(vpn) {
            Some((k, i)) => {
                let ghost before = *self;
                self.write_entry(k, i, PageTableEntry::empty());
                proof {
                    self.lemma_leaf_write(before, k as int);
                    assert forall|v: VirtPageNum| !same_slot(v, vpn) implies #[trigger] self.walk(v)
                        == before.walk(v) by {
                        before.lemma_walk(v);
                        self.lemma_walk(v);
                    }
                    assert forall|v: VirtPageNum|
                        v.0 < 0x800_0000 && vpn.0 < 0x800_0000 && v != vpn implies #[trigger] self.walk(
                        v,
                    ) == before.walk(v) by {
                        if same_slot(v, vpn) {
                            lemma_slot_unique(v, vpn);
                        }
                    }
                    self.lemma_walk(vpn);
                }
            },
            None => {},
        }
    }
}

/// Two page numbers of at most 27 bits that select the same leaf entry
/// are equal.
pub proof fn lemma_slot_unique(a: VirtPageNum, b: VirtPageNum)
    requires
        a.0 < 0x800_0000,
        b.0 < 0x800_0000,
        same_slot(a, b),
    ensures
        a == b,
{
    let x = a.0;
    let y = b.0;
    assert(x < 0x800_0000 && y < 0x800_0000 && (x / 0x4_0000) % 512 == (y / 0x4_0000) % 512 && (x
        / 512) % 512 == (y / 512) % 512 && x % 512 == y % 512 ==> x == y) by (bit_vector);
}

/// A zero entry or a missing table leaves a page unmapped.
pub proof fn lemma_zero_not_valid()
    ensures
        !zero_entry().spec_is_valid(),
{
    lemma_flag_bits(0);
}

/// The table `after` grew out of `before`: it has the same root, every
/// frame of `before` is still in its place, and the frames that were added
/// were not handed out when the allocator was as in `earlier`.
#[verifier::opaque]
pub open spec fn table_grew(before: &PageTable, after: &PageTable, earlier: &StackFrameAllocator) -> bool {
    &&& after.frames.len() >= before.frames.len()
    &&& after.root_ppn == before.root_ppn
    &&& forall|k: int|
        0 <= k < before.frames.len() ==> (#[trigger] after.frames[k]).ppn == before.frames[k].ppn
    &&& forall|k: int|
        before.frames.len() <= k < after.frames.len() ==> !earlier.is_allocated(
            (#[trigger] after.frames[k]).ppn.0,
        )
}

/// Outside the pages `[lo, hi)` the table `after` maps what `before`
/// maps: a page that was mapped has the same entry, and a page that was
/// not mapped is not mapped now.
#[verifier::opaque]
pub open spec fn outside_kept(before: &PageTable, after: &PageTable, lo: int, hi: int) -> bool {
    forall|v: VirtPageNum|
        v.0 < 0x800_0000 && !(lo <= v.0 < hi) ==> (#[trigger] after.walk(v) == before.walk(v) || (
        !before.is_mapped(v) && !after.is_mapped(v)))
}

/// Growth of a table in two steps is growth.
pub proof fn lemma_table_grew_trans(
    a: &PageTable,
    b: &PageTable,
    c: &PageTable,
    al_a: &StackFrameAllocator,
    al_b: &StackFrameAllocator,
)
    requires
        table_grew(a, b, al_a),
        table_grew(b, c, al_b),
        forall|p: u64| al_a.is_allocated(p) ==> al_b.is_allocated(p),
    ensures
        table_grew(a, c, al_a),
{
    reveal(table_grew);
    assert forall|k: int| 0 <= k < a.frames.len() implies (#[trigger] c.frames[k]).ppn
        == a.frames[k].ppn by {
        assert(b.frames[k].ppn == a.frames[k].ppn);
    }
    assert forall|k: int| a.frames.len() <= k < c.frames.len() implies !al_a.is_allocated(
        (#[trigger] c.frames[k]).ppn.0,
    ) by {
        if k < b.frames.len() {
            assert(c.frames[k].ppn == b.frames[k].ppn);
        }
    }
}

/// A table that grew still holds every frame it held.
pub proof fn lemma_table_grew_owns(a: &PageTable, b: &PageTable, al: &StackFrameAllocator, ppn: PhysPageNum)
    requires
        table_grew(a, b, al),
        a.owns(ppn),
    ensures
        b.owns(ppn),
{
    reveal(table_grew);
    let k = choose|k: int| 0 <= k < a.frames.len() && a.frames[k].ppn == ppn;
    assert(b.frames[k].ppn == ppn);
}

/// A frame that a grown table holds and the table before did not hold
/// was not handed out before.
pub proof fn lemma_table_grew_new(a: &PageTable, b: &PageTable, al: &StackFrameAllocator, ppn: PhysPageNum)
    requires
        table_grew(a, b, al),
        b.owns(ppn),
        !a.owns(ppn),
    ensures
        !al.is_allocated(ppn.0),
{
    reveal(table_grew);
    let k = choose|k: int| 0 <= k < b.frames.len() && b.frames[k].ppn == ppn;
    if k < a.frames.len() {
        assert(a.frames[k].ppn == ppn);
    }
}

/// Keeping the pages outside `[lo, mid)` and then those outside
/// `[mid, hi)` keeps the pages outside `[lo, hi)`.
pub proof fn lemma_outside_trans(a: &PageTable, b: &PageTable, c: &PageTable, lo: int, mid: int, hi: int)
    requires
        outside_kept(a, b, lo, mid),
        outside_kept(b, c, mid, hi),
        lo <= mid <= hi,
    ensures
        outside_kept(a, c, lo, hi),
{
    reveal(outside_kept);
    assert forall|v: VirtPageNum| v.0 < 0x800_0000 && !(lo <= v.0 < hi) implies (#[trigger] c.walk(v)
        == a.walk(v) || (!a.is_mapped(v) && !c.is_mapped(v))) by {
        assert(b.walk(v) == a.walk(v) || (!a.is_mapped(v) && !b.is_mapped(v)));
        assert(c.walk(v) == b.walk(v) || (!b.is_mapped(v) && !c.is_mapped(v)));
    }
}

/// What `outside_kept` says of one page.
pub proof fn lemma_outside_at(a: &PageTable, b: &PageTable, lo: int, hi: int, v: VirtPageNum)
    requires
        outside_kept(a, b, lo, hi),
        v.0 < 0x800_0000,
        !(lo <= v.0 < hi),
    ensures
        b.walk(v) == a.walk(v) || (!a.is_mapped(v) && !b.is_mapped(v)),
        a.is_mapped(v) == b.is_mapped(v),
        a.is_mapped(v) ==> b.walk(v) == a.walk(v),
{
    reveal(outside_kept);
    assert(b.walk(v) == a.walk(v) || (!a.is_mapped(v) && !b.is_mapped(v)));
}

/// A table keeps all of its own pages.
pub proof fn lemma_outside_refl(a: &PageTable, lo: int, hi: int)
    ensures
        outside_kept(a, a, lo, hi),
{
    reveal(outside_kept);
}

} // verus!
