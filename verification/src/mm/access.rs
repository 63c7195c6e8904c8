//! Reading and writing the memory of an address space by virtual address.
use crate::mm::address::{lemma_masks, VirtAddr, VirtPageNum};
use crate::mm::frame_allocator::{
    with_bytes, with_word, with_words, word_at, words_at, FrameTracker, StackFrameAllocator,
};
use crate::mm::memory_set::{
    area_apart_from_table, areas_apart, space_grew, MapArea, MapType, MemorySet, TRAMPOLINE_VPN,
};
use vstd::prelude::*;

verus! {

/// The page that virtual address `va` lies in: its low 39 bits without the
/// offset in the page.
pub open spec fn vpn_of(va: u64) -> VirtPageNum {
    VirtPageNum(((va % 0x80_0000_0000) / 4096) as u64)
}

/// Two areas that differ at most in what their frames hold.
pub open spec fn area_same_shape(x: &MapArea, y: &MapArea) -> bool {
    &&& x.start_vpn == y.start_vpn
    &&& x.end_vpn == y.end_vpn
    &&& x.map_type == y.map_type
    &&& x.map_perm == y.map_perm
    &&& x.data_frames.len() == y.data_frames.len()
    &&& forall|i: int|
        0 <= i < x.data_frames.len() ==> (#[trigger] x.data_frames[i]).ppn == y.data_frames[i].ppn
            && x.data_frames[i]@.len() == y.data_frames[i]@.len()
}

/// Two spaces that differ at most in what the frames of their areas
/// hold.
#[verifier::opaque]
pub open spec fn same_shape(x: &MemorySet, y: &MemorySet) -> bool {
    &&& x.page_table == y.page_table
    &&& x.areas.len() == y.areas.len()
    &&& forall|a: int|
        0 <= a < x.areas.len() ==> area_same_shape(&(#[trigger] x.areas[a]), &y.areas[a])
}

/// What holds of a space holds of every space of the same shape.
pub proof fn lemma_same_shape(x: &MemorySet, y: &MemorySet, al: &StackFrameAllocator)
    requires
        same_shape(x, y),
    ensures
        x.wf() ==> y.wf(),
        x.owned_by(al) ==> y.owned_by(al),
        x.only_areas_mapped() ==> y.only_areas_mapped(),
        forall|p: u64| x.has_frame(p) == y.has_frame(p),
        forall|v: VirtPageNum| x.in_area(v) == y.in_area(v),
        x.wf() ==> forall|v: VirtPageNum| x.in_area(v) ==> x.area_of(v) == y.area_of(v),
        space_grew(x, y, al, al),
{
    reveal(same_shape);
    reveal(MemorySet::has_frame);
    assert forall|a: int, p: u64| 0 <= a < x.areas.len() implies (#[trigger] x.areas[a].has_frame(p))
        == y.areas[a].has_frame(p) by {
        assert(area_same_shape(&x.areas[a], &y.areas[a]));
        if x.areas[a].has_frame(p) {
            let i = choose|i: int|
                0 <= i < x.areas[a].data_frames.len() && (#[trigger] x.areas[a].data_frames[i]).ppn.0
                    == p;
            assert(y.areas[a].data_frames[i].ppn.0 == p);
        }
        if y.areas[a].has_frame(p) {
            let i = choose|i: int|
                0 <= i < y.areas[a].data_frames.len() && (#[trigger] y.areas[a].data_frames[i]).ppn.0
                    == p;
            assert(x.areas[a].data_frames[i].ppn.0 == p);
        }
    }
    assert forall|p: u64| x.has_frame(p) == y.has_frame(p) by {
        if x.has_frame(p) && !x.page_table.owns(crate::mm::address::PhysPageNum(p)) {
            let a = choose|a: int| 0 <= a < x.areas.len() && (#[trigger] x.areas[a]).has_frame(p);
            assert(x.areas[a].has_frame(p) == y.areas[a].has_frame(p));
        }
        if y.has_frame(p) && !y.page_table.owns(crate::mm::address::PhysPageNum(p)) {
            let a = choose|a: int| 0 <= a < y.areas.len() && (#[trigger] y.areas[a]).has_frame(p);
            assert(x.areas[a].has_frame(p) == y.areas[a].has_frame(p));
        }
    }
    assert forall|v: VirtPageNum| x.in_area(v) == y.in_area(v) by {
        if x.in_area(v) {
            let a = choose|a: int| 0 <= a < x.areas.len() && (#[trigger] x.areas[a]).contains(v);
            assert(area_same_shape(&x.areas[a], &y.areas[a]));
            assert(y.areas[a].contains(v));
        }
        if y.in_area(v) {
            let a = choose|a: int| 0 <= a < y.areas.len() && (#[trigger] y.areas[a]).contains(v);
            assert(area_same_shape(&x.areas[a], &y.areas[a]));
            assert(x.areas[a].contains(v));
        }
    }
    if x.wf() {
        assert forall|a: int| 0 <= a < y.areas.len() implies (#[trigger] y.areas[a]).wf()
            && y.areas[a].mapped_in(&y.page_table) && area_apart_from_table(
            &y.areas[a],
            &y.page_table,
        ) by {
            let xa = x.areas[a];
            let ya = y.areas[a];
            assert(area_same_shape(&x.areas[a], &y.areas[a]));
            assert(xa.wf() && xa.mapped_in(&x.page_table) && area_apart_from_table(
                &x.areas[a],
                &x.page_table,
            ));
            assert forall|i: int| 0 <= i < ya.data_frames.len() implies (
            #[trigger] ya.data_frames[i]).wf() && ya.data_frames[i].ppn.0 < 0x1000_0000_0000
                && !y.page_table.owns(ya.data_frames[i].ppn) by {
                assert(xa.data_frames[i].wf());
            }
            assert forall|i: int, j: int| 0 <= i < j < ya.data_frames.len() implies (
            #[trigger] ya.data_frames[i]).ppn != (#[trigger] ya.data_frames[j]).ppn by {
                assert(xa.data_frames[i].ppn != xa.data_frames[j].ppn);
            }
            assert forall|vpn: VirtPageNum| ya.contains(vpn) implies #[trigger] y.page_table.walk(vpn)
                == Some(ya.leaf(vpn)) by {
                assert(x.page_table.walk(vpn) == Some(xa.leaf(vpn)));
                if xa.map_type == MapType::Framed {
                    assert(xa.data_frames[vpn.0 - xa.start_vpn.0].ppn == ya.data_frames[vpn.0
                        - xa.start_vpn.0].ppn);
                }
            }
        }
        assert forall|a: int, b: int| 0 <= a < b < y.areas.len() implies areas_apart(
            &(#[trigger] y.areas[a]),
            &(#[trigger] y.areas[b]),
        ) by {
            assert(areas_apart(&x.areas[a], &x.areas[b]));
            assert(area_same_shape(&x.areas[a], &y.areas[a]));
            assert(area_same_shape(&x.areas[b], &y.areas[b]));
            assert forall|i: int, j: int|
                0 <= i < y.areas[a].data_frames.len() && 0 <= j
                    < y.areas[b].data_frames.len() implies (#[trigger] y.areas[a].data_frames[i]).ppn
                != (#[trigger] y.areas[b].data_frames[j]).ppn by {
                assert(x.areas[a].data_frames[i].ppn != x.areas[b].data_frames[j].ppn);
            }
        }
        assert forall|v: VirtPageNum| x.in_area(v) implies x.area_of(v) == y.area_of(v) by {
            let a = x.area_of(v);
            assert(area_same_shape(&x.areas[a], &y.areas[a]));
            assert(y.areas[a].contains(v));
            y.lemma_area_unique(v, a);
        }
    }
    if x.owned_by(al) {
        assert forall|a: int| 0 <= a < y.areas.len() implies (#[trigger] y.areas[a]).owned_by(al) by {
            assert(area_same_shape(&x.areas[a], &y.areas[a]));
            assert(x.areas[a].owned_by(al));
            assert forall|i: int| 0 <= i < y.areas[a].data_frames.len() implies al.is_allocated(
                (#[trigger] y.areas[a].data_frames[i]).ppn.0,
            ) by {
                assert(al.is_allocated(x.areas[a].data_frames[i].ppn.0));
            }
        }
    }
    if x.only_areas_mapped() {
        assert forall|v: VirtPageNum|
            v.0 < 0x800_0000 && #[trigger] y.page_table.is_mapped(v) implies v.0 == TRAMPOLINE_VPN
            || exists|a: int| 0 <= a < y.areas.len() && (#[trigger] y.areas[a]).contains(v) by {
            assert(x.page_table.is_mapped(v));
            if v.0 != TRAMPOLINE_VPN {
                assert(x.in_area(v));
                assert(y.in_area(v));
            }
        }
    }
    reveal(space_grew);
}

impl MemorySet {
    /// Whether the 64-bit word at `va` lies in one page that has a frame
    /// here.
    pub open spec fn word_backed(&self, va: u64) -> bool {
        self.backed(vpn_of(va)) && va % 4096 <= 4088
    }

    /// The index of the area of page `vpn` and the index of its frame in
    /// that area, for a page that has a frame here.
    pub fn locate(&self, vpn: VirtPageNum) -> (r: (usize, usize))
        requires
            self.wf(),
            self.backed(vpn),
        ensures
            r.0 == self.area_of(vpn),
            r.0 < self.areas.len(),
            r.1 == vpn.0 - self.areas[r.0 as int].start_vpn.0,
            r.1 < self.areas[r.0 as int].data_frames.len(),
            self.areas[r.0 as int].data_frames[r.1 as int].wf(),
            self.areas[r.0 as int].data_frames[r.1 as int]@ == self.page(vpn),
    {
        match self.find_area(vpn) {
            Some(a) => {
                assert(self.areas[a as int].wf());
                let n = self.areas[a].data_frames.len();
                let i = (vpn.0 - self.areas[a].start_vpn.0) as usize;
                (a, i)
            },
            None => (0, 0),
        }
    }

    /// Whether the page of virtual address `va` has a frame here.
    pub fn is_backed(&self, va: u64) -> (r: bool)
        requires
            self.wf(),
        ensures
            r == self.backed(vpn_of(va)),
    {
        proof {
            lemma_masks(va);
        }
        let vpn = VirtAddr::from(va).floor();
        match self.find_area(vpn) {
            Some(a) => match self.areas[a].map_type {
                MapType::Framed => true,
                MapType::Identical => false,
            },
            None => false,
        }
    }

    /// The byte at virtual address `va`.
    pub fn read_byte(&self, va: u64) -> (r: u8)
        requires
            self.wf(),
            self.backed(vpn_of(va)),
        ensures
            r == self.page(vpn_of(va))[(va % 4096) as int],
    {
        proof {
            lemma_masks(va);
        }
        let vpn = VirtAddr::from(va).floor();
        let (a, i) = self.locate(vpn);
        self.areas[a].data_frames[i].read_byte((va % 4096) as usize)
    }

    /// The little-endian 64-bit word at virtual address `va`.
    pub fn read_word(&self, va: u64) -> (r: u64)
        requires
            self.wf(),
            self.word_backed(va),
        ensures
            r == word_at(self.page(vpn_of(va)), (va % 4096) as int),
    {
        proof {
            lemma_masks(va);
        }
        let vpn = VirtAddr::from(va).floor();
        let (a, i) = self.locate(vpn);
        self.areas[a].data_frames[i].read_word((va % 4096) as usize)
    }

    /// Stores `v` at offset `off` of frame `i` of area `a`.
    pub fn poke_byte(&mut self, a: usize, i: usize, off: usize, v: u8)
        requires
            old(self).wf(),
            a < old(self).areas.len(),
            i < old(self).areas[a as int].data_frames.len(),
            off < 4096,
        ensures
            final(self).wf(),
            same_shape(old(self), final(self)),
            final(self).areas[a as int].data_frames[i as int]@ == old(self).areas[a as int].data_frames[i as int]@.update(off as int, v),
            forall|p: VirtPageNum| #[trigger] old(self).backed(p) ==> final(self).backed(p),
            forall|p: VirtPageNum|
                old(self).backed(p) ==> #[trigger] final(self).page(p) == if p.0
                    == old(self).areas[a as int].start_vpn.0 + i && old(self).areas[a as int].map_type
                    == MapType::Framed {
                    final(self).areas[a as int].data_frames[i as int]@
                } else {
                    old(self).page(p)
                },
    {
        assert(old(self).areas[a as int].wf());
        self.areas[a].data_frames[i].write_byte(off, v);
        proof {
            Self::lemma_frame_changed(old(self), self, a as int, i as int);
        }
    }

    /// Stores `w` as a little-endian word at offset `off` of frame `i` of
    /// area `a`.
    pub fn poke_word(&mut self, a: usize, i: usize, off: usize, w: u64)
        requires
            old(self).wf(),
            a < old(self).areas.len(),
            i < old(self).areas[a as int].data_frames.len(),
            off <= 4088,
        ensures
            final(self).wf(),
            same_shape(old(self), final(self)),
            final(self).areas[a as int].data_frames[i as int]@ == with_word(
                old(self).areas[a as int].data_frames[i as int]@,
                off as int,
                w,
            ),
            forall|p: VirtPageNum| #[trigger] old(self).backed(p) ==> final(self).backed(p),
            forall|p: VirtPageNum|
                old(self).backed(p) ==> #[trigger] final(self).page(p) == if p.0
                    == old(self).areas[a as int].start_vpn.0 + i && old(self).areas[a as int].map_type
                    == MapType::Framed {
                    final(self).areas[a as int].data_frames[i as int]@
                } else {
                    old(self).page(p)
                },
    {
        assert(old(self).areas[a as int].wf());
        self.areas[a].data_frames[i].write_word(off, w);
        proof {
            Self::lemma_frame_changed(old(self), self, a as int, i as int);
        }
    }

    /// Stores `v` at virtual address `va`.
    pub fn write_byte(&mut self, va: u64, v: u8)
        requires
            old(self).wf(),
            old(self).backed(vpn_of(va)),
        ensures
            final(self).wf(),
            same_shape(old(self), final(self)),
            forall|p: VirtPageNum| #[trigger] old(self).backed(p) ==> final(self).backed(p),
            forall|p: VirtPageNum|
                old(self).backed(p) ==> #[trigger] final(self).page(p) == if p
                    == vpn_of(va) {
                    old(self).page(p).update((va % 4096) as int, v)
                } else {
                    old(self).page(p)
                },
    {
        proof {
            lemma_masks(va);
        }
        let vpn = VirtAddr::from(va).floor();
        let (a, i) = self.locate(vpn);
        self.poke_byte(a, i, (va % 4096) as usize, v);
    }

    /// Stores `w` as a little-endian 64-bit word at virtual address `va`.
    pub fn write_word(&mut self, va: u64, w: u64)
        requires
            old(self).wf(),
            old(self).word_backed(va),
        ensures
            final(self).wf(),
            same_shape(old(self), final(self)),
            forall|p: VirtPageNum| #[trigger] old(self).backed(p) ==> final(self).backed(p),
            forall|p: VirtPageNum|
                old(self).backed(p) ==> #[trigger] final(self).page(p) == if p
                    == vpn_of(va) {
                    with_word(old(self).page(p), (va % 4096) as int, w)
                } else {
                    old(self).page(p)
                },
    {
        proof {
            lemma_masks(va);
        }
        let vpn = VirtAddr::from(va).floor();
        let (a, i) = self.locate(vpn);
        self.poke_word(a, i, (va % 4096) as usize, w);
    }

    /// Stores `words` as little-endian words from virtual address `va` on,
    /// within one page.
    pub fn write_words(&mut self, va: u64, words: &[u64])
        requires
            old(self).wf(),
            old(self).backed(vpn_of(va)),
            va % 4096 + 8 * words@.len() <= 4096,
        ensures
            final(self).wf(),
            same_shape(old(self), final(self)),
            forall|p: VirtPageNum| #[trigger] old(self).backed(p) ==> final(self).backed(p),
            forall|p: VirtPageNum|
                old(self).backed(p) ==> #[trigger] final(self).page(p) == if p == vpn_of(va) {
                    with_words(old(self).page(p), (va % 4096) as int, words@)
                } else {
                    old(self).page(p)
                },
    {
        proof {
            lemma_masks(va);
        }
        let vpn = VirtAddr::from(va).floor();
        let (a, i) = self.locate(vpn);
        self.poke_words(a, i, (va % 4096) as usize, words);
    }

    /// Stores `words` as little-endian words from offset `off` of frame
    /// `i` of area `a` on.
    pub fn poke_words(&mut self, a: usize, i: usize, off: usize, words: &[u64])
        requires
            old(self).wf(),
            a < old(self).areas.len(),
            i < old(self).areas[a as int].data_frames.len(),
            off + 8 * words@.len() <= 4096,
        ensures
            final(self).wf(),
            same_shape(old(self), final(self)),
            final(self).areas[a as int].data_frames[i as int]@ == with_words(
                old(self).areas[a as int].data_frames[i as int]@,
                off as int,
                words@,
            ),
            forall|p: VirtPageNum| #[trigger] old(self).backed(p) ==> final(self).backed(p),
            forall|p: VirtPageNum|
                old(self).backed(p) ==> #[trigger] final(self).page(p) == if p.0
                    == old(self).areas[a as int].start_vpn.0 + i && old(self).areas[a as int].map_type
                    == MapType::Framed {
                    final(self).areas[a as int].data_frames[i as int]@
                } else {
                    old(self).page(p)
                },
            forall|b: int, j: int|
                0 <= b < old(self).areas.len() && 0 <= j < old(self).areas[b].data_frames.len() && (b
                    != a || j != i) ==> #[trigger] final(self).areas[b].data_frames[j] == old(self).areas[b].data_frames[j],
    {
        assert(old(self).areas[a as int].wf());
        self.areas[a].data_frames[i].write_words(off, words);
        proof {
            Self::lemma_frame_changed(old(self), self, a as int, i as int);
        }
    }

    /// Stores the bytes of `data` from virtual address `va` on, within
    /// one page.
    pub fn write_bytes(&mut self, va: u64, data: &[u8])
        requires
            old(self).wf(),
            old(self).backed(vpn_of(va)),
            va % 4096 + data@.len() <= 4096,
        ensures
            final(self).wf(),
            same_shape(old(self), final(self)),
            forall|p: VirtPageNum| #[trigger] old(self).backed(p) ==> final(self).backed(p),
            forall|p: VirtPageNum|
                old(self).backed(p) ==> #[trigger] final(self).page(p) == if p == vpn_of(va) {
                    with_bytes(old(self).page(p), (va % 4096) as int, data@)
                } else {
                    old(self).page(p)
                },
    {
        proof {
            lemma_masks(va);
        }
        let vpn = VirtAddr::from(va).floor();
        let (a, i) = self.locate(vpn);
        self.poke_bytes(a, i, (va % 4096) as usize, data);
    }

    /// Stores the bytes of `data` from offset `off` of frame `i` of area
    /// `a` on.
    pub fn poke_bytes(&mut self, a: usize, i: usize, off: usize, data: &[u8])
        requires
            old(self).wf(),
            a < old(self).areas.len(),
            i < old(self).areas[a as int].data_frames.len(),
            off + data@.len() <= 4096,
        ensures
            final(self).wf(),
            same_shape(old(self), final(self)),
            final(self).areas[a as int].data_frames[i as int]@ == with_bytes(
                old(self).areas[a as int].data_frames[i as int]@,
                off as int,
                data@,
            ),
            forall|p: VirtPageNum| #[trigger] old(self).backed(p) ==> final(self).backed(p),
            forall|p: VirtPageNum|
                old(self).backed(p) ==> #[trigger] final(self).page(p) == if p.0
                    == old(self).areas[a as int].start_vpn.0 + i && old(self).areas[a as int].map_type
                    == MapType::Framed {
                    final(self).areas[a as int].data_frames[i as int]@
                } else {
                    old(self).page(p)
                },
    {
        assert(old(self).areas[a as int].wf());
        self.areas[a].data_frames[i].write_bytes(off, data);
        proof {
            Self::lemma_frame_changed(old(self), self, a as int, i as int);
        }
    }

    /// The `n` little-endian words from virtual address `va` on, within
    /// one page.
    pub fn read_words(&self, va: u64, n: usize) -> (r: Vec<u64>)
        requires
            self.wf(),
            self.backed(vpn_of(va)),
            va % 4096 + 8 * n <= 4096,
        ensures
            r@ == words_at(self.page(vpn_of(va)), (va % 4096) as int, n as int),
    {
        proof {
            lemma_masks(va);
        }
        let vpn = VirtAddr::from(va).floor();
        let (a, i) = self.locate(vpn);
        self.areas[a].data_frames[i].read_words((va % 4096) as usize, n)
    }

    /// Whether each of the `len` bytes from virtual address `ptr` on lies
    /// in a page that has a frame here.
    pub open spec fn buffer_backed(&self, ptr: u64, len: int) -> bool {
        &&& ptr + len <= u64::MAX
        &&& forall|k: int| 0 <= k < len ==> #[trigger] self.backed(vpn_of((ptr + k) as u64))
    }

    /// The `len` bytes from virtual address `ptr` on, as the frames of
    /// their pages hold them.
    pub open spec fn buffer_bytes(&self, ptr: u64, len: int) -> Seq<u8> {
        Seq::new(len as nat, |k: int| self.page(vpn_of((ptr + k) as u64))[(ptr + k) % 4096])
    }

    /// Whether each of the `len` bytes from virtual address `ptr` on lies
    /// in a page that has a frame here.
    pub fn is_buffer_backed(&self, ptr: u64, len: usize) -> (r: bool)
        requires
            self.wf(),
        ensures
            r == self.buffer_backed(ptr, len as int),
    {
        if len as u128 > (u64::MAX - ptr) as u128 {
            return false;
        }
        let end: u64 = ptr + len as u64;
        let mut va: u64 = ptr;
        while va < end
            invariant
                self.wf(),
                ptr <= va <= end,
                end == ptr + len,
                forall|k: int| 0 <= k < va - ptr ==> #[trigger] self.backed(vpn_of((ptr + k) as u64)),
            decreases end - va,
        {
            if !self.is_backed(va) {
                assert(!self.backed(vpn_of((ptr + (va - ptr)) as u64)));
                return false;
            }
            let page_end: u128 = (va as u128 / 4096 + 1) * 4096;
            let next: u64 = if page_end < end as u128 {
                page_end as u64
            } else {
                end
            };
            proof {
                assert forall|k: int| 0 <= k < next - ptr implies #[trigger] self.backed(
                    vpn_of((ptr + k) as u64),
                ) by {
                    if k >= va - ptr {
                        crate::mm::user_buffer::lemma_byte_in_first_slice(va, end, ptr + k - va);
                        assert((va + (ptr + k - va)) as u64 == (ptr + k) as u64);
                    }
                }
            }
            va = next;
        }
        true
    }

    /// The `len` bytes from virtual address `ptr` on.
    pub fn read_buffer(&self, ptr: u64, len: usize) -> (r: Vec<u8>)
        requires
            self.wf(),
            ptr + len <= u64::MAX,
            forall|k: int| 0 <= k < len ==> #[trigger] self.backed(vpn_of((ptr + k) as u64)),
        ensures
            r@.len() == len,
            forall|k: int|
                0 <= k < len ==> r@[k] == #[trigger] self.page(vpn_of((ptr + k) as u64))[((ptr + k)
                    % 4096) as int],
            r@ == self.buffer_bytes(ptr, len as int),
    {
        let mut r: Vec<u8> = Vec::new();
        let mut i: usize = 0;
        while i < len
            invariant
                i <= len,
                self.wf(),
                ptr + len <= u64::MAX,
                forall|k: int| 0 <= k < len ==> #[trigger] self.backed(vpn_of((ptr + k) as u64)),
                r@.len() == i,
                forall|k: int|
                    0 <= k < i ==> r@[k] == #[trigger] self.page(vpn_of((ptr + k) as u64))[((ptr + k)
                        % 4096) as int],
            decreases len - i,
        {
            assert(self.backed(vpn_of((ptr + i) as u64)));
            let b = self.read_byte(ptr + i as u64);
            r.push(b);
            i += 1;
        }
        assert(r@ =~= self.buffer_bytes(ptr, len as int));
        r
    }

    /// Overwrites frame `i` of area `a` with the contents of `src`.
    pub fn copy_frame(&mut self, a: usize, i: usize, src: &FrameTracker)
        requires
            old(self).wf(),
            a < old(self).areas.len(),
            i < old(self).areas[a as int].data_frames.len(),
            src.wf(),
        ensures
            final(self).wf(),
            same_shape(old(self), final(self)),
            final(self).areas[a as int].data_frames[i as int]@ == src@,
            forall|b: int, j: int|
                0 <= b < old(self).areas.len() && 0 <= j < old(self).areas[b].data_frames.len() && (b
                    != a || j != i) ==> #[trigger] final(self).areas[b].data_frames[j] == old(self).areas[b].data_frames[j],
    {
        assert(old(self).areas[a as int].wf());
        self.areas[a].data_frames[i].copy_from(src);
        proof {
            Self::lemma_frame_changed(old(self), self, a as int, i as int);
        }
    }

    /// A change of what one frame of one area holds leaves the shape of
    /// the space and every other page as they were.
    proof fn lemma_frame_changed(before: &MemorySet, after: &MemorySet, a: int, i: int)
        requires
            before.wf(),
            0 <= a < before.areas.len(),
            0 <= i < before.areas[a].data_frames.len(),
            after.page_table == before.page_table,
            after.areas.len() == before.areas.len(),
            forall|b: int| 0 <= b < before.areas.len() && b != a ==> #[trigger] after.areas[b] == before.areas[b],
            after.areas[a].start_vpn == before.areas[a].start_vpn,
            after.areas[a].end_vpn == before.areas[a].end_vpn,
            after.areas[a].map_type == before.areas[a].map_type,
            after.areas[a].map_perm == before.areas[a].map_perm,
            after.areas[a].data_frames.len() == before.areas[a].data_frames.len(),
            forall|j: int|
                0 <= j < before.areas[a].data_frames.len() && j != i ==> #[trigger] after.areas[a].data_frames[j]
                    == before.areas[a].data_frames[j],
            after.areas[a].data_frames[i].ppn == before.areas[a].data_frames[i].ppn,
            after.areas[a].data_frames[i]@.len() == before.areas[a].data_frames[i]@.len(),
        ensures
            same_shape(before, after),
            after.wf(),
            forall|b: int, j: int|
                0 <= b < before.areas.len() && 0 <= j < before.areas[b].data_frames.len() && (b != a
                    || j != i) ==> #[trigger] after.areas[b].data_frames[j]
                    == before.areas[b].data_frames[j],
            forall|p: VirtPageNum| #[trigger] before.backed(p) ==> after.backed(p),
            forall|p: VirtPageNum|
                before.backed(p) ==> #[trigger] after.page(p) == if p.0
                    == before.areas[a].start_vpn.0 + i && before.areas[a].map_type == MapType::Framed {
                    after.areas[a].data_frames[i]@
                } else {
                    before.page(p)
                },
    {
        reveal(same_shape);
        assert forall|b: int| 0 <= b < before.areas.len() implies area_same_shape(
            &(#[trigger] before.areas[b]),
            &after.areas[b],
        ) by {
            if b == a {
                assert forall|j: int| 0 <= j < before.areas[a].data_frames.len() implies (
                #[trigger] before.areas[a].data_frames[j]).ppn == after.areas[a].data_frames[j].ppn
                    && before.areas[a].data_frames[j]@.len() == after.areas[a].data_frames[j]@.len() by {
                    if j != i {
                        assert(after.areas[a].data_frames[j] == before.areas[a].data_frames[j]);
                    }
                }
            } else {
                assert(after.areas[b] == before.areas[b]);
            }
        }
        let al: StackFrameAllocator = arbitrary();
        lemma_same_shape(before, after, &al);
        assert forall|b: int, j: int|
            0 <= b < before.areas.len() && 0 <= j < before.areas[b].data_frames.len() && (b != a || j
                != i) implies #[trigger] after.areas[b].data_frames[j]
            == before.areas[b].data_frames[j] by {
            if b != a {
                assert(after.areas[b] == before.areas[b]);
            }
        }
        assert forall|p: VirtPageNum| #[trigger] before.backed(p) implies after.backed(p) && after.page(
            p,
        ) == if p.0 == before.areas[a].start_vpn.0 + i && before.areas[a].map_type
            == MapType::Framed {
            after.areas[a].data_frames[i]@
        } else {
            before.page(p)
        } by {
            let b = before.area_of(p);
            assert(after.area_of(p) == b);
            assert(area_same_shape(&before.areas[b], &after.areas[b]));
            assert(before.areas[b].wf());
            let j = p.0 - before.areas[b].start_vpn.0;
            if b == a && j == i {
            } else {
                if b != a {
                    assert(areas_apart(&before.areas[a], &before.areas[b]) || areas_apart(
                        &before.areas[b],
                        &before.areas[a],
                    ));
                    assert(before.areas[a].wf());
                }
                assert(after.areas[b].data_frames[j] == before.areas[b].data_frames[j]);
            }
        }
    }
}

/// Whether `after` is `before` but for what frame `i` of area `a`
/// holds.
pub open spec fn frame_rewritten(before: &MemorySet, after: &MemorySet, a: int, i: int) -> bool {
    &&& after.page_table == before.page_table
    &&& after.areas.len() == before.areas.len()
    &&& forall|b: int|
        0 <= b < before.areas.len() && b != a ==> #[trigger] after.areas[b] == before.areas[b]
    &&& after.areas[a].start_vpn == before.areas[a].start_vpn
    &&& after.areas[a].end_vpn == before.areas[a].end_vpn
    &&& after.areas[a].map_type == before.areas[a].map_type
    &&& after.areas[a].map_perm == before.areas[a].map_perm
    &&& after.areas[a].data_frames.len() == before.areas[a].data_frames.len()
    &&& forall|j: int|
        0 <= j < before.areas[a].data_frames.len() && j != i
            ==> #[trigger] after.areas[a].data_frames[j] == before.areas[a].data_frames[j]
    &&& after.areas[a].data_frames[i].ppn == before.areas[a].data_frames[i].ppn
    &&& after.areas[a].data_frames[i]@.len() == before.areas[a].data_frames[i]@.len()
}

/// The byte of a user program at `ptr`, for reading.
pub fn translated_ref(space: &MemorySet, ptr: u64) -> (r: &u8)
    requires
        space.wf(),
        space.backed(vpn_of(ptr)),
    ensures
        *r == space.page(vpn_of(ptr))[(ptr % 4096) as int],
{
    proof {
        lemma_masks(ptr);
    }
    let vpn = VirtAddr::from(ptr).floor();
    let (a, i) = space.locate(vpn);
    &space.areas[a].data_frames[i].bytes[(ptr % 4096) as usize]
}

/// The byte of a user program at `ptr`, for reading and writing: what
/// is stored through the reference is stored in the frame of the page, and
/// nothing else changes.
pub fn translated_refmut(space: &mut MemorySet, ptr: u64) -> (r: &mut u8)
    requires
        old(space).wf(),
        old(space).backed(vpn_of(ptr)),
    ensures
        *r == old(space).page(vpn_of(ptr))[(ptr % 4096) as int],
        frame_rewritten(
            old(space),
            final(space),
            old(space).area_of(vpn_of(ptr)),
            vpn_of(ptr).0 - old(space).areas[old(space).area_of(vpn_of(ptr))].start_vpn.0,
        ),
        final(space).wf(),
        same_shape(old(space), final(space)),
        forall|p: VirtPageNum| #[trigger] old(space).backed(p) ==> final(space).backed(p),
        forall|p: VirtPageNum|
            old(space).backed(p) ==> #[trigger] final(space).page(p) == if p == vpn_of(ptr) {
                old(space).page(p).update((ptr % 4096) as int, *final(r))
            } else {
                old(space).page(p)
            },
{
    proof {
        lemma_masks(ptr);
    }
    let vpn = VirtAddr::from(ptr).floor();
    let (a, i) = space.locate(vpn);
    proof {
        assert(old(space).areas[a as int].wf());
        assert forall|after: MemorySet|
            frame_rewritten(old(space), &after, a as int, i as int) implies #[trigger] after.wf() by {
            MemorySet::lemma_frame_changed(old(space), &after, a as int, i as int);
        }
        assert forall|after: MemorySet|
            frame_rewritten(old(space), &after, a as int, i as int) implies #[trigger] same_shape(
            old(space),
            &after,
        ) by {
            MemorySet::lemma_frame_changed(old(space), &after, a as int, i as int);
        }
        assert forall|after: MemorySet, p: VirtPageNum|
            frame_rewritten(old(space), &after, a as int, i as int) && old(space).backed(
                p,
            ) implies #[trigger] after.backed(p) by {
            MemorySet::lemma_frame_changed(old(space), &after, a as int, i as int);
        }
        assert forall|after: MemorySet, p: VirtPageNum|
            frame_rewritten(old(space), &after, a as int, i as int) && old(space).backed(
                p,
            ) implies #[trigger] after.page(p) == if p == vpn {
                after.areas[a as int].data_frames[i as int]@
            } else {
                old(space).page(p)
            } by {
            MemorySet::lemma_frame_changed(old(space), &after, a as int, i as int);
        }
    }
    space.areas[a].data_frames[i].get_mut((ptr % 4096) as usize)
}

} // verus!
