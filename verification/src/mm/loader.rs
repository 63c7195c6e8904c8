//! Building the address space of a user program from its ELF file.
use crate::mm::address::{lemma_masks, sign_extend_39, PhysPageNum, VirtAddr, VirtPageNum};
use crate::mm::elf::{header_ok, le64, spec_headers, ElfFile, ProgramHeader, PF_R, PF_W, PF_X, PT_LOAD};
use crate::mm::frame_allocator::{zeros, StackFrameAllocator};
use crate::mm::memory_set::{
    lemma_space_fresh_grew, overlay, space_fresh, space_grew, tables_needed, MapArea, MapPermission, MapType,
    MemorySet, MAP_R, MAP_U, MAP_W, MAP_X, TRAMPOLINE_VPN, TRAP_CONTEXT_VPN,
};
use crate::mm::page_table::{lemma_outside_at, PTEFlags, PageTableEntry};
use vstd::prelude::*;
use vstd::slice::slice_subrange;

verus! {

/// The permissions of a segment with the given flags: user access, and
/// read, write and execute as the flags say.
pub open spec fn perm_bits(flags: u32) -> u8 {
    ((16u8 | if flags & 4 != 0 {
        2u8
    } else {
        0u8
    }) | if flags & 2 != 0 {
        4u8
    } else {
        0u8
    }) | if flags & 1 != 0 {
        8u8
    } else {
        0u8
    }
}

impl ProgramHeader {
    /// Whether the header describes a segment to load.
    pub open spec fn is_load(&self) -> bool {
        self.p_type == 1
    }

    /// First page of the segment.
    pub open spec fn start_vpn(&self) -> u64 {
        ((self.vaddr % 0x80_0000_0000) / 4096) as u64
    }

    /// First page after the segment.
    pub open spec fn end_vpn(&self) -> u64 {
        ((((self.vaddr + self.memsz) as u64 % 0x80_0000_0000) + 4095) / 4096) as u64
    }

    /// The segment can be loaded from a file of `len` bytes: its bytes lie
    /// in the file, its end does not wrap around, its pages are in order,
    /// hold its bytes and leave room below the trap context for a guard
    /// page and the user stack.
    pub open spec fn loadable(&self, len: int) -> bool {
        &&& self.offset + self.filesz <= len
        &&& self.vaddr + self.memsz <= u64::MAX
        &&& self.start_vpn() <= self.end_vpn()
        &&& self.filesz <= (self.end_vpn() - self.start_vpn()) * 4096
        &&& self.end_vpn() + 3 <= TRAP_CONTEXT_VPN
    }

    /// Number of free frames that loading the segment is sure to succeed
    /// with.
    pub open spec fn frames_needed(&self) -> int {
        tables_needed(self.start_vpn() as int, self.end_vpn() as int) + self.end_vpn()
            - self.start_vpn()
    }
}

/// The highest end of a segment to load among `headers`, zero where there
/// is none.
pub open spec fn max_end(headers: Seq<ProgramHeader>) -> u64
    decreases headers.len(),
{
    if headers.len() == 0 {
        0
    } else {
        let m = max_end(headers.drop_last());
        if headers.last().is_load() && headers.last().end_vpn() > m {
            headers.last().end_vpn()
        } else {
            m
        }
    }
}

/// Number of free frames that loading the segments of `headers` is sure
/// to succeed with.
pub open spec fn loads_needed(headers: Seq<ProgramHeader>) -> int
    decreases headers.len(),
{
    if headers.len() == 0 {
        0
    } else {
        loads_needed(headers.drop_last()) + if headers.last().is_load() {
            headers.last().frames_needed()
        } else {
            0
        }
    }
}

/// The file `data` can be loaded: it has a header that `header_ok`
/// accepts, each of its segments to load is loadable, and no two of them
/// share a page.
pub open spec fn elf_loadable(data: Seq<u8>) -> bool {
    &&& header_ok(data)
    &&& forall|i: int|
        0 <= i < spec_headers(data).len() && (#[trigger] spec_headers(data)[i]).is_load()
            ==> spec_headers(data)[i].loadable(data.len() as int)
    &&& forall|i: int, j: int|
        0 <= i < j < spec_headers(data).len() && (#[trigger] spec_headers(data)[i]).is_load() && (
        #[trigger] spec_headers(data)[j]).is_load() ==> {
            let x = spec_headers(data)[i];
            let y = spec_headers(data)[j];
            x.end_vpn() <= y.start_vpn() || y.end_vpn() <= x.start_vpn() || x.start_vpn()
                == x.end_vpn() || y.start_vpn() == y.end_vpn()
        }
}

/// Number of free frames that loading the file `data` is sure to succeed
/// with: the root table and the tables of the trampoline, the segments,
/// the user stack and the trap context.
pub open spec fn elf_frames_needed(data: Seq<u8>) -> int {
    let m = max_end(spec_headers(data));
    3 + loads_needed(spec_headers(data)) + tables_needed(m + 1, m + 3) + 2 + tables_needed(
        TRAP_CONTEXT_VPN as int,
        TRAP_CONTEXT_VPN + 1,
    ) + 1
}

/// The top of the user stack of a program whose segments end at page
/// `m`: above a guard page and the stack pages.
pub open spec fn user_stack_top(m: u64) -> u64 {
    (sign_extend_39((m * 4096) as u64) + 4096 + 8192) as u64
}

/// Whether `area` is the area of the segment of header `h` of the file
/// `data`: it has the pages and permissions of the segment, and its frames
/// hold the bytes of the segment from the start of the first page on,
/// followed by zeros.
pub open spec fn segment_area(data: Seq<u8>, h: ProgramHeader, area: &MapArea) -> bool {
    &&& area.start_vpn.0 == h.start_vpn()
    &&& area.end_vpn.0 == h.end_vpn()
    &&& area.map_type == MapType::Framed
    &&& area.map_perm.bits == perm_bits(h.flags)
    &&& area.wf()
    &&& forall|i: int|
        0 <= i < area.data_frames.len() ==> (#[trigger] area.data_frames[i])@ == overlay(
            zeros(4096),
            data.subrange(h.offset as int, h.offset + h.filesz),
            i * 4096,
        )
}

/// Whether `area` is a framed area of cleared frames for the pages
/// `[start, end)` with permissions `perm`.
pub open spec fn blank_area(area: &MapArea, start: int, end: int, perm: u8) -> bool {
    &&& area.start_vpn.0 == start
    &&& area.end_vpn.0 == end
    &&& area.map_type == MapType::Framed
    &&& area.map_perm.bits == perm
    &&& area.wf()
    &&& forall|i: int|
        0 <= i < area.data_frames.len() ==> (#[trigger] area.data_frames[i])@ == zeros(4096)
}

/// Whether `area` is the area of one of the segments to load of the file
/// `data`.
pub open spec fn from_segment(data: Seq<u8>, area: &MapArea) -> bool {
    exists|i: int|
        0 <= i < spec_headers(data).len() && (#[trigger] spec_headers(data)[i]).is_load()
            && segment_area(data, spec_headers(data)[i], area)
}

/// Whether one of the areas of `space` before its last two is the area of
/// segment `i` of the file `data`.
pub open spec fn segment_loaded(space: &MemorySet, data: Seq<u8>, i: int) -> bool {
    exists|a: int|
        0 <= a < space.areas.len() - 2 && segment_area(
            data,
            spec_headers(data)[i],
            &#[trigger] space.areas[a],
        )
}

/// No segment to load ends above `max_end`.
pub proof fn lemma_max_end(headers: Seq<ProgramHeader>, j: int)
    requires
        0 <= j < headers.len(),
        headers[j].is_load(),
    ensures
        headers[j].end_vpn() <= max_end(headers),
    decreases headers.len(),
{
    if j < headers.len() - 1 {
        lemma_max_end(headers.drop_last(), j);
    }
}

/// Where every segment to load leaves room for the stack, so does the
/// highest.
pub proof fn lemma_max_end_room(headers: Seq<ProgramHeader>)
    requires
        forall|i: int|
            0 <= i < headers.len() && (#[trigger] headers[i]).is_load() ==> headers[i].end_vpn() + 3
                <= TRAP_CONTEXT_VPN,
    ensures
        max_end(headers) + 3 <= TRAP_CONTEXT_VPN,
    decreases headers.len(),
{
    if headers.len() > 0 {
        lemma_max_end_room(headers.drop_last());
        assert(headers.last() == headers[headers.len() - 1]);
    }
}

/// The frames that the first `i` headers need are among those that all
/// need.
pub proof fn lemma_loads_needed_mono(headers: Seq<ProgramHeader>, i: int)
    requires
        0 <= i <= headers.len(),
        forall|j: int|
            0 <= j < headers.len() && (#[trigger] headers[j]).is_load() ==> headers[j].start_vpn()
                <= headers[j].end_vpn(),
    ensures
        0 <= loads_needed(headers.subrange(0, i)) <= loads_needed(headers),
    decreases headers.len(),
{
    if i == headers.len() {
        assert(headers.subrange(0, i) =~= headers);
        if i > 0 {
            lemma_loads_needed_mono(headers.drop_last(), i - 1);
            assert(headers.drop_last().subrange(0, i - 1) =~= headers.drop_last());
            assert(headers.last() == headers[headers.len() - 1]);
        }
    } else {
        lemma_loads_needed_mono(headers.drop_last(), i);
        assert(headers.drop_last().subrange(0, i) =~= headers.subrange(0, i));
        assert(headers.last() == headers[headers.len() - 1]);
    }
}

/// What one more header adds to `max_end` and `loads_needed`.
pub proof fn lemma_headers_step(headers: Seq<ProgramHeader>, i: int)
    requires
        0 <= i < headers.len(),
    ensures
        loads_needed(headers.subrange(0, i + 1)) == loads_needed(headers.subrange(0, i))
            + if headers[i].is_load() {
            headers[i].frames_needed()
        } else {
            0
        },
        max_end(headers.subrange(0, i + 1)) == if headers[i].is_load() && headers[i].end_vpn()
            > max_end(headers.subrange(0, i)) {
            headers[i].end_vpn()
        } else {
            max_end(headers.subrange(0, i))
        },
{
    let s = headers.subrange(0, i + 1);
    assert(s.drop_last() =~= headers.subrange(0, i));
    assert(s.last() == headers[i]);
}

/// Where the user stack of a program lies whose segments end at page
/// `m`.
pub proof fn lemma_stack_pages(m: u64)
    requires
        m + 3 <= TRAP_CONTEXT_VPN,
    ensures
        m << 12 == m * 4096,
        sign_extend_39((m * 4096) as u64) + 4096 + 8192 <= u64::MAX,
        ((sign_extend_39((m * 4096) as u64) + 4096) as u64 % 0x80_0000_0000) / 4096 == m + 1,
        (((sign_extend_39((m * 4096) as u64) + 4096 + 8192) as u64 % 0x80_0000_0000) + 4095) / 4096
            == m + 3,
        user_stack_top(m) >= 12288,
        user_stack_top(m) % 4096 == 0,
        forall|va: u64|
            user_stack_top(m) - 8192 <= va < user_stack_top(m) ==> (
            #[trigger] crate::mm::access::vpn_of(va)).0 == if va < user_stack_top(m) - 4096 {
                m + 1
            } else {
                m + 2
            },
{
    let x: u64 = (m * 4096) as u64;
    let s: u64 = sign_extend_39(x);
    assert((m <= 0x7ff_fffb ==> m << 12 == m * 4096) && (m <= 0x7ff_fffb && x == m * 4096 && s == (
    if x >= 0x40_0000_0000 {
        x | 0xffff_ff80_0000_0000
    } else {
        x
    }) ==> s <= 0xffff_ffff_ffff_b000 && s % 0x80_0000_0000 == x)) by (bit_vector);
    assert(s + 4096 + 8192 <= u64::MAX);
    let b: u64 = (s + 4096) as u64;
    let t: u64 = (s + 4096 + 8192) as u64;
    assert(b as int % 0x80_0000_0000 == (x + 4096) % 0x80_0000_0000);
    assert(t as int % 0x80_0000_0000 == (x + 4096 + 8192) % 0x80_0000_0000);
    assert(s as int % 4096 == 0);
    assert forall|va: u64| user_stack_top(m) - 8192 <= va < user_stack_top(m) implies (
    #[trigger] crate::mm::access::vpn_of(va)).0 == if va < user_stack_top(m) - 4096 {
        m + 1
    } else {
        m + 2
    } by {
        let o = va - b;
        assert(0 <= o < 8192);
        assert(va as int % 0x80_0000_0000 == (x + 4096 + o) % 0x80_0000_0000);
        assert((x + 4096 + o) % 0x80_0000_0000 == x + 4096 + o);
    }
}

/// Whether one of the first `n` areas of `space` is the area of segment
/// `i` of the file `data`.
pub open spec fn segment_among(space: &MemorySet, data: Seq<u8>, i: int, n: int) -> bool {
    exists|a: int|
        0 <= a < n && a < space.areas.len() && segment_area(
            data,
            spec_headers(data)[i],
            &#[trigger] space.areas[a],
        )
}

impl MemorySet {
    /// Adds an area for each segment to load of the file `elf_data`, in
    /// file order, with the bytes of the segment, and gives the highest end
    /// of a segment.
    pub fn load_segments(
        &mut self,
        elf_data: &[u8],
        elf: &ElfFile,
        allocator: &mut StackFrameAllocator,
    ) -> (r: VirtPageNum)
        requires
            elf_loadable(elf_data@),
            elf.program_headers@ == spec_headers(elf_data@),
            old(self).wf(),
            old(self).owned_by(old(allocator)),
            old(self).only_areas_mapped(),
            old(self).areas.len() == 0,
            old(self).page_table.is_mapped(VirtPageNum(TRAMPOLINE_VPN)),
            old(allocator).wf(),
            old(allocator).free_count() >= loads_needed(spec_headers(elf_data@)),
        ensures
            final(self).wf(),
            final(self).owned_by(final(allocator)),
            final(self).only_areas_mapped(),
            final(allocator).wf(),
            space_grew(old(self), final(self), old(allocator), final(allocator)),
            final(self).page_table.walk(VirtPageNum(TRAMPOLINE_VPN)) == old(self).page_table.walk(
                VirtPageNum(TRAMPOLINE_VPN),
            ),
            final(self).page_table.root_ppn == old(self).page_table.root_ppn,
            r.0 == max_end(spec_headers(elf_data@)),
            forall|i: int|
                0 <= i < spec_headers(elf_data@).len() && (#[trigger] spec_headers(
                    elf_data@,
                )[i]).is_load() ==> segment_among(
                    final(self),
                    elf_data@,
                    i,
                    final(self).areas.len() as int,
                ),
            forall|a: int|
                0 <= a < final(self).areas.len() ==> from_segment(
                    elf_data@,
                    &#[trigger] final(self).areas[a],
                ),
            final(allocator).free_count() >= old(allocator).free_count() - loads_needed(
                spec_headers(elf_data@),
            ),
    {
        let ghost data = elf_data@;
        let ghost hs = spec_headers(data);
        let n = elf.program_headers.len();
        let ghost tv = VirtPageNum(TRAMPOLINE_VPN);
        proof {
            lemma_loads_needed_mono(hs, 0);
            assert(hs.subrange(0, 0) =~= Seq::<ProgramHeader>::empty());
            crate::mm::memory_set::lemma_space_grew_refl(old(self), old(allocator));
        }
        let mut max_end_vpn = VirtPageNum(0);
        let ghost mut owner: Seq<int> = Seq::empty();
        let mut i: usize = 0;
        while i < n
            invariant
                i <= n,
                n == hs.len(),
                data == elf_data@,
                hs == spec_headers(data),
                elf.program_headers@ == hs,
                elf_loadable(data),
                self.wf(),
                self.owned_by(allocator),
                self.only_areas_mapped(),
                allocator.wf(),
                space_grew(old(self), self, old(allocator), allocator),
                tv == VirtPageNum(TRAMPOLINE_VPN),
                self.page_table.is_mapped(tv),
                self.page_table.walk(tv) == old(self).page_table.walk(tv),
                self.page_table.root_ppn == old(self).page_table.root_ppn,
                max_end_vpn.0 == max_end(hs.subrange(0, i as int)),
                owner.len() == self.areas.len(),
                forall|a: int|
                    0 <= a < owner.len() ==> 0 <= #[trigger] owner[a] < i && hs[owner[a]].is_load()
                        && segment_area(data, hs[owner[a]], &self.areas[a]),
                forall|j: int|
                    0 <= j < i && (#[trigger] hs[j]).is_load() ==> exists|a: int|
                        0 <= a < owner.len() && #[trigger] owner[a] == j,
                old(allocator).free_count() >= loads_needed(hs),
                allocator.free_count() >= old(allocator).free_count() - loads_needed(
                    hs.subrange(0, i as int),
                ),
            decreases n - i,
        {
            let ph = elf.program_headers[i];
            proof {
                lemma_headers_step(hs, i as int);
                lemma_loads_needed_mono(hs, i + 1);
                assert(ph == hs[i as int]);
            }
            if ph.p_type == PT_LOAD {
                proof {
                    assert(hs[i as int].loadable(data.len() as int));
                    lemma_masks(ph.vaddr);
                    lemma_masks((ph.vaddr + ph.memsz) as u64);
                }
                let start_va = VirtAddr::from(ph.vaddr);
                let end_va = VirtAddr::from(ph.vaddr + ph.memsz);
                let mut bits: u8 = MAP_U;
                if ph.flags & PF_R != 0 {
                    bits = bits | MAP_R;
                } else {
                    bits = bits | 0;
                }
                if ph.flags & PF_W != 0 {
                    bits = bits | MAP_W;
                } else {
                    bits = bits | 0;
                }
                if ph.flags & PF_X != 0 {
                    bits = bits | MAP_X;
                } else {
                    bits = bits | 0;
                }
                assert(bits == perm_bits(ph.flags));
                let map_area = MapArea::new(
                    start_va,
                    end_va,
                    MapType::Framed,
                    MapPermission { bits },
                );
                if map_area.end_vpn.0 > max_end_vpn.0 {
                    max_end_vpn = map_area.end_vpn;
                }
                let len = elf_data.len();
                let seg = slice_subrange(
                    elf_data,
                    ph.offset as usize,
                    (ph.offset + ph.filesz) as usize,
                );
                let ghost before = *self;
                let ghost al0 = *allocator;
                proof {
                    assert forall|vpn: VirtPageNum| map_area.contains(vpn) implies !self.page_table.is_mapped(
                        vpn,
                    ) by {
                        if self.page_table.is_mapped(vpn) {
                            assert(vpn.0 != TRAMPOLINE_VPN);
                            let a = choose|a: int|
                                0 <= a < self.areas.len() && (#[trigger] self.areas[a]).contains(vpn);
                            let j = owner[a];
                            assert(segment_area(data, hs[j], &self.areas[a]));
                            assert(hs[j].is_load() && hs[i as int].is_load());
                        }
                    }
                }
                self.push(map_area, Some(seg), allocator);
                proof {
                    crate::mm::memory_set::lemma_space_grew_trans(
                        old(self),
                        &before,
                        self,
                        old(allocator),
                        &al0,
                        allocator,
                    );
                    lemma_outside_at(
                        &before.page_table,
                        &self.page_table,
                        map_area.start_vpn.0 as int,
                        map_area.end_vpn.0 as int,
                        tv,
                    );
                    let old_owner = owner;
                    owner = owner.push(i as int);
                    let na = self.areas@.last();
                    assert(self.areas[owner.len() - 1] == na);
                    assert(segment_area(data, hs[i as int], &na));
                    assert forall|a: int| 0 <= a < owner.len() implies 0 <= #[trigger] owner[a] < i
                        + 1 && hs[owner[a]].is_load() && segment_area(
                        data,
                        hs[owner[a]],
                        &self.areas[a],
                    ) by {
                        if a < old_owner.len() {
                            assert(owner[a] == old_owner[a]);
                            assert(self.areas[a] == before.areas[a]);
                        }
                    }
                    assert forall|j: int| 0 <= j < i + 1 && (#[trigger] hs[j]).is_load() implies exists|
                        a: int,
                    |
                        0 <= a < owner.len() && #[trigger] owner[a] == j by {
                        if j < i {
                            let a = choose|a: int|
                                0 <= a < old_owner.len() && #[trigger] old_owner[a] == j;
                            assert(owner[a] == j);
                        } else {
                            assert(owner[owner.len() - 1] == j);
                        }
                    }
                }
            }
            i += 1;
        }
        proof {
            assert(hs.subrange(0, n as int) =~= hs);
            assert forall|j: int| 0 <= j < hs.len() && (#[trigger] hs[j]).is_load() implies segment_among(
                self,
                data,
                j,
                self.areas.len() as int,
            ) by {
                let a = choose|a: int| 0 <= a < owner.len() && #[trigger] owner[a] == j;
                assert(segment_area(data, hs[owner[a]], &self.areas[a]));
            }
            assert forall|a: int| 0 <= a < self.areas.len() implies from_segment(
                data,
                &#[trigger] self.areas[a],
            ) by {
                let j = owner[a];
                assert(hs[j].is_load() && segment_area(data, hs[j], &self.areas[a]));
            }
        }
        max_end_vpn
    }

    /// Adds the user stack, above a guard page that follows page
    /// `max_end_vpn`, and the page of the trap context, and gives the top of
    /// the stack.
    pub fn add_stack_and_trap_context(
        &mut self,
        max_end_vpn: VirtPageNum,
        allocator: &mut StackFrameAllocator,
    ) -> (r: u64)
        requires
            old(self).wf(),
            old(self).owned_by(old(allocator)),
            old(self).only_areas_mapped(),
            old(allocator).wf(),
            max_end_vpn.0 + 3 <= TRAP_CONTEXT_VPN,
            forall|a: int|
                0 <= a < old(self).areas.len() ==> (#[trigger] old(self).areas[a]).end_vpn.0
                    <= max_end_vpn.0,
            old(self).page_table.is_mapped(VirtPageNum(TRAMPOLINE_VPN)),
            old(allocator).free_count() >= tables_needed(max_end_vpn.0 + 1, max_end_vpn.0 + 3) + 2
                + tables_needed(TRAP_CONTEXT_VPN as int, TRAP_CONTEXT_VPN + 1) + 1,
        ensures
            final(self).wf(),
            final(self).owned_by(final(allocator)),
            final(self).only_areas_mapped(),
            final(allocator).wf(),
            space_grew(old(self), final(self), old(allocator), final(allocator)),
            final(self).page_table.walk(VirtPageNum(TRAMPOLINE_VPN)) == old(self).page_table.walk(
                VirtPageNum(TRAMPOLINE_VPN),
            ),
            final(self).page_table.root_ppn == old(self).page_table.root_ppn,
            r == user_stack_top(max_end_vpn.0),
            final(self).areas.len() == old(self).areas.len() + 2,
            forall|a: int|
                0 <= a < old(self).areas.len() ==> #[trigger] final(self).areas[a] == old(self).areas[a],
            blank_area(
                &final(self).areas[final(self).areas.len() - 2],
                max_end_vpn.0 + 1,
                max_end_vpn.0 + 3,
                22,
            ),
            blank_area(
                &final(self).areas[final(self).areas.len() - 1],
                TRAP_CONTEXT_VPN as int,
                TRAP_CONTEXT_VPN + 1,
                6,
            ),
            final(allocator).free_count() >= old(allocator).free_count() - (tables_needed(
                max_end_vpn.0 + 1,
                max_end_vpn.0 + 3,
            ) + 2 + tables_needed(TRAP_CONTEXT_VPN as int, TRAP_CONTEXT_VPN + 1) + 1),
    {
        let ghost tv = VirtPageNum(TRAMPOLINE_VPN);
        let ghost m = max_end_vpn.0;
        proof {
            lemma_stack_pages(max_end_vpn.0);
        }
        let max_end_va: VirtAddr = VirtAddr::from(max_end_vpn);
        let mut user_stack_bottom: u64 = u64::from(max_end_va);
        user_stack_bottom += 4096;
        let user_stack_top_va: u64 = user_stack_bottom + crate::config::USER_STACK_SIZE;
        proof {
            lemma_masks(user_stack_bottom);
            lemma_masks(user_stack_top_va);
            crate::mm::page_table::lemma_flag_bits(0);
            crate::mm::page_table::lemma_flag_bits(0);
        }
        let stack_area = MapArea::new(
            VirtAddr::from(user_stack_bottom),
            VirtAddr::from(user_stack_top_va),
            MapType::Framed,
            MapPermission { bits: MAP_R | MAP_W | MAP_U },
        );
        proof {
            assert(stack_area.start_vpn.0 == m + 1);
            assert(stack_area.end_vpn.0 == m + 3);
            assert forall|vpn: VirtPageNum| stack_area.contains(vpn) implies !self.page_table.is_mapped(
                vpn,
            ) by {
                if self.page_table.is_mapped(vpn) {
                    let a = choose|a: int|
                        0 <= a < self.areas.len() && (#[trigger] self.areas[a]).contains(vpn);
                    assert(self.areas[a].end_vpn.0 <= m);
                }
            }
        }
        self.push(stack_area, None, allocator);
        let ghost stacked = *self;
        let ghost al4 = *allocator;
        proof {
            lemma_outside_at(&old(self).page_table, &stacked.page_table, m + 1, m + 3, tv);
            lemma_masks(crate::config::TRAP_CONTEXT);
            lemma_masks(crate::config::TRAMPOLINE);
        }
        let trap_area = MapArea::new(
            VirtAddr::from(crate::config::TRAP_CONTEXT),
            VirtAddr::from(crate::config::TRAMPOLINE),
            MapType::Framed,
            MapPermission { bits: MAP_R | MAP_W },
        );
        proof {
            assert(trap_area.start_vpn.0 == TRAP_CONTEXT_VPN);
            assert(trap_area.end_vpn.0 == TRAP_CONTEXT_VPN + 1);
            assert forall|vpn: VirtPageNum| trap_area.contains(vpn) implies !self.page_table.is_mapped(
                vpn,
            ) by {
                if self.page_table.is_mapped(vpn) {
                    let a = choose|a: int|
                        0 <= a < self.areas.len() && (#[trigger] self.areas[a]).contains(vpn);
                    if a < old(self).areas.len() {
                        assert(self.areas[a] == old(self).areas[a]);
                        assert(old(self).areas[a].end_vpn.0 <= m);
                    } else {
                        assert(self.areas[a] == stacked.areas@.last());
                    }
                }
            }
        }
        self.push(trap_area, None, allocator);
        proof {
            crate::mm::memory_set::lemma_space_grew_trans(
                old(self),
                &stacked,
                self,
                old(allocator),
                &al4,
                allocator,
            );
            lemma_outside_at(
                &stacked.page_table,
                &self.page_table,
                TRAP_CONTEXT_VPN as int,
                TRAP_CONTEXT_VPN + 1,
                tv,
            );
            let k = old(self).areas.len() as int;
            assert(self.areas[k + 1] == self.areas@.last());
            assert(self.areas[k] == stacked.areas[k]);
            assert(stacked.areas[k] == stacked.areas@.last());
            assert(self.areas[k].wf());
            assert(self.areas[k + 1].wf());
            assert forall|a: int| 0 <= a < old(self).areas.len() implies #[trigger] self.areas[a]
                == old(self).areas[a] by {
                assert(self.areas[a] == stacked.areas[a]);
            }
        }
        user_stack_top_va
    }

    /// The address space of the program in the ELF file `elf_data`, with
    /// the top of its user stack and its entry point. The space holds the
    /// trampoline page, an area for each segment to load with the bytes of
    /// the segment, then a guard page left unmapped, the user stack, and the
    /// page of the trap context.
    pub fn from_elf(elf_data: &[u8], strampoline: u64, allocator: &mut StackFrameAllocator) -> (r: (
        Self,
        u64,
        u64,
    ))
        requires
            elf_loadable(elf_data@),
            strampoline % 4096 == 0,
            old(allocator).wf(),
            old(allocator).free_count() >= elf_frames_needed(elf_data@),
        ensures
            r.0.wf(),
            r.0.owned_by(final(allocator)),
            r.0.only_areas_mapped(),
            final(allocator).wf(),
            space_fresh(&r.0, old(allocator), final(allocator)),
            r.1 == user_stack_top(max_end(spec_headers(elf_data@))),
            r.2 == le64(elf_data@, 24),
            r.0.page_table.walk(VirtPageNum(TRAMPOLINE_VPN)) == Some(
                PageTableEntry::spec_new(
                    PhysPageNum(((strampoline % 0x100_0000_0000_0000) / 4096) as u64),
                    PTEFlags { bits: 43 },
                ),
            ),
            r.0.areas.len() >= 2,
            blank_area(
                &r.0.areas[r.0.areas.len() - 2],
                max_end(spec_headers(elf_data@)) + 1,
                max_end(spec_headers(elf_data@)) + 3,
                22,
            ),
            blank_area(
                &r.0.areas[r.0.areas.len() - 1],
                TRAP_CONTEXT_VPN as int,
                TRAP_CONTEXT_VPN + 1,
                6,
            ),
            forall|i: int|
                0 <= i < spec_headers(elf_data@).len() && (#[trigger] spec_headers(
                    elf_data@,
                )[i]).is_load() ==> segment_loaded(&r.0, elf_data@, i),
            forall|a: int|
                0 <= a < r.0.areas.len() - 2 ==> from_segment(elf_data@, &#[trigger] r.0.areas[a]),
            Some(r.0.page_table.root_ppn.0) == old(allocator).next_free(),
            final(allocator).free_count() >= old(allocator).free_count() - elf_frames_needed(
                elf_data@,
            ),
            program_space(&r.0, elf_data@, strampoline),
    {
        let ghost data = elf_data@;
        let ghost hs = spec_headers(data);
        let elf = match ElfFile::parse(elf_data) {
            Some(e) => e,
            None => ElfFile { entry: 0, program_headers: Vec::new() },
        };
        let ghost tv = VirtPageNum(TRAMPOLINE_VPN);
        proof {
            lemma_loads_needed_mono(hs, hs.len() as int);
            lemma_max_end_room(hs);
        }
        let mut memory_set = Self::new_bare(allocator);
        let ghost bare = memory_set;
        let ghost al1 = *allocator;
        proof {
            crate::mm::page_table::lemma_zero_not_valid();
            assert(memory_set.page_table.walk(tv) is None);
        }
        memory_set.map_trampoline(strampoline, allocator);
        let ghost tramp = memory_set;
        let ghost al2 = *allocator;
        proof {
            lemma_space_fresh_grew(&bare, &tramp, old(allocator), &al1, &al2);
            crate::mm::page_table::lemma_entry_round_trip(
                PhysPageNum(((strampoline % 0x100_0000_0000_0000) / 4096) as u64),
                PTEFlags { bits: 43 },
            );
            crate::mm::page_table::lemma_flag_bits(0);
        }
        let max_end_vpn = memory_set.load_segments(elf_data, &elf, allocator);
        let ghost loaded = memory_set;
        let ghost al3 = *allocator;
        proof {
            lemma_space_fresh_grew(&tramp, &loaded, old(allocator), &al2, &al3);
            assert forall|a: int| 0 <= a < loaded.areas.len() implies (
            #[trigger] loaded.areas[a]).end_vpn.0 <= max_end_vpn.0 by {
                assert(from_segment(data, &loaded.areas[a]));
                let j = choose|j: int|
                    0 <= j < hs.len() && (#[trigger] hs[j]).is_load() && segment_area(
                        data,
                        hs[j],
                        &loaded.areas[a],
                    );
                lemma_max_end(hs, j);
            }
        }
        let user_sp = memory_set.add_stack_and_trap_context(max_end_vpn, allocator);
        proof {
            lemma_space_fresh_grew(&loaded, &memory_set, old(allocator), &al3, allocator);
            assert forall|j: int| 0 <= j < hs.len() && (#[trigger] hs[j]).is_load() implies segment_loaded(
                &memory_set,
                data,
                j,
            ) by {
                assert(segment_among(&loaded, data, j, loaded.areas.len() as int));
                let a = choose|a: int|
                    0 <= a < loaded.areas.len() && segment_area(
                        data,
                        hs[j],
                        &#[trigger] loaded.areas[a],
                    );
                assert(memory_set.areas[a] == loaded.areas[a]);
            }
            assert forall|a: int| 0 <= a < memory_set.areas.len() - 2 implies from_segment(
                data,
                &#[trigger] memory_set.areas[a],
            ) by {
                assert(memory_set.areas[a] == loaded.areas[a]);
                assert(from_segment(data, &loaded.areas[a]));
            }
            reveal(program_space);
        }
        (memory_set, user_sp, elf.entry)
    }
}

/// What the space of a loaded program holds for a page of a segment: a
/// frame with the bytes of the segment that fall on the page, counted from
/// the start of the segment's first page, and zeros after them; the page
/// is mapped with the permissions of the segment.
pub proof fn lemma_loaded_page(space: &MemorySet, data: Seq<u8>, i: int, vpn: VirtPageNum)
    requires
        space.wf(),
        0 <= i < spec_headers(data).len(),
        spec_headers(data)[i].is_load(),
        segment_loaded(space, data, i),
        spec_headers(data)[i].start_vpn() <= vpn.0 < spec_headers(data)[i].end_vpn(),
    ensures
        space.backed(vpn),
        space.page(vpn) == overlay(
            zeros(4096),
            data.subrange(
                spec_headers(data)[i].offset as int,
                spec_headers(data)[i].offset + spec_headers(data)[i].filesz,
            ),
            (vpn.0 - spec_headers(data)[i].start_vpn()) * 4096,
        ),
        space.page_table.walk(vpn) is Some,
        space.page_table.walk(vpn)->Some_0.spec_flags().bits == perm_bits(
            spec_headers(data)[i].flags,
        ) | 1,
{
    let h = spec_headers(data)[i];
    let a = choose|a: int|
        0 <= a < space.areas.len() - 2 && segment_area(data, h, &#[trigger] space.areas[a]);
    assert(space.areas[a].contains(vpn));
    space.lemma_area_unique(vpn, a);
    MemorySet::lemma_area_page_mapped(&space.areas[a], &space.page_table, vpn);
    let k = vpn.0 - h.start_vpn();
    assert(space.areas[a].data_frames[k]@ == overlay(
        zeros(4096),
        data.subrange(h.offset as int, h.offset + h.filesz),
        k * 4096,
    ));
}

/// Whether `area` is the one-page area of the trap context.
pub open spec fn trap_context_area(area: &MapArea) -> bool {
    &&& area.start_vpn.0 == TRAP_CONTEXT_VPN
    &&& area.end_vpn.0 == TRAP_CONTEXT_VPN + 1
    &&& area.map_type == MapType::Framed
    &&& area.map_perm.bits == 6
    &&& area.wf()
}

/// Whether `space` is the address space of the program in the file
/// `data`: the trampoline is mapped, the areas of the segments to load
/// come first, with the bytes of the segments, then the cleared user
/// stack, then the page of the trap context.
#[verifier::opaque]
pub open spec fn program_space(space: &MemorySet, data: Seq<u8>, strampoline: u64) -> bool {
    &&& space.wf()
    &&& space.only_areas_mapped()
    &&& space.page_table.walk(VirtPageNum(TRAMPOLINE_VPN)) == Some(
        PageTableEntry::spec_new(
            PhysPageNum(((strampoline % 0x100_0000_0000_0000) / 4096) as u64),
            PTEFlags { bits: 43 },
        ),
    )
    &&& space.areas.len() >= 2
    &&& blank_area(
        &space.areas[space.areas.len() - 2],
        max_end(spec_headers(data)) + 1,
        max_end(spec_headers(data)) + 3,
        22,
    )
    &&& trap_context_area(&space.areas[space.areas.len() - 1])
    &&& forall|i: int|
        0 <= i < spec_headers(data).len() && (#[trigger] spec_headers(data)[i]).is_load()
            ==> segment_loaded(space, data, i)
    &&& forall|a: int|
        0 <= a < space.areas.len() - 2 ==> from_segment(data, &#[trigger] space.areas[a])
}

/// A change of what the frame of the trap context holds leaves the
/// space of a program the space of that program.
pub proof fn lemma_program_space_kept(before: &MemorySet, after: &MemorySet, data: Seq<u8>, strampoline: u64)
    requires
        program_space(before, data, strampoline),
        after.wf(),
        crate::mm::access::same_shape(before, after),
        forall|b: int, j: int|
            0 <= b < before.areas.len() - 1 && 0 <= j < before.areas[b].data_frames.len() ==> (
            #[trigger] after.areas[b].data_frames[j])@ == before.areas[b].data_frames[j]@,
    ensures
        program_space(after, data, strampoline),
{
    reveal(program_space);
    reveal(crate::mm::access::same_shape);
    let al: StackFrameAllocator = arbitrary();
    crate::mm::access::lemma_same_shape(before, after, &al);
    let n = before.areas.len() as int;
    assert forall|b: int| 0 <= b < n implies crate::mm::access::area_same_shape(
        &before.areas[b],
        &#[trigger] after.areas[b],
    ) by {}
    assert(crate::mm::access::area_same_shape(&before.areas[n - 2], &after.areas[n - 2]));
    assert(crate::mm::access::area_same_shape(&before.areas[n - 1], &after.areas[n - 1]));
    assert(after.areas[n - 2].wf());
    assert(after.areas[n - 1].wf());
    assert forall|i: int| 0 <= i < after.areas[n - 2].data_frames.len() implies (
    #[trigger] after.areas[n - 2].data_frames[i])@ == zeros(4096) by {
        assert(after.areas[n - 2].data_frames[i]@ == before.areas[n - 2].data_frames[i]@);
    }
    assert forall|a: int, h: ProgramHeader|
        0 <= a < n - 1 && segment_area(data, h, &before.areas[a]) implies segment_area(
        data,
        h,
        &#[trigger] after.areas[a],
    ) by {
        assert(crate::mm::access::area_same_shape(&before.areas[a], &after.areas[a]));
        assert(after.areas[a].wf());
        assert forall|i: int| 0 <= i < after.areas[a].data_frames.len() implies (
        #[trigger] after.areas[a].data_frames[i])@ == overlay(
            zeros(4096),
            data.subrange(h.offset as int, h.offset + h.filesz),
            i * 4096,
        ) by {
            assert(after.areas[a].data_frames[i]@ == before.areas[a].data_frames[i]@);
        }
    }
    assert forall|i: int|
        0 <= i < spec_headers(data).len() && (#[trigger] spec_headers(data)[i]).is_load() implies segment_loaded(
        after,
        data,
        i,
    ) by {
        assert(segment_loaded(before, data, i));
        let a = choose|a: int|
            0 <= a < before.areas.len() - 2 && segment_area(
                data,
                spec_headers(data)[i],
                &#[trigger] before.areas[a],
            );
        assert(segment_area(data, spec_headers(data)[i], &after.areas[a]));
    }
    assert forall|a: int| 0 <= a < after.areas.len() - 2 implies from_segment(
        data,
        &#[trigger] after.areas[a],
    ) by {
        assert(from_segment(data, &before.areas[a]));
        let i = choose|i: int|
            0 <= i < spec_headers(data).len() && (#[trigger] spec_headers(data)[i]).is_load()
                && segment_area(data, spec_headers(data)[i], &before.areas[a]);
        assert(segment_area(data, spec_headers(data)[i], &after.areas[a]));
    }
}

/// The page of the trap context of the space of a program has a frame.
pub proof fn lemma_trap_context_backed(space: &MemorySet)
    requires
        space.wf(),
        space.areas.len() >= 1,
        trap_context_area(&space.areas[space.areas.len() - 1]),
    ensures
        space.backed(VirtPageNum(TRAP_CONTEXT_VPN)),
        space.area_of(VirtPageNum(TRAP_CONTEXT_VPN)) == space.areas.len() - 1,
        space.page(VirtPageNum(TRAP_CONTEXT_VPN)) == space.areas[space.areas.len()
            - 1].data_frames[0]@,
        space.page(VirtPageNum(TRAP_CONTEXT_VPN)).len() == 4096,
        space.page_table.walk(VirtPageNum(TRAP_CONTEXT_VPN)) is Some,
        space.page_table.walk(VirtPageNum(TRAP_CONTEXT_VPN))->Some_0.spec_ppn()
            == space.areas[space.areas.len() - 1].data_frames[0].ppn,
{
    let n = space.areas.len() as int;
    let v = VirtPageNum(TRAP_CONTEXT_VPN);
    assert(space.areas[n - 1].contains(v));
    space.lemma_area_unique(v, n - 1);
    MemorySet::lemma_area_page_mapped(&space.areas[n - 1], &space.page_table, v);
    assert(space.areas[n - 1].data_frames[0].wf());
}

/// What `program_space` says of the shape of a space: it is well
/// formed and maps nothing but its areas and the trampoline; its last area
/// is the page of the trap context; no area holds the trampoline page.
pub proof fn lemma_program_space_shape(space: &MemorySet, data: Seq<u8>, strampoline: u64)
    requires
        program_space(space, data, strampoline),
        elf_loadable(data),
    ensures
        space.wf(),
        space.only_areas_mapped(),
        space.areas.len() >= 2,
        trap_context_area(&space.areas[space.areas.len() - 1]),
        forall|a: int|
            0 <= a < space.areas.len() ==> !(#[trigger] space.areas[a]).contains(
                VirtPageNum(TRAMPOLINE_VPN),
            ),
        forall|b: int, j: int|
            0 <= b < space.areas.len() - 1 && 0 <= j < space.areas[b].data_frames.len() ==> (
            #[trigger] space.areas[b].data_frames[j]).wf(),
{
    reveal(program_space);
    let n = space.areas.len() as int;
    lemma_max_end_room(spec_headers(data));
    assert forall|a: int| 0 <= a < space.areas.len() implies !(#[trigger] space.areas[a]).contains(
        VirtPageNum(TRAMPOLINE_VPN),
    ) by {
        if a < n - 2 {
            assert(from_segment(data, &space.areas[a]));
            let i = choose|i: int|
                0 <= i < spec_headers(data).len() && (#[trigger] spec_headers(data)[i]).is_load()
                    && segment_area(data, spec_headers(data)[i], &space.areas[a]);
            assert(spec_headers(data)[i].loadable(data.len() as int));
        }
    }
    assert forall|b: int, j: int|
        0 <= b < space.areas.len() - 1 && 0 <= j < space.areas[b].data_frames.len() implies (
    #[trigger] space.areas[b].data_frames[j]).wf() by {
        assert(space.areas[b].wf());
    }
}

/// Whether `area` is the area of the user stack of a program whose
/// segments end at page `m`.
pub open spec fn stack_area(area: &MapArea, m: int) -> bool {
    &&& area.start_vpn.0 == m + 1
    &&& area.end_vpn.0 == m + 3
    &&& area.map_type == MapType::Framed
    &&& area.map_perm.bits == 22
    &&& area.wf()
}

/// Whether `space` is laid out as the address space of the program in
/// the file `data`: what `program_space` says, but that the user stack
/// may hold anything.
#[verifier::opaque]
pub open spec fn program_layout(space: &MemorySet, data: Seq<u8>, strampoline: u64) -> bool {
    &&& space.wf()
    &&& space.only_areas_mapped()
    &&& space.page_table.walk(VirtPageNum(TRAMPOLINE_VPN)) == Some(
        PageTableEntry::spec_new(
            PhysPageNum(((strampoline % 0x100_0000_0000_0000) / 4096) as u64),
            PTEFlags { bits: 43 },
        ),
    )
    &&& space.areas.len() >= 2
    &&& stack_area(&space.areas[space.areas.len() - 2], max_end(spec_headers(data)) as int)
    &&& trap_context_area(&space.areas[space.areas.len() - 1])
    &&& forall|i: int|
        0 <= i < spec_headers(data).len() && (#[trigger] spec_headers(data)[i]).is_load()
            ==> segment_loaded(space, data, i)
    &&& forall|a: int|
        0 <= a < space.areas.len() - 2 ==> from_segment(data, &#[trigger] space.areas[a])
}

/// The space of a program is laid out as the space of that program, and
/// its user stack is the 8192 bytes below the top of the stack, which are
/// zero.
pub proof fn lemma_program_stack(space: &MemorySet, data: Seq<u8>, strampoline: u64)
    requires
        program_space(space, data, strampoline),
        elf_loadable(data),
    ensures
        program_layout(space, data, strampoline),
        ({
            let top = user_stack_top(max_end(spec_headers(data)));
            let lo = crate::mm::access::vpn_of((top - 8192) as u64);
            let hi = crate::mm::access::vpn_of((top - 4096) as u64);
            &&& top >= 8192
            &&& top % 4096 == 0
            &&& lo.0 == max_end(spec_headers(data)) + 1
            &&& hi.0 == max_end(spec_headers(data)) + 2
            &&& space.backed(lo)
            &&& space.backed(hi)
            &&& space.page(lo) == zeros(4096)
            &&& space.page(hi) == zeros(4096)
            &&& forall|va: u64|
                top - 8192 <= va < top ==> #[trigger] crate::mm::access::vpn_of(va) == if va < top
                    - 4096 {
                    lo
                } else {
                    hi
                }
        }),
{
    reveal(program_space);
    reveal(program_layout);
    let m = max_end(spec_headers(data));
    lemma_max_end_room(spec_headers(data));
    lemma_stack_pages(m);
    let top = user_stack_top(m);
    let n = space.areas.len() as int;
    let lo = crate::mm::access::vpn_of((top - 8192) as u64);
    let hi = crate::mm::access::vpn_of((top - 4096) as u64);
    assert(lo.0 == m + 1);
    assert(hi.0 == m + 2);
    assert(space.areas[n - 2].contains(lo));
    assert(space.areas[n - 2].contains(hi));
    space.lemma_area_unique(lo, n - 2);
    space.lemma_area_unique(hi, n - 2);
    assert(space.areas[n - 2].data_frames[0]@ == zeros(4096));
    assert(space.areas[n - 2].data_frames[1]@ == zeros(4096));
    assert forall|va: u64| top - 8192 <= va < top implies #[trigger] crate::mm::access::vpn_of(va)
        == if va < top - 4096 {
        lo
    } else {
        hi
    } by {
        assert(crate::mm::access::vpn_of(va).0 == if va < top - 4096 {
            m + 1
        } else {
            m + 2
        });
    }
}

/// A change of what the frames of the user stack and of the trap context
/// hold leaves the layout of the space of a program as it is.
pub proof fn lemma_program_layout_kept(before: &MemorySet, after: &MemorySet, data: Seq<u8>, strampoline: u64)
    requires
        program_layout(before, data, strampoline),
        after.wf(),
        crate::mm::access::same_shape(before, after),
        forall|b: int, j: int|
            0 <= b < before.areas.len() - 2 && 0 <= j < before.areas[b].data_frames.len() ==> (
            #[trigger] after.areas[b].data_frames[j])@ == before.areas[b].data_frames[j]@,
    ensures
        program_layout(after, data, strampoline),
{
    reveal(program_layout);
    reveal(crate::mm::access::same_shape);
    let al: StackFrameAllocator = arbitrary();
    crate::mm::access::lemma_same_shape(before, after, &al);
    let n = before.areas.len() as int;
    assert(crate::mm::access::area_same_shape(&before.areas[n - 2], &after.areas[n - 2]));
    assert(crate::mm::access::area_same_shape(&before.areas[n - 1], &after.areas[n - 1]));
    assert(after.areas[n - 2].wf());
    assert(after.areas[n - 1].wf());
    assert forall|a: int, h: ProgramHeader|
        0 <= a < n - 2 && segment_area(data, h, &before.areas[a]) implies segment_area(
        data,
        h,
        &#[trigger] after.areas[a],
    ) by {
        assert(crate::mm::access::area_same_shape(&before.areas[a], &after.areas[a]));
        assert(after.areas[a].wf());
        assert forall|i: int| 0 <= i < after.areas[a].data_frames.len() implies (
        #[trigger] after.areas[a].data_frames[i])@ == overlay(
            zeros(4096),
            data.subrange(h.offset as int, h.offset + h.filesz),
            i * 4096,
        ) by {
            assert(after.areas[a].data_frames[i]@ == before.areas[a].data_frames[i]@);
        }
    }
    assert forall|i: int|
        0 <= i < spec_headers(data).len() && (#[trigger] spec_headers(data)[i]).is_load() implies segment_loaded(
        after,
        data,
        i,
    ) by {
        assert(segment_loaded(before, data, i));
        let a = choose|a: int|
            0 <= a < before.areas.len() - 2 && segment_area(
                data,
                spec_headers(data)[i],
                &#[trigger] before.areas[a],
            );
        assert(segment_area(data, spec_headers(data)[i], &after.areas[a]));
    }
    assert forall|a: int| 0 <= a < after.areas.len() - 2 implies from_segment(
        data,
        &#[trigger] after.areas[a],
    ) by {
        assert(from_segment(data, &before.areas[a]));
        let i = choose|i: int|
            0 <= i < spec_headers(data).len() && (#[trigger] spec_headers(data)[i]).is_load()
                && segment_area(data, spec_headers(data)[i], &before.areas[a]);
        assert(segment_area(data, spec_headers(data)[i], &after.areas[a]));
    }
}

/// Where all pages but those of the user stack hold what they held, the
/// frames of the areas of the segments hold what they held.
pub proof fn lemma_segments_untouched(before: &MemorySet, after: &MemorySet, data: Seq<u8>, strampoline: u64)
    requires
        program_layout(before, data, strampoline),
        elf_loadable(data),
        crate::mm::access::same_shape(before, after),
        after.wf(),
        forall|p: VirtPageNum|
            before.backed(p) && p.0 != max_end(spec_headers(data)) + 1 && p.0 != max_end(
                spec_headers(data),
            ) + 2 ==> #[trigger] after.page(p) == before.page(p),
    ensures
        forall|b: int, j: int|
            0 <= b < before.areas.len() - 2 && 0 <= j < before.areas[b].data_frames.len() ==> (
            #[trigger] after.areas[b].data_frames[j])@ == before.areas[b].data_frames[j]@,
        forall|j: int|
            0 <= j < before.areas[before.areas.len() - 1].data_frames.len() ==> (
            #[trigger] after.areas[before.areas.len() - 1].data_frames[j])@
                == before.areas[before.areas.len() - 1].data_frames[j]@,
{
    reveal(program_layout);
    reveal(crate::mm::access::same_shape);
    let n = before.areas.len() as int;
    let m = max_end(spec_headers(data));
    lemma_max_end_room(spec_headers(data));
    assert forall|b: int, j: int|
        0 <= b < n && b != n - 2 && 0 <= j < before.areas[b].data_frames.len() implies (
    #[trigger] after.areas[b].data_frames[j])@ == before.areas[b].data_frames[j]@ by {
        assert(crate::mm::access::area_same_shape(&before.areas[b], &after.areas[b]));
        if b < n - 2 {
            assert(from_segment(data, &before.areas[b]));
        }
        assert(before.areas[b].wf());
        assert(before.areas[b].map_type == MapType::Framed);
        let p = VirtPageNum((before.areas[b].start_vpn.0 + j) as u64);
        assert(before.areas[b].contains(p));
        assert(after.areas[b].contains(p));
        before.lemma_area_unique(p, b);
        after.lemma_area_unique(p, b);
        if b < n - 2 {
            assert(crate::mm::memory_set::areas_apart(&before.areas[b], &before.areas[n - 2]));
        } else {
            assert(crate::mm::memory_set::areas_apart(&before.areas[n - 2], &before.areas[b]));
        }
        assert(!before.areas[n - 2].contains(p));
        assert(after.page(p) == before.page(p));
    }
}

/// What `program_layout` says of the shape of a space; see
/// `lemma_program_space_shape`.
pub proof fn lemma_program_layout_shape(space: &MemorySet, data: Seq<u8>, strampoline: u64)
    requires
        program_layout(space, data, strampoline),
        elf_loadable(data),
    ensures
        space.wf(),
        space.only_areas_mapped(),
        space.areas.len() >= 2,
        trap_context_area(&space.areas[space.areas.len() - 1]),
        forall|a: int|
            0 <= a < space.areas.len() ==> !(#[trigger] space.areas[a]).contains(
                VirtPageNum(TRAMPOLINE_VPN),
            ),
{
    reveal(program_layout);
    let n = space.areas.len() as int;
    lemma_max_end_room(spec_headers(data));
    assert forall|a: int| 0 <= a < space.areas.len() implies !(#[trigger] space.areas[a]).contains(
        VirtPageNum(TRAMPOLINE_VPN),
    ) by {
        if a < n - 2 {
            assert(from_segment(data, &space.areas[a]));
            let i = choose|i: int|
                0 <= i < spec_headers(data).len() && (#[trigger] spec_headers(data)[i]).is_load()
                    && segment_area(data, spec_headers(data)[i], &space.areas[a]);
            assert(spec_headers(data)[i].loadable(data.len() as int));
        }
    }
}

} // verus!
