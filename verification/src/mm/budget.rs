//! Counting the frames that building an address space is sure to succeed
//! with, and testing what the builders ask of a program file and of the
//! layout of the kernel.
use crate::mm::elf::{header_ok, spec_headers, ElfFile, ProgramHeader, PT_LOAD};
use crate::mm::frame_allocator::StackFrameAllocator;
use crate::mm::loader::{
    elf_frames_needed, elf_loadable, lemma_headers_step, lemma_max_end_room, loads_needed, max_end,
};
use crate::mm::memory_set::{tables_needed, MapArea, MapType, TRAMPOLINE_VPN, TRAP_CONTEXT_VPN};
use crate::mm::spaces::{areas_needed, lemma_areas_needed_step, KernelLayout};
use vstd::prelude::*;

verus! {

/// Upper bound on the page tables that mapping the pages `[start, end)`
/// can need.
pub fn tables_for(start: u64, end: u64) -> (r: u64)
    ensures
        r == tables_needed(start as int, end as int),
        r <= 0x100_0000_0000_0000,
        end <= 0x800_0000 ==> r <= 0x8_0000,
{
    if end <= start {
        0
    } else {
        2 + ((end - 1) / 512 - start / 512) + ((end - 1) / 0x4_0000 - start / 0x4_0000)
    }
}

impl StackFrameAllocator {
    /// Number of frames that can still be handed out.
    pub fn free_frames(&self) -> (r: u128)
        requires
            self.wf(),
        ensures
            r == self.free_count(),
    {
        self.recycled.len() as u128 + (self.end - self.current) as u128
    }
}

impl MapArea {
    /// Number of free frames that mapping the area is sure to succeed
    /// with.
    pub fn frames_for(&self) -> (r: u64)
        requires
            self.range_ok(),
        ensures
            r == self.frames_needed(),
            r <= 0x1000_0000,
    {
        let tables = tables_for(self.start_vpn.0, self.end_vpn.0);
        match self.map_type {
            MapType::Framed => tables + (self.end_vpn.0 - self.start_vpn.0),
            MapType::Identical => tables,
        }
    }
}

/// Number of free frames that mapping all of `areas` is sure to succeed
/// with.
pub fn frames_for_areas(areas: &Vec<MapArea>) -> (r: u128)
    requires
        forall|a: int| 0 <= a < areas.len() ==> (#[trigger] areas[a]).range_ok(),
    ensures
        r == areas_needed(areas@),
        r <= areas.len() * 0x1000_0000,
{
    let n = areas.len();
    let mut total: u128 = 0;
    let mut i: usize = 0;
    assert(areas@.subrange(0, 0) =~= Seq::<MapArea>::empty());
    while i < n
        invariant
            i <= n,
            n == areas.len(),
            forall|a: int| 0 <= a < areas.len() ==> (#[trigger] areas[a]).range_ok(),
            total == areas_needed(areas@.subrange(0, i as int)),
            total <= i * 0x1000_0000,
        decreases n - i,
    {
        proof {
            lemma_areas_needed_step(areas@, i as int);
        }
        let more = areas[i].frames_for();
        total = total + more as u128;
        i += 1;
    }
    assert(areas@.subrange(0, n as int) =~= areas@);
    total
}

impl ProgramHeader {
    /// First page of the segment.
    pub fn first_page(&self) -> (r: u64)
        ensures
            r == self.start_vpn(),
    {
        (self.vaddr % 0x80_0000_0000) / 4096
    }

    /// First page after the segment.
    pub fn end_page(&self) -> (r: u64)
        requires
            self.vaddr + self.memsz <= u64::MAX,
        ensures
            r == self.end_vpn(),
    {
        ((self.vaddr + self.memsz) % 0x80_0000_0000 + 4095) / 4096
    }

    /// Whether the segment can be loaded from a file of `len` bytes.
    pub fn can_load(&self, len: usize) -> (r: bool)
        ensures
            r == self.loadable(len as int),
    {
        if self.offset > len as u64 || self.filesz > len as u64 - self.offset {
            return false;
        }
        if self.memsz > u64::MAX - self.vaddr {
            return false;
        }
        let s = self.first_page();
        let e = self.end_page();
        s <= e && self.filesz <= (e - s) * 4096 && e + 3 <= TRAP_CONTEXT_VPN
    }
}

/// Whether two segments share no page.
pub open spec fn segments_apart(x: ProgramHeader, y: ProgramHeader) -> bool {
    x.end_vpn() <= y.start_vpn() || y.end_vpn() <= x.start_vpn() || x.start_vpn() == x.end_vpn()
        || y.start_vpn() == y.end_vpn()
}

/// Whether the file `data` can be loaded: it begins with the header of a
/// 64-bit little-endian ELF file, each of its segments to load lies in the
/// file and leaves room for the user stack, and no two of them share a
/// page.
pub fn elf_fits(data: &[u8]) -> (r: bool)
    ensures
        r == elf_loadable(data@),
{
    let file = match ElfFile::parse(data) {
        None => {
            return false;
        },
        Some(file) => file,
    };
    let n = file.program_headers.len();
    let mut i: usize = 0;
    while i < n
        invariant
            i <= n,
            n == file.program_headers.len(),
            header_ok(data@),
            file.program_headers@ == spec_headers(data@),
            forall|k: int|
                0 <= k < i && (#[trigger] spec_headers(data@)[k]).is_load() ==> spec_headers(
                    data@,
                )[k].loadable(data@.len() as int),
            forall|k: int, j: int|
                0 <= k < j < i && (#[trigger] spec_headers(data@)[k]).is_load() && (
                #[trigger] spec_headers(data@)[j]).is_load() ==> segments_apart(
                    spec_headers(data@)[k],
                    spec_headers(data@)[j],
                ),
        decreases n - i,
    {
        let h = file.program_headers[i];
        assert(h == spec_headers(data@)[i as int]);
        if h.p_type == PT_LOAD {
            if !h.can_load(data.len()) {
                return false;
            }
            let s = h.first_page();
            let e = h.end_page();
            let mut j: usize = 0;
            while j < i
                invariant
                    j <= i,
                    i < n,
                    n == file.program_headers.len(),
                    file.program_headers@ == spec_headers(data@),
                    h == spec_headers(data@)[i as int],
                    h.is_load(),
                    s == h.start_vpn(),
                    e == h.end_vpn(),
                    forall|k: int|
                        0 <= k < i && (#[trigger] spec_headers(data@)[k]).is_load()
                            ==> spec_headers(data@)[k].loadable(data@.len() as int),
                    forall|k: int|
                        0 <= k < j && (#[trigger] spec_headers(data@)[k]).is_load()
                            ==> segments_apart(spec_headers(data@)[k], h),
                decreases i - j,
            {
                let g = file.program_headers[j];
                assert(g == spec_headers(data@)[j as int]);
                if g.p_type == PT_LOAD {
                    let x = g.first_page();
                    let y = g.end_page();
                    if !(y <= s || e <= x || x == y || s == e) {
                        proof {
                            let hs = spec_headers(data@);
                            assert(hs[j as int].is_load() && hs[i as int].is_load());
                            assert(0 <= j < i < hs.len());
                            assert(!segments_apart(hs[j as int], hs[i as int]));
                        }
                        return false;
                    }
                }
                j += 1;
            }
        }
        i += 1;
    }
    true
}

/// Number of free frames that loading the file `data` is sure to succeed
/// with.
pub fn elf_frames(data: &[u8]) -> (r: u128)
    requires
        elf_loadable(data@),
    ensures
        r == elf_frames_needed(data@),
        r <= usize::MAX * 0x2000_0000,
{
    let file = match ElfFile::parse(data) {
        None => {
            return 0;
        },
        Some(file) => file,
    };
    let n = file.program_headers.len();
    let ghost hs = spec_headers(data@);
    let mut top: u64 = 0;
    let mut loads: u128 = 0;
    let mut i: usize = 0;
    assert(hs.subrange(0, 0) =~= Seq::<ProgramHeader>::empty());
    while i < n
        invariant
            i <= n,
            n == file.program_headers.len(),
            hs == spec_headers(data@),
            file.program_headers@ == hs,
            elf_loadable(data@),
            top == max_end(hs.subrange(0, i as int)),
            loads == loads_needed(hs.subrange(0, i as int)),
            loads <= i * 0x1000_0000,
        decreases n - i,
    {
        let h = file.program_headers[i];
        proof {
            lemma_headers_step(hs, i as int);
            assert(h == hs[i as int]);
        }
        if h.p_type == PT_LOAD {
            assert(hs[i as int].loadable(data@.len() as int));
            let s = h.first_page();
            let e = h.end_page();
            loads = loads + (tables_for(s, e) + (e - s)) as u128;
            if e > top {
                top = e;
            }
        }
        i += 1;
    }
    proof {
        assert(hs.subrange(0, n as int) =~= hs);
        lemma_max_end_room(hs);
    }
    3 + loads + tables_for(top + 1, top + 3) as u128 + 2 + tables_for(
        TRAP_CONTEXT_VPN,
        TRAP_CONTEXT_VPN + 1,
    ) as u128 + 1
}

impl KernelLayout {
    /// The first page and the first page after it of each area, in
    /// order, or nothing where a device window wraps around the end of the
    /// address space.
    pub fn page_ranges(&self) -> (r: Option<Vec<(u64, u64)>>)
        ensures
            r is Some <==> forall|k: int|
                0 <= k < self.mmio.len() ==> (#[trigger] self.mmio[k]).0 + self.mmio[k].1
                    <= u64::MAX,
            r matches Some(v) ==> v.len() == self.count() && forall|i: int|
                0 <= i < self.count() ==> (#[trigger] v[i]) == (self.start_vpn(i), self.end_vpn(i)),
    {
        let mut v: Vec<(u64, u64)> = Vec::new();
        v.push(((self.stext % 0x80_0000_0000) / 4096, (self.etext % 0x80_0000_0000 + 4095) / 4096));
        v.push(
            ((self.srodata % 0x80_0000_0000) / 4096, (self.erodata % 0x80_0000_0000 + 4095) / 4096),
        );
        v.push(((self.sdata % 0x80_0000_0000) / 4096, (self.edata % 0x80_0000_0000 + 4095) / 4096));
        v.push(
            (
                (self.sbss_with_stack % 0x80_0000_0000) / 4096,
                (self.ebss % 0x80_0000_0000 + 4095) / 4096,
            ),
        );
        v.push(
            (
                (self.ekernel % 0x80_0000_0000) / 4096,
                (self.memory_end % 0x80_0000_0000 + 4095) / 4096,
            ),
        );
        let mut k: usize = 0;
        while k < self.mmio.len()
            invariant
                k <= self.mmio.len(),
                v.len() == 5 + k,
                forall|j: int|
                    0 <= j < k ==> (#[trigger] self.mmio[j]).0 + self.mmio[j].1 <= u64::MAX,
                forall|i: int|
                    0 <= i < 5 + k ==> (#[trigger] v[i]) == (self.start_vpn(i), self.end_vpn(i)),
            decreases self.mmio.len() - k,
        {
            let base = self.mmio[k].0;
            let len = self.mmio[k].1;
            if len > u64::MAX - base {
                return None;
            }
            let ghost before = v@;
            v.push(((base % 0x80_0000_0000) / 4096, ((base + len) % 0x80_0000_0000 + 4095) / 4096));
            proof {
                assert forall|i: int| 0 <= i < 5 + k + 1 implies (#[trigger] v[i]) == (
                    self.start_vpn(i),
                    self.end_vpn(i),
                ) by {
                    if i < 5 + k {
                        assert(v[i] == before[i]);
                    }
                }
            }
            k += 1;
        }
        Some(v)
    }

    /// Whether the layout is in order: the trampoline starts at the start
    /// of a page, no device window wraps around, the pages of each area are
    /// in order and do not hold the trampoline page, and no two areas share a
    /// page.
    pub fn in_order(&self) -> (r: bool)
        ensures
            r == self.wf(),
    {
        if self.strampoline % 4096 != 0 {
            return false;
        }
        let v = match self.page_ranges() {
            None => {
                return false;
            },
            Some(v) => v,
        };
        let n = v.len();
        let mut i: usize = 0;
        while i < n
            invariant
                i <= n,
                n == v.len(),
                n == self.count(),
                self.strampoline % 4096 == 0,
                forall|k: int|
                    0 <= k < self.mmio.len() ==> (#[trigger] self.mmio[k]).0 + self.mmio[k].1
                        <= u64::MAX,
                forall|a: int|
                    0 <= a < n ==> (#[trigger] v[a]) == (self.start_vpn(a), self.end_vpn(a)),
                forall|a: int|
                    0 <= a < i ==> #[trigger] self.start_vpn(a) <= self.end_vpn(a) && !(
                    self.start_vpn(a) <= TRAMPOLINE_VPN < self.end_vpn(a)),
                forall|a: int, b: int|
                    0 <= a < b < i ==> #[trigger] self.end_vpn(a) <= #[trigger] self.start_vpn(b)
                        || self.end_vpn(b) <= self.start_vpn(a) || self.start_vpn(a)
                        == self.end_vpn(a) || self.start_vpn(b) == self.end_vpn(b),
            decreases n - i,
        {
            let (s, e) = v[i];
            assert(v[i as int] == (self.start_vpn(i as int), self.end_vpn(i as int)));
            if s > e || (s <= TRAMPOLINE_VPN && TRAMPOLINE_VPN < e) {
                return false;
            }
            let mut j: usize = 0;
            while j < i
                invariant
                    j <= i,
                    i < n,
                    n == v.len(),
                    n == self.count(),
                    s == self.start_vpn(i as int),
                    e == self.end_vpn(i as int),
                    forall|a: int|
                        0 <= a < n ==> (#[trigger] v[a]) == (self.start_vpn(a), self.end_vpn(a)),
                    forall|a: int|
                        0 <= a < j ==> #[trigger] self.end_vpn(a) <= s || e <= self.start_vpn(a)
                            || self.start_vpn(a) == self.end_vpn(a) || s == e,
                decreases i - j,
            {
                let (x, y) = v[j];
                assert(v[j as int] == (self.start_vpn(j as int), self.end_vpn(j as int)));
                if !(y <= s || e <= x || x == y || s == e) {
                    proof {
                        let a = j as int;
                        let b = i as int;
                        assert(0 <= a < b < self.count());
                        assert(!(self.end_vpn(a) <= self.start_vpn(b) || self.end_vpn(b)
                            <= self.start_vpn(a) || self.start_vpn(a) == self.end_vpn(a)
                            || self.start_vpn(b) == self.end_vpn(b)));
                    }
                    return false;
                }
                j += 1;
            }
            i += 1;
        }
        true
    }

    /// Number of free frames that building the kernel space is sure to
    /// succeed with.
    pub fn frames(&self) -> (r: u128)
        requires
            self.wf(),
        ensures
            r == self.frames_needed(),
            r <= 3 + usize::MAX * 0x2000_0000_0000_0000,
    {
        let v = match self.page_ranges() {
            None => {
                return 0;
            },
            Some(v) => v,
        };
        let n = v.len();
        let mut total: u128 = 0;
        let mut i: usize = 0;
        while i < n
            invariant
                i <= n,
                n == v.len(),
                n == self.count(),
                forall|a: int|
                    0 <= a < n ==> (#[trigger] v[a]) == (self.start_vpn(a), self.end_vpn(a)),
                total == self.tables(i as int),
                total <= i * 0x2000_0000_0000_0000,
            decreases n - i,
        {
            let (s, e) = v[i];
            assert(v[i as int] == (self.start_vpn(i as int), self.end_vpn(i as int)));
            total = total + tables_for(s, e) as u128;
            i += 1;
        }
        3 + total
    }
}

} // verus!
