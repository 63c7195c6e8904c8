//! Building whole address spaces: the kernel's space and the copy of a
//! user space.
use crate::mm::access::{lemma_same_shape, same_shape};
use crate::mm::address::{lemma_masks, PhysPageNum, VirtAddr, VirtPageNum};
use crate::mm::frame_allocator::{zeros, StackFrameAllocator};
use crate::mm::memory_set::{
    areas_apart, lemma_space_fresh_grew, lemma_space_grew_trans, space_fresh, space_grew,
    tables_needed, MapArea, MapPermission, MapType, MemorySet, MAP_R, MAP_W, MAP_X, TRAMPOLINE_VPN,
};
use crate::mm::page_table::{lemma_outside_at, PTEFlags, PageTableEntry};
use vstd::prelude::*;

verus! {

/// Number of free frames that mapping all of `areas` is sure to succeed
/// with.
pub open spec fn areas_needed(areas: Seq<MapArea>) -> int
    decreases areas.len(),
{
    if areas.len() == 0 {
        0
    } else {
        areas_needed(areas.drop_last()) + areas.last().frames_needed()
    }
}

/// The areas are usable as templates of a space: each range is in order
/// and below the trampoline page, and no two ranges meet.
pub open spec fn templates_ok(areas: Seq<MapArea>) -> bool {
    &&& forall|a: int|
        0 <= a < areas.len() ==> (#[trigger] areas[a]).range_ok() && !areas[a].contains(
            VirtPageNum(TRAMPOLINE_VPN),
        )
    &&& forall|a: int, b: int|
        0 <= a < b < areas.len() ==> (#[trigger] areas[a]).end_vpn.0 <= (
        #[trigger] areas[b]).start_vpn.0 || areas[b].end_vpn.0 <= areas[a].start_vpn.0
            || areas[a].start_vpn.0 == areas[a].end_vpn.0 || areas[b].start_vpn.0
            == areas[b].end_vpn.0
}

/// `made` was built after the template `from`: it has the same range,
/// kind and permissions, and is fully mapped; with `copy`, each of its
/// frames holds what the frame of `from` for the same page holds, else
/// each is cleared.
pub open spec fn area_built(from: &MapArea, made: &MapArea, copy: bool) -> bool {
    &&& made.start_vpn == from.start_vpn
    &&& made.end_vpn == from.end_vpn
    &&& made.map_type == from.map_type
    &&& made.map_perm == from.map_perm
    &&& made.wf()
    &&& forall|i: int|
        0 <= i < made.data_frames.len() ==> (#[trigger] made.data_frames[i])@ == if copy {
            from.data_frames[i]@
        } else {
            zeros(4096)
        }
}

/// The frames that the first `a` areas need are among those that all
/// need.
pub proof fn lemma_areas_needed_mono(areas: Seq<MapArea>, a: int)
    requires
        0 <= a <= areas.len(),
        forall|b: int| 0 <= b < areas.len() ==> (#[trigger] areas[b]).range_ok(),
    ensures
        areas_needed(areas.subrange(0, a)) <= areas_needed(areas),
        areas_needed(areas.subrange(0, a)) >= 0,
    decreases areas.len(),
{
    if a == areas.len() {
        assert(areas.subrange(0, a) =~= areas);
        if a > 0 {
            lemma_areas_needed_mono(areas.drop_last(), a - 1);
            assert(areas.last().range_ok());
            assert(areas.drop_last().subrange(0, a - 1) =~= areas.drop_last());
        }
    } else {
        lemma_areas_needed_mono(areas.drop_last(), a);
        assert(areas.drop_last().subrange(0, a) =~= areas.subrange(0, a));
        assert(areas.last().range_ok());
    }
}

/// The frames that one more area needs are added to those that the
/// areas before it need.
pub proof fn lemma_areas_needed_step(areas: Seq<MapArea>, a: int)
    requires
        0 <= a < areas.len(),
    ensures
        areas_needed(areas.subrange(0, a + 1)) == areas_needed(areas.subrange(0, a))
            + areas[a].frames_needed(),
{
    let s = areas.subrange(0, a + 1);
    assert(s.drop_last() =~= areas.subrange(0, a));
    assert(s.last() == areas[a]);
}

impl MemorySet {
    /// Copies what each frame of `src` holds into the frame of area `a`
    /// for the same page.
    pub fn fill_area(&mut self, a: usize, src: &MapArea)
        requires
            old(self).wf(),
            a < old(self).areas.len(),
            src.data_frames.len() == old(self).areas[a as int].data_frames.len(),
            forall|i: int| 0 <= i < src.data_frames.len() ==> (#[trigger] src.data_frames[i]).wf(),
        ensures
            final(self).wf(),
            same_shape(old(self), final(self)),
            forall|i: int|
                0 <= i < src.data_frames.len() ==> (#[trigger] final(self).areas[a as int].data_frames[i])@ == src.data_frames[i]@,
            forall|b: int, j: int|
                0 <= b < old(self).areas.len() && 0 <= j < old(self).areas[b].data_frames.len() && b
                    != a ==> #[trigger] final(self).areas[b].data_frames[j] == old(self).areas[b].data_frames[j],
    {
        let n = src.data_frames.len();
        let mut i: usize = 0;
        proof {
            reveal(same_shape);
        }
        while i < n
            invariant
                i <= n,
                n == src.data_frames.len(),
                self.wf(),
                same_shape(old(self), self),
                a < old(self).areas.len(),
                n == old(self).areas[a as int].data_frames.len(),
                forall|k: int| 0 <= k < src.data_frames.len() ==> (#[trigger] src.data_frames[k]).wf(),
                forall|k: int|
                    0 <= k < i ==> (#[trigger] self.areas[a as int].data_frames[k])@
                        == src.data_frames[k]@,
                forall|b: int, j: int|
                    0 <= b < old(self).areas.len() && 0 <= j < old(self).areas[b].data_frames.len()
                        && b != a ==> #[trigger] self.areas[b].data_frames[j] == old(self).areas[b].data_frames[j],
            decreases n - i,
        {
            let ghost before = *self;
            proof {
                reveal(same_shape);
            }
            self.copy_frame(a, i, &src.data_frames[i]);
            proof {
                reveal(same_shape);
                assert forall|k: int| 0 <= k < i + 1 implies (
                #[trigger] self.areas[a as int].data_frames[k])@ == src.data_frames[k]@ by {
                    if k < i {
                        assert(self.areas[a as int].data_frames[k]
                            == before.areas[a as int].data_frames[k]);
                    }
                }
                assert forall|b: int, j: int|
                    0 <= b < old(self).areas.len() && 0 <= j < old(self).areas[b].data_frames.len()
                        && b != a implies #[trigger] self.areas[b].data_frames[j] == old(self).areas[b].data_frames[j] by {
                    assert(self.areas[b].data_frames[j] == before.areas[b].data_frames[j]);
                }
            }
            i += 1;
        }
    }

    /// Adds an area after each of `templates`, in their order: an area
    /// with the template's range, kind and permissions, fully mapped. With
    /// `copy`, each frame of a new area gets what the template's frame for
    /// the same page holds.
    pub fn push_all(&mut self, templates: &Vec<MapArea>, copy: bool, allocator: &mut StackFrameAllocator)
        requires
            old(self).wf(),
            old(self).owned_by(old(allocator)),
            old(self).only_areas_mapped(),
            old(self).areas.len() == 0,
            old(allocator).wf(),
            templates_ok(templates@),
            copy ==> forall|a: int| 0 <= a < templates.len() ==> (#[trigger] templates[a]).wf(),
            old(allocator).free_count() >= areas_needed(templates@),
        ensures
            final(self).wf(),
            final(self).owned_by(final(allocator)),
            final(self).only_areas_mapped(),
            final(allocator).wf(),
            final(self).page_table.root_ppn == old(self).page_table.root_ppn,
            final(self).areas.len() == templates.len(),
            forall|a: int|
                0 <= a < templates.len() ==> area_built(
                    &templates[a],
                    &(#[trigger] final(self).areas[a]),
                    copy,
                ),
            old(self).page_table.is_mapped(VirtPageNum(TRAMPOLINE_VPN)) ==> final(self).page_table.walk(VirtPageNum(TRAMPOLINE_VPN)) == old(self).page_table.walk(
                VirtPageNum(TRAMPOLINE_VPN),
            ),
            space_grew(old(self), final(self), old(allocator), final(allocator)),
            final(allocator).free_count() >= old(allocator).free_count() - areas_needed(templates@),
    {
        let n = templates.len();
        let mut a: usize = 0;
        let ghost tv = VirtPageNum(TRAMPOLINE_VPN);
        proof {
            crate::mm::memory_set::lemma_space_grew_refl(old(self), old(allocator));
            assert(templates@.subrange(0, 0) =~= Seq::<MapArea>::empty());
        }
        while a < n
            invariant
                a <= n,
                n == templates.len(),
                self.wf(),
                self.owned_by(allocator),
                self.only_areas_mapped(),
                allocator.wf(),
                templates_ok(templates@),
                copy ==> forall|b: int| 0 <= b < templates.len() ==> (#[trigger] templates[b]).wf(),
                self.page_table.root_ppn == old(self).page_table.root_ppn,
                self.areas.len() == a,
                forall|b: int|
                    0 <= b < a ==> area_built(&templates[b], &(#[trigger] self.areas[b]), copy),
                old(self).page_table.is_mapped(tv) ==> self.page_table.walk(tv) == old(self).page_table.walk(tv),
                tv == VirtPageNum(TRAMPOLINE_VPN),
                space_grew(old(self), self, old(allocator), allocator),
                old(allocator).free_count() >= areas_needed(templates@),
                allocator.free_count() >= old(allocator).free_count() - areas_needed(
                    templates@.subrange(0, a as int),
                ),
            decreases n - a,
        {
            let ghost before = *self;
            let ghost al0 = *allocator;
            let new_area = MapArea::from_another(&templates[a]);
            proof {
                let t = templates[a as int];
                lemma_areas_needed_mono(templates@, a + 1);
                lemma_areas_needed_step(templates@, a as int);
                assert forall|vpn: VirtPageNum| new_area.contains(vpn) implies !self.page_table.is_mapped(
                    vpn,
                ) by {
                    if self.page_table.is_mapped(vpn) {
                        assert(vpn.0 != TRAMPOLINE_VPN);
                        let b = choose|b: int|
                            0 <= b < self.areas.len() && (#[trigger] self.areas[b]).contains(vpn);
                        assert(area_built(&templates[b], &self.areas[b], copy));
                        assert(templates[b].contains(vpn));
                        assert(templates[a as int].contains(vpn));
                    }
                }
            }
            self.push(new_area, None, allocator);
            let ghost pushed = *self;
            let ghost al1 = *allocator;
            if copy {
                match templates[a].map_type {
                    MapType::Framed => {
                        assert(templates[a as int].wf());
                        self.fill_area(a, &templates[a]);
                    },
                    MapType::Identical => {},
                }
            }
            proof {
                let t = templates[a as int];
                if copy && t.map_type == MapType::Framed {
                    lemma_same_shape(&pushed, self, allocator);
                    lemma_space_grew_trans(&before, &pushed, self, &al0, &al1, allocator);
                    reveal(same_shape);
                    assert(crate::mm::access::area_same_shape(&pushed.areas[a as int], &self.areas[a as int]));
                }
                lemma_space_grew_trans(old(self), &before, self, old(allocator), &al0, allocator);
                assert forall|b: int| 0 <= b < a + 1 implies area_built(
                    &templates[b],
                    &(#[trigger] self.areas[b]),
                    copy,
                ) by {
                    if b < a {
                        assert(area_built(&templates[b], &before.areas[b], copy));
                        assert(pushed.areas[b] == before.areas[b]);
                        if copy && t.map_type == MapType::Framed {
                            reveal(same_shape);
                            assert(crate::mm::access::area_same_shape(&pushed.areas[b], &self.areas[b]));
                            assert forall|i: int| 0 <= i < self.areas[b].data_frames.len() implies (
                            #[trigger] self.areas[b].data_frames[i])@
                                == templates[b].data_frames[i]@ by {
                                assert(self.areas[b].data_frames[i] == pushed.areas[b].data_frames[i]);
                            }
                            assert(self.areas[b].wf());
                        }
                    } else {
                        assert(pushed.areas[a as int] == pushed.areas@.last());
                        assert(self.areas[a as int].wf());
                    }
                }
                if old(self).page_table.is_mapped(tv) {
                    assert(before.page_table.is_mapped(tv));
                    lemma_outside_at(
                        &before.page_table,
                        &pushed.page_table,
                        t.start_vpn.0 as int,
                        t.end_vpn.0 as int,
                        tv,
                    );
                    if copy && t.map_type == MapType::Framed {
                        reveal(same_shape);
                    }
                }
                if copy && t.map_type == MapType::Framed {
                    reveal(same_shape);
                }
            }
            a += 1;
        }
        proof {
            assert(templates@.subrange(0, n as int) =~= templates@);
        }
    }

    /// A copy of the user space `user_space`: a new page table with the
    /// trampoline mapped, and for each area of `user_space` an area with
    /// the same range and permissions whose fresh frames hold what the
    /// frames of `user_space` hold.
    pub fn from_existed_user(
        user_space: &MemorySet,
        strampoline: u64,
        allocator: &mut StackFrameAllocator,
    ) -> (r: Self)
        requires
            user_space.wf(),
            strampoline % 4096 == 0,
            forall|a: int|
                0 <= a < user_space.areas.len() ==> !(#[trigger] user_space.areas[a]).contains(
                    VirtPageNum(TRAMPOLINE_VPN),
                ),
            old(allocator).wf(),
            old(allocator).free_count() >= 3 + areas_needed(user_space.areas@),
        ensures
            r.wf(),
            r.owned_by(final(allocator)),
            r.only_areas_mapped(),
            final(allocator).wf(),
            space_fresh(&r, old(allocator), final(allocator)),
            r.areas.len() == user_space.areas.len(),
            forall|a: int|
                0 <= a < user_space.areas.len() ==> area_built(
                    &user_space.areas[a],
                    &(#[trigger] r.areas[a]),
                    true,
                ),
            r.page_table.walk(VirtPageNum(TRAMPOLINE_VPN)) == Some(
                PageTableEntry::spec_new(
                    PhysPageNum(((strampoline % 0x100_0000_0000_0000) / 4096) as u64),
                    PTEFlags { bits: 43 },
                ),
            ),
            Some(r.page_table.root_ppn.0) == old(allocator).next_free(),
            final(allocator).free_count() >= old(allocator).free_count() - 3 - areas_needed(
                user_space.areas@,
            ),
    {
        proof {
            assert forall|a: int| 0 <= a < user_space.areas.len() implies (
            #[trigger] user_space.areas[a]).range_ok() by {
                assert(user_space.areas[a].wf());
            }
            lemma_areas_needed_mono(user_space.areas@, user_space.areas.len() as int);
            assert(user_space.areas@.subrange(0, user_space.areas.len() as int)
                =~= user_space.areas@);
        }
        let mut memory_set = Self::new_bare(allocator);
        let ghost bare = memory_set;
        let ghost al1 = *allocator;
        proof {
            crate::mm::page_table::lemma_zero_not_valid();
            assert(memory_set.page_table.walk(VirtPageNum(TRAMPOLINE_VPN)) is None);
            lemma_areas_needed_mono(user_space.areas@, 0);
            assert forall|a: int| 0 <= a < user_space.areas.len() implies (
            #[trigger] user_space.areas[a]).range_ok() by {
                assert(user_space.areas[a].wf());
            }
            lemma_areas_needed_mono(user_space.areas@, 0);
        }
        memory_set.map_trampoline(strampoline, allocator);
        let ghost tramp = memory_set;
        let ghost al2 = *allocator;
        proof {
            lemma_space_fresh_grew(&bare, &tramp, old(allocator), &al1, &al2);
            crate::mm::page_table::lemma_entry_round_trip(
                PhysPageNum(((strampoline % 0x100_0000_0000_0000) / 4096) as u64),
                PTEFlags { bits: 43 },
            );
            crate::mm::page_table::lemma_flag_bits(0);
            assert forall|a: int, b: int| 0 <= a < b < user_space.areas.len() implies (
            #[trigger] user_space.areas[a]).end_vpn.0 <= (#[trigger] user_space.areas[b]).start_vpn.0
                || user_space.areas[b].end_vpn.0 <= user_space.areas[a].start_vpn.0
                || user_space.areas[a].start_vpn.0 == user_space.areas[a].end_vpn.0
                || user_space.areas[b].start_vpn.0 == user_space.areas[b].end_vpn.0 by {
                assert(areas_apart(&user_space.areas[a], &user_space.areas[b]));
            }
        }
        memory_set.push_all(&user_space.areas, true, allocator);
        proof {
            lemma_space_fresh_grew(&tramp, &memory_set, old(allocator), &al2, allocator);
        }
        memory_set
    }
}

/// What a copy of a space holds for a page that has a frame in the
/// source: a frame of its own with the same bytes, mapped with the same
/// flags.
pub proof fn lemma_copy_page(source: &MemorySet, copy: &MemorySet, vpn: VirtPageNum)
    requires
        source.wf(),
        copy.wf(),
        copy.areas.len() == source.areas.len(),
        forall|a: int|
            0 <= a < source.areas.len() ==> area_built(
                &source.areas[a],
                &(#[trigger] copy.areas[a]),
                true,
            ),
        source.backed(vpn),
    ensures
        copy.backed(vpn),
        copy.page(vpn) == source.page(vpn),
        copy.page_table.walk(vpn) is Some,
        source.page_table.walk(vpn) is Some,
        copy.page_table.walk(vpn)->Some_0.spec_flags() == source.page_table.walk(
            vpn,
        )->Some_0.spec_flags(),
{
    let a = source.area_of(vpn);
    assert(area_built(&source.areas[a], &copy.areas[a], true));
    assert(copy.areas[a].contains(vpn));
    copy.lemma_area_unique(vpn, a);
    MemorySet::lemma_area_page_mapped(&source.areas[a], &source.page_table, vpn);
    MemorySet::lemma_area_page_mapped(&copy.areas[a], &copy.page_table, vpn);
    let i = vpn.0 - source.areas[a].start_vpn.0;
    assert(copy.areas[a].data_frames[i]@ == source.areas[a].data_frames[i]@);
}

/// Where the parts of the kernel image and the device windows lie in
/// physical memory.
pub struct KernelLayout {
    /// Start of the code.
    pub stext: u64,
    /// End of the code.
    pub etext: u64,
    /// Start of the read-only data.
    pub srodata: u64,
    /// End of the read-only data.
    pub erodata: u64,
    /// Start of the initialised data.
    pub sdata: u64,
    /// End of the initialised data.
    pub edata: u64,
    /// Start of the zero-initialised data, boot stack included.
    pub sbss_with_stack: u64,
    /// End of the zero-initialised data.
    pub ebss: u64,
    /// End of the kernel image.
    pub ekernel: u64,
    /// Address of the page with the trap entry and exit code.
    pub strampoline: u64,
    /// End of physical memory.
    pub memory_end: u64,
    /// The device windows, each as its start and its length in bytes.
    pub mmio: Vec<(u64, u64)>,
}

impl KernelLayout {
    /// Number of areas of the kernel space: code, read-only data, data,
    /// zero-initialised data, the rest of memory, and the device windows.
    pub open spec fn count(&self) -> int {
        5 + self.mmio.len()
    }

    /// Start address, end address and permissions of area `i`.
    pub open spec fn section(&self, i: int) -> (u64, u64, u8) {
        if i == 0 {
            (self.stext, self.etext, 10u8)
        } else if i == 1 {
            (self.srodata, self.erodata, 2u8)
        } else if i == 2 {
            (self.sdata, self.edata, 6u8)
        } else if i == 3 {
            (self.sbss_with_stack, self.ebss, 6u8)
        } else if i == 4 {
            (self.ekernel, self.memory_end, 6u8)
        } else {
            (self.mmio[i - 5].0, (self.mmio[i - 5].0 + self.mmio[i - 5].1) as u64, 6u8)
        }
    }

    /// First page of area `i`.
    pub open spec fn start_vpn(&self, i: int) -> u64 {
        ((self.section(i).0 % 0x80_0000_0000) / 4096) as u64
    }

    /// First page after area `i`.
    pub open spec fn end_vpn(&self, i: int) -> u64 {
        (((self.section(i).1 % 0x80_0000_0000) + 4095) / 4096) as u64
    }

    /// Upper bound on the page tables that mapping the first `n` areas
    /// can need.
    pub open spec fn tables(&self, n: int) -> int
        decreases n,
    {
        if n <= 0 {
            0
        } else {
            self.tables(n - 1) + tables_needed(
                self.start_vpn(n - 1) as int,
                self.end_vpn(n - 1) as int,
            )
        }
    }

    /// The trampoline starts at the start of a page; no device window
    /// wraps around the end of the address space; the pages of each area are
    /// in order and do not hold the trampoline page; no two areas share a
    /// page.
    pub open spec fn wf(&self) -> bool {
        &&& self.strampoline % 4096 == 0
        &&& forall|k: int|
            0 <= k < self.mmio.len() ==> (#[trigger] self.mmio[k]).0 + self.mmio[k].1 <= u64::MAX
        &&& forall|i: int|
            0 <= i < self.count() ==> #[trigger] self.start_vpn(i) <= self.end_vpn(i) && !(
            self.start_vpn(i) <= TRAMPOLINE_VPN < self.end_vpn(i))
        &&& forall|i: int, j: int|
            0 <= i < j < self.count() ==> #[trigger] self.end_vpn(i) <= #[trigger] self.start_vpn(j)
                || self.end_vpn(j) <= self.start_vpn(i) || self.start_vpn(i) == self.end_vpn(i)
                || self.start_vpn(j) == self.end_vpn(j)
    }

    /// Number of free frames that building the kernel space is sure to
    /// succeed with.
    pub open spec fn frames_needed(&self) -> int {
        3 + self.tables(self.count())
    }

    /// Whether `area` is area `i` of the kernel space.
    pub open spec fn is_section(&self, i: int, area: &MapArea) -> bool {
        &&& area.start_vpn.0 == self.start_vpn(i)
        &&& area.end_vpn.0 == self.end_vpn(i)
        &&& area.map_type == MapType::Identical
        &&& area.map_perm.bits == self.section(i).2
        &&& area.data_frames.len() == 0
    }

    /// Mapping areas needs no negative number of tables.
    pub proof fn lemma_tables_nonneg(&self, n: int)
        requires
            self.wf(),
            0 <= n <= self.count(),
        ensures
            self.tables(n) >= 0,
        decreases n,
    {
        if n > 0 {
            self.lemma_tables_nonneg(n - 1);
            let s = self.start_vpn(n - 1);
            let e = self.end_vpn(n - 1);
            assert(s <= e);
            if s < e {
                crate::mm::memory_set::lemma_tables_mono(s, s, e);
            }
        }
    }

    /// The page tables that templates of the first `n` areas need.
    proof fn lemma_tables(&self, templates: Seq<MapArea>, n: int)
        requires
            0 <= n <= templates.len(),
            forall|i: int| 0 <= i < n ==> self.is_section(i, &#[trigger] templates[i]),
        ensures
            areas_needed(templates.subrange(0, n)) == self.tables(n),
        decreases n,
    {
        if n > 0 {
            self.lemma_tables(templates, n - 1);
            lemma_areas_needed_step(templates, n - 1);
            assert(self.is_section(n - 1, &templates[n - 1]));
        } else {
            assert(templates.subrange(0, 0) =~= Seq::<MapArea>::empty());
        }
    }
}

impl MemorySet {
    /// The kernel's address space: the trampoline page, and the parts of
    /// the kernel image, the rest of physical memory and the device
    /// windows, each mapped to the frames of the same numbers.
    pub fn new_kernel(layout: &KernelLayout, allocator: &mut StackFrameAllocator) -> (r: Self)
        requires
            layout.wf(),
            old(allocator).wf(),
            old(allocator).free_count() >= layout.frames_needed(),
        ensures
            r.wf(),
            r.owned_by(final(allocator)),
            r.only_areas_mapped(),
            final(allocator).wf(),
            space_fresh(&r, old(allocator), final(allocator)),
            r.areas.len() == layout.count(),
            forall|i: int| 0 <= i < layout.count() ==> layout.is_section(i, &#[trigger] r.areas[i]),
            r.page_table.walk(VirtPageNum(TRAMPOLINE_VPN)) == Some(
                PageTableEntry::spec_new(
                    PhysPageNum(((layout.strampoline % 0x100_0000_0000_0000) / 4096) as u64),
                    PTEFlags { bits: 43 },
                ),
            ),
            Some(r.page_table.root_ppn.0) == old(allocator).next_free(),
            final(allocator).free_count() >= old(allocator).free_count() - layout.frames_needed(),
    {
        let mut templates: Vec<MapArea> = Vec::new();
        proof {
            lemma_masks(layout.stext);
            lemma_masks(layout.etext);
            lemma_masks(layout.srodata);
            lemma_masks(layout.erodata);
            lemma_masks(layout.sdata);
            lemma_masks(layout.edata);
            lemma_masks(layout.sbss_with_stack);
            lemma_masks(layout.ebss);
            lemma_masks(layout.ekernel);
            lemma_masks(layout.memory_end);
        }
        templates.push(
            MapArea::new(
                VirtAddr::from(layout.stext),
                VirtAddr::from(layout.etext),
                MapType::Identical,
                MapPermission { bits: MAP_R | MAP_X },
            ),
        );
        templates.push(
            MapArea::new(
                VirtAddr::from(layout.srodata),
                VirtAddr::from(layout.erodata),
                MapType::Identical,
                MapPermission { bits: MAP_R },
            ),
        );
        templates.push(
            MapArea::new(
                VirtAddr::from(layout.sdata),
                VirtAddr::from(layout.edata),
                MapType::Identical,
                MapPermission { bits: MAP_R | MAP_W },
            ),
        );
        templates.push(
            MapArea::new(
                VirtAddr::from(layout.sbss_with_stack),
                VirtAddr::from(layout.ebss),
                MapType::Identical,
                MapPermission { bits: MAP_R | MAP_W },
            ),
        );
        templates.push(
            MapArea::new(
                VirtAddr::from(layout.ekernel),
                VirtAddr::from(layout.memory_end),
                MapType::Identical,
                MapPermission { bits: MAP_R | MAP_W },
            ),
        );
        proof {
            crate::mm::page_table::lemma_flag_bits(0);
            crate::mm::page_table::lemma_flag_bits(0);
            assert(layout.is_section(0, &templates[0]));
            assert(layout.is_section(1, &templates[1]));
            assert(layout.is_section(2, &templates[2]));
            assert(layout.is_section(3, &templates[3]));
            assert(layout.is_section(4, &templates[4]));
        }
        let mut k: usize = 0;
        while k < layout.mmio.len()
            invariant
                k <= layout.mmio.len(),
                layout.wf(),
                templates.len() == 5 + k,
                forall|i: int| 0 <= i < 5 + k ==> layout.is_section(i, &#[trigger] templates[i]),
            decreases layout.mmio.len() - k,
        {
            let base = layout.mmio[k].0;
            let len = layout.mmio[k].1;
            assert(layout.mmio[k as int].0 + layout.mmio[k as int].1 <= u64::MAX);
            proof {
                lemma_masks(base);
                lemma_masks((base + len) as u64);
                crate::mm::page_table::lemma_flag_bits(0);
            }
            let ghost before = templates@;
            templates.push(
                MapArea::new(
                    VirtAddr::from(base),
                    VirtAddr::from(base + len),
                    MapType::Identical,
                    MapPermission { bits: MAP_R | MAP_W },
                ),
            );
            proof {
                assert forall|i: int| 0 <= i < 5 + k + 1 implies layout.is_section(
                    i,
                    &#[trigger] templates[i],
                ) by {
                    if i < 5 + k {
                        assert(templates[i] == before[i]);
                    }
                }
            }
            k += 1;
        }
        proof {
            let n = layout.count();
            layout.lemma_tables(templates@, n);
            assert(templates@.subrange(0, n) =~= templates@);
            assert forall|a: int| 0 <= a < templates.len() implies (#[trigger] templates[a]).range_ok()
                && !templates[a].contains(VirtPageNum(TRAMPOLINE_VPN)) by {
                assert(layout.is_section(a, &templates[a]));
                assert(layout.start_vpn(a) <= layout.end_vpn(a));
            }
            assert forall|a: int, b: int| 0 <= a < b < templates.len() implies (
            #[trigger] templates[a]).end_vpn.0 <= (#[trigger] templates[b]).start_vpn.0
                || templates[b].end_vpn.0 <= templates[a].start_vpn.0 || templates[a].start_vpn.0
                == templates[a].end_vpn.0 || templates[b].start_vpn.0 == templates[b].end_vpn.0 by {
                assert(layout.is_section(a, &templates[a]));
                assert(layout.is_section(b, &templates[b]));
                assert(layout.end_vpn(a) <= layout.start_vpn(b) || layout.end_vpn(b)
                    <= layout.start_vpn(a) || layout.start_vpn(a) == layout.end_vpn(a)
                    || layout.start_vpn(b) == layout.end_vpn(b));
            }
            lemma_areas_needed_mono(templates@, n);
        }
        let mut memory_set = Self::new_bare(allocator);
        let ghost bare = memory_set;
        let ghost al1 = *allocator;
        proof {
            crate::mm::page_table::lemma_zero_not_valid();
            assert(memory_set.page_table.walk(VirtPageNum(TRAMPOLINE_VPN)) is None);
        }
        memory_set.map_trampoline(layout.strampoline, allocator);
        let ghost tramp = memory_set;
        let ghost al2 = *allocator;
        proof {
            lemma_space_fresh_grew(&bare, &tramp, old(allocator), &al1, &al2);
            crate::mm::page_table::lemma_entry_round_trip(
                PhysPageNum(((layout.strampoline % 0x100_0000_0000_0000) / 4096) as u64),
                PTEFlags { bits: 43 },
            );
            crate::mm::page_table::lemma_flag_bits(0);
        }
        memory_set.push_all(&templates, false, allocator);
        proof {
            lemma_space_fresh_grew(&tramp, &memory_set, old(allocator), &al2, allocator);
            assert forall|i: int| 0 <= i < layout.count() implies layout.is_section(
                i,
                &#[trigger] memory_set.areas[i],
            ) by {
                assert(area_built(&templates[i], &memory_set.areas[i], false));
                assert(layout.is_section(i, &templates[i]));
                assert(memory_set.areas[i].wf());
            }
        }
        memory_set
    }
}

} // verus!
