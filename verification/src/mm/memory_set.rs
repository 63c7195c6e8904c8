//! Address spaces: areas of virtual pages and the page table that maps
//! them.
use crate::mm::address::{PhysPageNum, VirtAddr, VirtPageNum, vpn_indexes};
use crate::mm::frame_allocator::{
    frame_alloc, frame_dealloc, numbers_of, zeros, FrameTracker, StackFrameAllocator,
};
use crate::mm::page_table::{
    lemma_entry_round_trip, lemma_outside_at, lemma_outside_refl, lemma_outside_trans,
    lemma_slot_unique, lemma_table_grew_new, lemma_table_grew_owns, lemma_table_grew_trans,
    lemma_zero_not_valid, outside_kept, same_slot, table_grew, zero_entry, PTEFlags, PageTable,
    PageTableEntry,
};
use vstd::prelude::*;

verus! {

/// How the pages of an area get their frames.
#[derive(Copy, Clone, Debug, PartialEq, Eq, Structural)]
pub enum MapType {
    /// Each page is mapped to the frame of the same number.
    Identical,
    /// Each page is mapped to a frame of its own, taken from the
    /// allocator.
    Framed,
}

/// Pages may be read.
pub const MAP_R: u8 = 2;

/// Pages may be written.
pub const MAP_W: u8 = 4;

/// Code may be run from the pages.
pub const MAP_X: u8 = 8;

/// Pages are accessible in user mode.
pub const MAP_U: u8 = 16;

/// What may be done with the pages of an area: a subset of `R`, `W`, `X`
/// and `U`, at the bit positions of the page-table flags.
#[derive(Copy, Clone, Debug, PartialEq, Eq, Structural)]
pub struct MapPermission {
    /// The permissions, one bit each.
    pub bits: u8,
}

impl MapPermission {
    /// No permission.
    pub fn empty() -> (r: Self)
        ensures
            r.bits == 0,
    {
        MapPermission { bits: 0 }
    }

    /// The permissions whose bits are set in `bits`, or nothing where
    /// `bits` has a bit that is no permission.
    pub fn from_bits(bits: u8) -> (r: Option<Self>)
        ensures
            r == if bits & 0xe1 == 0 {
                Some(MapPermission { bits })
            } else {
                None
            },
    {
        if bits & 0xe1 == 0 {
            Some(MapPermission { bits })
        } else {
            None
        }
    }

    /// The permissions as a byte.
    pub fn bits(&self) -> (r: u8)
        ensures
            r == self.bits,
    {
        self.bits
    }

    /// Whether every permission of `other` is in `self`.
    pub fn contains(&self, other: MapPermission) -> (r: bool)
        ensures
            r == (self.bits & other.bits == other.bits),
    {
        self.bits & other.bits == other.bits
    }

    /// The permissions of `self` and of `other` together.
    pub fn union(self, other: MapPermission) -> (r: Self)
        ensures
            r.bits == self.bits | other.bits,
    {
        MapPermission { bits: self.bits | other.bits }
    }
}

/// Upper bound on the page tables that mapping the pages `[start, end)`
/// can need: a middle and a leaf table for the first page, and one more
/// each time the range enters the next leaf table or the next middle
/// table.
pub open spec fn tables_needed(start: int, end: int) -> int {
    if end <= start {
        0
    } else {
        2 + ((end - 1) / 512 - start / 512) + ((end - 1) / 0x4_0000 - start / 0x4_0000)
    }
}

/// `bytes` with its first bytes replaced by the bytes of `data` from
/// offset `from` on, as far as `data` reaches.
pub open spec fn overlay(bytes: Seq<u8>, data: Seq<u8>, from: int) -> Seq<u8> {
    Seq::new(
        bytes.len(),
        |o: int|
            if from + o < data.len() {
                data[from + o]
            } else {
                bytes[o]
            },
    )
}

/// The allocator only handed frames out between `before` and `after`,
/// and each of them went to the page table `pt` or to the area `area`.
#[verifier::opaque]
pub open spec fn alloc_grew(
    before: &StackFrameAllocator,
    after: &StackFrameAllocator,
    pt: &PageTable,
    area: &MapArea,
) -> bool {
    &&& after.end == before.end
    &&& forall|p: u64| before.is_allocated(p) ==> after.is_allocated(p)
    &&& forall|p: u64|
        after.is_allocated(p) ==> before.is_allocated(p) || pt.owns(PhysPageNum(p)) || area.has_frame(
            p,
        )
}

/// The pages of `area` below `hi` are mapped in `pt` as the area says.
#[verifier::opaque]
pub open spec fn mapped_below(area: &MapArea, pt: &PageTable, hi: int) -> bool {
    forall|v: VirtPageNum|
        area.start_vpn.0 <= v.0 < hi ==> #[trigger] pt.walk(v) == Some(area.leaf(v))
}

/// Every frame of `area` is cleared, was not handed out when the
/// allocator was as in `earlier`, and is no frame of `pt`.
#[verifier::opaque]
pub open spec fn frames_fresh(area: &MapArea, earlier: &StackFrameAllocator, pt: &PageTable) -> bool {
    forall|i: int|
        0 <= i < area.data_frames.len() ==> (#[trigger] area.data_frames[i])@ == zeros(4096)
            && !earlier.is_allocated(area.data_frames[i].ppn.0) && !pt.owns(area.data_frames[i].ppn)
}

/// `after` is `before` with frames added at the end.
pub open spec fn area_extends(before: &MapArea, after: &MapArea) -> bool {
    &&& after.start_vpn == before.start_vpn
    &&& after.end_vpn == before.end_vpn
    &&& after.map_type == before.map_type
    &&& after.map_perm == before.map_perm
    &&& after.data_frames.len() >= before.data_frames.len()
    &&& forall|i: int|
        0 <= i < before.data_frames.len() ==> #[trigger] after.data_frames[i]
            == before.data_frames[i]
}

/// Handing out in two steps is handing out.
pub proof fn lemma_alloc_grew_trans(
    al0: &StackFrameAllocator,
    al1: &StackFrameAllocator,
    al2: &StackFrameAllocator,
    pt1: &PageTable,
    pt2: &PageTable,
    ar1: &MapArea,
    ar2: &MapArea,
)
    requires
        alloc_grew(al0, al1, pt1, ar1),
        alloc_grew(al1, al2, pt2, ar2),
        table_grew(pt1, pt2, al1),
        area_extends(ar1, ar2),
    ensures
        alloc_grew(al0, al2, pt2, ar2),
{
    reveal(alloc_grew);
    assert forall|p: u64| al2.is_allocated(p) implies al0.is_allocated(p) || pt2.owns(PhysPageNum(p))
        || ar2.has_frame(p) by {
        if al1.is_allocated(p) && !al0.is_allocated(p) {
            if pt1.owns(PhysPageNum(p)) {
                lemma_table_grew_owns(pt1, pt2, al1, PhysPageNum(p));
            } else {
                let i = choose|i: int|
                    0 <= i < ar1.data_frames.len() && (#[trigger] ar1.data_frames[i]).ppn.0 == p;
                assert(ar2.data_frames[i] == ar1.data_frames[i]);
            }
        }
    }
}

/// How the table indices and the quotients by the sizes of the tables
/// change from page `v - 1` to page `v`.
pub proof fn lemma_index_step(v: u64)
    requires
        1 <= v < 0x800_0000,
    ensures
        v % 512 != 0 ==> v / 512 == (v - 1) / 512 && v / 0x4_0000 == (v - 1) / 0x4_0000,
        v % 512 == 0 ==> v / 512 == (v - 1) / 512 + 1,
        v % 0x4_0000 != 0 ==> v / 0x4_0000 == (v - 1) / 0x4_0000,
        v % 0x4_0000 == 0 ==> v / 0x4_0000 == (v - 1) / 0x4_0000 + 1,
{
    assert(1 <= v < 0x800_0000 ==> (v % 512 != 0 ==> v / 512 == (v - 1) / 512 && v / 0x4_0000 == (v
        - 1) / 0x4_0000) && (v % 512 == 0 ==> v / 512 == (v - 1) / 512 + 1) && (v % 0x4_0000 != 0
        ==> v / 0x4_0000 == (v - 1) / 0x4_0000) && (v % 0x4_0000 == 0 ==> v / 0x4_0000 == (v - 1)
        / 0x4_0000 + 1)) by (bit_vector);
}

/// A longer range needs no fewer tables.
pub proof fn lemma_tables_mono(s: u64, v: u64, e: u64)
    requires
        s <= v < e <= 0x800_0000,
    ensures
        tables_needed(s as int, v + 1) <= tables_needed(s as int, e as int),
        tables_needed(s as int, v as int) >= 0,
{
    assert((s <= v < e <= 0x800_0000 ==> v / 512 <= (e - 1) / 512 && v / 0x4_0000 <= (e - 1)
        / 0x4_0000 && s / 512 <= v / 512 && s / 0x4_0000 <= v / 0x4_0000) && (s < v < 0x800_0000
        ==> s / 512 <= (v - 1) / 512 && s / 0x4_0000 <= (v - 1) / 0x4_0000)) by (bit_vector);
}

/// The tables that page `v` of the range `[s, e)` can need are within
/// what `tables_needed` allows for it.
pub proof fn lemma_tables_step(pt: &PageTable, s: int, v: int, e: int)
    requires
        pt.wf(),
        0 <= s <= v < e <= 0x800_0000,
        v > s ==> pt.missing_levels(VirtPageNum((v - 1) as u64)) == 0,
    ensures
        pt.missing_levels(VirtPageNum(v as u64)) <= tables_needed(s, v + 1) - tables_needed(s, v),
        tables_needed(s, v + 1) <= tables_needed(s, e),
        tables_needed(s, v) >= 0,
{
    lemma_tables_mono(s as u64, v as u64, e as u64);
    if v > s {
        lemma_index_step(v as u64);
        let cur = VirtPageNum(v as u64);
        let prev = VirtPageNum((v - 1) as u64);
        pt.lemma_mid_present(prev);
        let c0 = vpn_indexes(cur.0)[0];
        let c1 = vpn_indexes(cur.0)[1];
        let q0 = vpn_indexes(prev.0)[0];
        let q1 = vpn_indexes(prev.0)[1];
        assert(c0 == ((v / 0x4_0000) % 512) as usize);
        assert(q0 == (((v - 1) / 0x4_0000) % 512) as usize);
        assert(c1 == ((v / 512) % 512) as usize);
        assert(q1 == (((v - 1) / 512) % 512) as usize);
        if v % 512 != 0 {
            assert(c0 == q0 && c1 == q1);
        } else if v % 0x4_0000 != 0 {
            assert(c0 == q0);
        }
    }
}

/// A run of virtual pages `[start_vpn, end_vpn)` with one permission set
/// and one way of mapping.
pub struct MapArea {
    /// First page of the area.
    pub start_vpn: VirtPageNum,
    /// First page after the area.
    pub end_vpn: VirtPageNum,
    /// In a framed area, the frames of the pages that are mapped, in
    /// page order from `start_vpn` on.
    pub data_frames: Vec<FrameTracker>,
    /// How pages get their frames.
    pub map_type: MapType,
    /// What may be done with the pages.
    pub map_perm: MapPermission,
}

impl MapArea {
    /// Number of pages in the area.
    pub open spec fn pages(&self) -> int {
        self.end_vpn.0 - self.start_vpn.0
    }

    /// Whether `vpn` lies in the area.
    pub open spec fn contains(&self, vpn: VirtPageNum) -> bool {
        self.start_vpn.0 <= vpn.0 < self.end_vpn.0
    }

    /// The range is in order and within the 27 bits of a virtual page
    /// number.
    pub open spec fn range_ok(&self) -> bool {
        self.start_vpn.0 <= self.end_vpn.0 <= 0x800_0000
    }

    /// Every frame held is a whole frame with a page number of at most 44
    /// bits, and no two have the same number.
    pub open spec fn frames_ok(&self) -> bool {
        &&& forall|i: int|
            0 <= i < self.data_frames.len() ==> (#[trigger] self.data_frames[i]).wf()
                && self.data_frames[i].ppn.0 < 0x1000_0000_0000
        &&& forall|i: int, j: int|
            0 <= i < j < self.data_frames.len() ==> (#[trigger] self.data_frames[i]).ppn != (
            #[trigger] self.data_frames[j]).ppn
    }

    /// A fully mapped area: a framed area holds one frame for each of its
    /// pages, an identical area holds none.
    pub open spec fn wf(&self) -> bool {
        &&& self.range_ok()
        &&& self.frames_ok()
        &&& self.data_frames.len() == if self.map_type == MapType::Framed {
            self.pages()
        } else {
            0
        }
    }

    /// The frame that page `vpn` of the area is mapped to.
    pub open spec fn target(&self, vpn: VirtPageNum) -> PhysPageNum {
        if self.map_type == MapType::Framed {
            self.data_frames[vpn.0 - self.start_vpn.0].ppn
        } else {
            PhysPageNum(vpn.0)
        }
    }

    /// The leaf entry of page `vpn` of the area: its frame, the area's
    /// permissions and `V`.
    pub open spec fn leaf(&self, vpn: VirtPageNum) -> PageTableEntry {
        PageTableEntry::spec_new(self.target(vpn), PTEFlags { bits: self.map_perm.bits | 1 })
    }

    /// Every page of the area is mapped in `pt` as the area says.
    pub open spec fn mapped_in(&self, pt: &PageTable) -> bool {
        forall|vpn: VirtPageNum|
            self.contains(vpn) ==> #[trigger] pt.walk(vpn) == Some(self.leaf(vpn))
    }

    /// Whether the area holds frame `ppn`.
    pub open spec fn has_frame(&self, ppn: u64) -> bool {
        exists|i: int| 0 <= i < self.data_frames.len() && (#[trigger] self.data_frames[i]).ppn.0 == ppn
    }

    /// Every frame of the area is handed out by `allocator` at present.
    pub open spec fn owned_by(&self, allocator: &StackFrameAllocator) -> bool {
        forall|i: int|
            0 <= i < self.data_frames.len() ==> allocator.is_allocated(
                (#[trigger] self.data_frames[i]).ppn.0,
            )
    }

    /// Number of free frames that mapping the area is sure to succeed
    /// with: the page tables and, in a framed area, one frame per page.
    pub open spec fn frames_needed(&self) -> int {
        tables_needed(self.start_vpn.0 as int, self.end_vpn.0 as int) + if self.map_type
            == MapType::Framed {
            self.pages()
        } else {
            0
        }
    }

    /// An area for the pages that `[start_va, end_va)` touches, with
    /// nothing mapped yet.
    pub fn new(
        start_va: VirtAddr,
        end_va: VirtAddr,
        map_type: MapType,
        map_perm: MapPermission,
    ) -> (r: Self)
        requires
            end_va.0 + 4096 <= u64::MAX,
        ensures
            r.start_vpn == start_va.spec_floor(),
            r.end_vpn == end_va.spec_ceil(),
            r.data_frames.len() == 0,
            r.map_type == map_type,
            r.map_perm == map_perm,
    {
        let start_vpn: VirtPageNum = start_va.floor();
        let end_vpn: VirtPageNum = end_va.ceil();
        Self { start_vpn, end_vpn, data_frames: Vec::new(), map_type, map_perm }
    }

    /// An area with the range, kind and permissions of `another`, with
    /// nothing mapped yet.
    pub fn from_another(another: &MapArea) -> (r: Self)
        ensures
            r.start_vpn == another.start_vpn,
            r.end_vpn == another.end_vpn,
            r.data_frames.len() == 0,
            r.map_type == another.map_type,
            r.map_perm == another.map_perm,
    {
        Self {
            start_vpn: another.start_vpn,
            end_vpn: another.end_vpn,
            data_frames: Vec::new(),
            map_type: another.map_type,
            map_perm: another.map_perm,
        }
    }

    /// Maps the next page of the area, `vpn`: in a framed area to a fresh
    /// cleared frame, in an identical area to the frame of the same number.
    pub fn map_one(
        &mut self,
        page_table: &mut PageTable,
        vpn: VirtPageNum,
        allocator: &mut StackFrameAllocator,
    )
        requires
            old(self).range_ok(),
            old(self).frames_ok(),
            old(self).contains(vpn),
            old(self).map_type == MapType::Framed ==> vpn.0 == old(self).start_vpn.0 + old(self).data_frames.len(),
            old(self).owned_by(old(allocator)),
            old(page_table).wf(),
            old(page_table).owned_by(old(allocator)),
            old(allocator).wf(),
            !old(page_table).is_mapped(vpn),
            old(allocator).free_count() >= old(page_table).missing_levels(vpn) + if old(self).map_type == MapType::Framed {
                1int
            } else {
                0int
            },
        ensures
            area_extends(old(self), final(self)),
            final(self).frames_ok(),
            final(self).owned_by(final(allocator)),
            final(self).data_frames.len() == old(self).data_frames.len() + if old(self).map_type
                == MapType::Framed {
                1int
            } else {
                0int
            },
            final(self).map_type == MapType::Framed ==> {
                &&& final(self).data_frames@.last()@ == zeros(4096)
                &&& !old(allocator).is_allocated(final(self).data_frames@.last().ppn.0)
                &&& !final(page_table).owns(final(self).data_frames@.last().ppn)
            },
            final(page_table).wf(),
            final(page_table).owned_by(final(allocator)),
            final(allocator).wf(),
            final(page_table).walk(vpn) == Some(final(self).leaf(vpn)),
            final(page_table).missing_levels(vpn) == 0,
            outside_kept(old(page_table), final(page_table), vpn.0 as int, vpn.0 + 1),
            table_grew(old(page_table), final(page_table), old(allocator)),
            alloc_grew(old(allocator), final(allocator), final(page_table), final(self)),
            final(allocator).free_count() == old(allocator).free_count() - old(page_table).missing_levels(vpn) - if old(self).map_type == MapType::Framed {
                1int
            } else {
                0int
            },
    {
        let ppn: PhysPageNum;
        let ghost alloc0 = *allocator;
        match self.map_type {
            MapType::Identical => {
                ppn = PhysPageNum(vpn.0);
            },
            MapType::Framed => {
                let frame = frame_alloc(allocator).unwrap();
                ppn = frame.ppn;
                self.data_frames.push(frame);
                proof {
                    assert forall|i: int, j: int| 0 <= i < j < self.data_frames.len() implies (
                    #[trigger] self.data_frames[i]).ppn != (#[trigger] self.data_frames[j]).ppn by {
                        if j == self.data_frames.len() - 1 {
                            assert(alloc0.is_allocated(old(self).data_frames[i].ppn.0));
                        } else {
                            assert(old(self).data_frames[i].ppn != old(self).data_frames[j].ppn);
                        }
                    }
                    assert forall|k: int| 0 <= k < page_table.frames.len() implies allocator.is_allocated(
                        (#[trigger] page_table.frames[k]).ppn.0,
                    ) by {
                        assert(alloc0.is_allocated(page_table.frames[k].ppn.0));
                    }
                }
            },
        }
        let ghost alloc1 = *allocator;
        let pte_flags = match PTEFlags::from_bits(self.map_perm.bits) {
            Some(f) => f,
            None => PTEFlags::empty(),
        };
        page_table.map(vpn, ppn, pte_flags, allocator);
        proof {
            reveal(table_grew);
            reveal(alloc_grew);
            reveal(outside_kept);
            lemma_zero_not_valid();
            assert forall|i: int| 0 <= i < self.data_frames.len() implies allocator.is_allocated(
                (#[trigger] self.data_frames[i]).ppn.0,
            ) by {
                if i < old(self).data_frames.len() {
                    assert(alloc0.is_allocated(old(self).data_frames[i].ppn.0));
                }
                assert(alloc1.is_allocated(self.data_frames[i].ppn.0));
            }
            if self.map_type == MapType::Framed {
                let f = self.data_frames@.last();
                let n = self.data_frames.len() - 1;
                assert(self.data_frames[n].ppn == f.ppn);
                if page_table.owns(f.ppn) {
                    let k = choose|k: int|
                        0 <= k < page_table.frames.len() && page_table.frames[k].ppn == f.ppn;
                    if k < old(page_table).frames.len() {
                        assert(alloc0.is_allocated(old(page_table).frames[k].ppn.0));
                    } else {
                        assert(!alloc1.is_allocated(page_table.frames[k].ppn.0));
                    }
                }
            }
            assert forall|k: int|
                old(page_table).frames.len() <= k < page_table.frames.len() implies !alloc0.is_allocated(
                (#[trigger] page_table.frames[k]).ppn.0,
            ) by {
                assert(!alloc1.is_allocated(page_table.frames[k].ppn.0));
            }
            assert forall|p: u64| allocator.is_allocated(p) implies alloc0.is_allocated(p)
                || page_table.owns(PhysPageNum(p)) || self.has_frame(p) by {
                if !alloc1.is_allocated(p) {
                    let k = choose|k: int|
                        old(page_table).frames.len() <= k < page_table.frames.len() && (
                        #[trigger] page_table.frames[k]).ppn.0 == p;
                    assert(page_table.frames[k].ppn == PhysPageNum(p));
                } else if !alloc0.is_allocated(p) {
                    let n = self.data_frames.len() - 1;
                    assert(self.data_frames[n].ppn.0 == p);
                }
            }
            assert forall|v: VirtPageNum|
                v.0 < 0x800_0000 && !(vpn.0 <= v.0 < vpn.0 + 1) implies (#[trigger] page_table.walk(v)
                == old(page_table).walk(v) || (!old(page_table).is_mapped(v) && !page_table.is_mapped(
                v,
            ))) by {
                if same_slot(v, vpn) {
                    lemma_slot_unique(v, vpn);
                }
            }
        }
    }

    /// After one more page was mapped, the pages mapped before are still
    /// mapped as the area says.
    proof fn lemma_mapped_step(
        before: &MapArea,
        after: &MapArea,
        pt0: &PageTable,
        pt1: &PageTable,
        vpn: VirtPageNum,
    )
        requires
            mapped_below(before, pt0, vpn.0 as int),
            area_extends(before, after),
            before.range_ok(),
            before.contains(vpn),
            before.map_type == MapType::Framed ==> before.data_frames.len() == vpn.0
                - before.start_vpn.0,
            before.frames_ok(),
            pt1.walk(vpn) == Some(after.leaf(vpn)),
            outside_kept(pt0, pt1, vpn.0 as int, vpn.0 + 1),
        ensures
            mapped_below(after, pt1, vpn.0 + 1),
    {
        reveal(mapped_below);
        assert forall|v: VirtPageNum| after.start_vpn.0 <= v.0 < vpn.0 + 1 implies #[trigger] pt1.walk(
            v,
        ) == Some(after.leaf(v)) by {
            if v.0 < vpn.0 {
                assert(pt0.walk(v) == Some(before.leaf(v)));
                if before.map_type == MapType::Framed {
                    assert(after.data_frames[v.0 - before.start_vpn.0] == before.data_frames[v.0
                        - before.start_vpn.0]);
                    lemma_entry_round_trip(
                        before.target(v),
                        PTEFlags { bits: before.map_perm.bits | 1 },
                    );
                } else {
                    lemma_entry_round_trip(
                        before.target(v),
                        PTEFlags { bits: before.map_perm.bits | 1 },
                    );
                }
                let b = before.map_perm.bits;
                crate::mm::page_table::lemma_flag_bits(b);
                assert(pt0.is_mapped(v));
                lemma_outside_at(pt0, pt1, vpn.0 as int, vpn.0 + 1, v);
            } else {
                assert(v == vpn);
            }
        }
    }

    /// After one more page was mapped, every frame of the area is still
    /// fresh.
    proof fn lemma_fresh_step(
        before: &MapArea,
        after: &MapArea,
        pt0: &PageTable,
        pt1: &PageTable,
        al: &StackFrameAllocator,
        al0: &StackFrameAllocator,
    )
        requires
            frames_fresh(before, al, pt0),
            area_extends(before, after),
            after.data_frames.len() <= before.data_frames.len() + 1,
            after.data_frames.len() == before.data_frames.len() + 1 ==> {
                &&& after.data_frames@.last()@ == zeros(4096)
                &&& !al0.is_allocated(after.data_frames@.last().ppn.0)
                &&& !pt1.owns(after.data_frames@.last().ppn)
            },
            table_grew(pt0, pt1, al0),
            before.owned_by(al0),
            forall|p: u64| al.is_allocated(p) ==> al0.is_allocated(p),
        ensures
            frames_fresh(after, al, pt1),
    {
        reveal(frames_fresh);
        assert forall|i: int| 0 <= i < after.data_frames.len() implies (
        #[trigger] after.data_frames[i])@ == zeros(4096) && !al.is_allocated(
            after.data_frames[i].ppn.0,
        ) && !pt1.owns(after.data_frames[i].ppn) by {
            if i < before.data_frames.len() {
                assert(after.data_frames[i] == before.data_frames[i]);
                if pt1.owns(after.data_frames[i].ppn) {
                    assert(al0.is_allocated(before.data_frames[i].ppn.0));
                    lemma_table_grew_new(pt0, pt1, al0, after.data_frames[i].ppn);
                }
            } else {
                assert(after.data_frames[i] == after.data_frames@.last());
            }
        }
    }

    /// Maps every page of the area.
    pub fn map(&mut self, page_table: &mut PageTable, allocator: &mut StackFrameAllocator)
        requires
            old(self).range_ok(),
            old(self).data_frames.len() == 0,
            old(page_table).wf(),
            old(page_table).owned_by(old(allocator)),
            old(allocator).wf(),
            forall|vpn: VirtPageNum| old(self).contains(vpn) ==> !old(page_table).is_mapped(vpn),
            old(allocator).free_count() >= old(self).frames_needed(),
        ensures
            area_extends(old(self), final(self)),
            final(self).wf(),
            final(self).owned_by(final(allocator)),
            final(self).mapped_in(final(page_table)),
            frames_fresh(final(self), old(allocator), final(page_table)),
            final(page_table).wf(),
            final(page_table).owned_by(final(allocator)),
            final(allocator).wf(),
            outside_kept(
                old(page_table),
                final(page_table),
                old(self).start_vpn.0 as int,
                old(self).end_vpn.0 as int,
            ),
            table_grew(old(page_table), final(page_table), old(allocator)),
            alloc_grew(old(allocator), final(allocator), final(page_table), final(self)),
            final(allocator).free_count() >= old(allocator).free_count() - old(self).frames_needed(),
    {
        let mut vpn = self.start_vpn;
        let ghost s = self.start_vpn.0 as int;
        proof {
            reveal(table_grew);
            reveal(alloc_grew);
            reveal(mapped_below);
            reveal(frames_fresh);
            lemma_outside_refl(page_table, s, s);
        }
        while vpn.0 < self.end_vpn.0
            invariant
                area_extends(old(self), self),
                s == self.start_vpn.0,
                self.range_ok(),
                self.frames_ok(),
                s <= vpn.0 <= self.end_vpn.0,
                self.data_frames.len() == if self.map_type == MapType::Framed {
                    vpn.0 - s
                } else {
                    0
                },
                self.owned_by(allocator),
                page_table.wf(),
                page_table.owned_by(allocator),
                allocator.wf(),
                mapped_below(self, page_table, vpn.0 as int),
                outside_kept(old(page_table), page_table, s, vpn.0 as int),
                forall|v: VirtPageNum| old(self).contains(v) ==> !old(page_table).is_mapped(v),
                frames_fresh(self, old(allocator), page_table),
                table_grew(old(page_table), page_table, old(allocator)),
                alloc_grew(old(allocator), allocator, page_table, self),
                vpn.0 > s ==> page_table.missing_levels(VirtPageNum((vpn.0 - 1) as u64)) == 0,
                allocator.free_count() >= old(allocator).free_count() - (if self.map_type
                    == MapType::Framed {
                    vpn.0 - s
                } else {
                    0
                }) - tables_needed(s, vpn.0 as int),
                old(allocator).free_count() >= old(self).frames_needed(),
            decreases self.end_vpn.0 - vpn.0,
        {
            let ghost pt0 = *page_table;
            let ghost al0 = *allocator;
            let ghost me0 = *self;
            proof {
                lemma_tables_step(&pt0, s, vpn.0 as int, self.end_vpn.0 as int);
                lemma_outside_at(old(page_table), &pt0, s, vpn.0 as int, vpn);
                assert(old(self).contains(vpn));
            }
            self.map_one(page_table, vpn, allocator);
            proof {
                Self::lemma_mapped_step(&me0, self, &pt0, page_table, vpn);
                lemma_outside_trans(old(page_table), &pt0, page_table, s, vpn.0 as int, vpn.0 + 1);
                assert(forall|p: u64| old(allocator).is_allocated(p) ==> al0.is_allocated(p)) by {
                    reveal(alloc_grew);
                }
                Self::lemma_fresh_step(&me0, self, &pt0, page_table, old(allocator), &al0);
                lemma_table_grew_trans(old(page_table), &pt0, page_table, old(allocator), &al0);
                lemma_alloc_grew_trans(old(allocator), &al0, allocator, &pt0, page_table, &me0, self);
            }
            vpn.step();
        }
        proof {
            reveal(mapped_below);
        }
    }

    /// Copies `data` into the frames of a framed area, beginning at the
    /// start of its first page.
    pub fn copy_data(&mut self, data: &[u8])
        requires
            old(self).wf(),
            old(self).map_type == MapType::Framed,
            data@.len() <= old(self).pages() * 4096,
        ensures
            final(self).start_vpn == old(self).start_vpn,
            final(self).end_vpn == old(self).end_vpn,
            final(self).map_type == old(self).map_type,
            final(self).map_perm == old(self).map_perm,
            final(self).data_frames.len() == old(self).data_frames.len(),
            forall|i: int|
                0 <= i < old(self).data_frames.len() ==> (#[trigger] final(self).data_frames[i]).ppn
                    == old(self).data_frames[i].ppn && final(self).data_frames[i]@ == overlay(
                    old(self).data_frames[i]@,
                    data@,
                    i * 4096,
                ),
    {
        let mut idx: usize = 0;
        let n = data.len();
        while idx < n
            invariant
                idx <= n,
                n == data@.len(),
                n <= self.pages() * 4096,
                self.start_vpn == old(self).start_vpn,
                self.end_vpn == old(self).end_vpn,
                self.map_type == old(self).map_type,
                self.map_perm == old(self).map_perm,
                self.data_frames.len() == old(self).data_frames.len(),
                self.data_frames.len() == self.pages(),
                forall|i: int|
                    0 <= i < self.data_frames.len() ==> (#[trigger] self.data_frames[i]).ppn == old(self).data_frames[i].ppn && self.data_frames[i]@.len() == 4096 && old(self).data_frames[i]@.len() == 4096,
                forall|i: int, o: int|
                    0 <= i < self.data_frames.len() && 0 <= o < 4096 ==> (
                    #[trigger] self.data_frames[i]@[o]) == if i * 4096 + o < idx {
                        data@[i * 4096 + o]
                    } else {
                        old(self).data_frames[i]@[o]
                    },
            decreases n - idx,
        {
            let page = idx / 4096;
            let off = idx % 4096;
            let ghost before = *self;
            self.data_frames[page].write_byte(off, data[idx]);
            proof {
                assert forall|i: int, o: int|
                    0 <= i < self.data_frames.len() && 0 <= o < 4096 implies (
                #[trigger] self.data_frames[i]@[o]) == if i * 4096 + o < idx + 1 {
                    data@[i * 4096 + o]
                } else {
                    old(self).data_frames[i]@[o]
                } by {
                    if i != page {
                        assert(self.data_frames[i] == before.data_frames[i]);
                    }
                    assert(before.data_frames[i]@[o] == if i * 4096 + o < idx {
                        data@[i * 4096 + o]
                    } else {
                        old(self).data_frames[i]@[o]
                    });
                }
            }
            idx += 1;
        }
        proof {
            assert forall|i: int| 0 <= i < old(self).data_frames.len() implies (
            #[trigger] self.data_frames[i])@ == overlay(old(self).data_frames[i]@, data@, i * 4096) by {
                let x = self.data_frames[i]@;
                let y = overlay(old(self).data_frames[i]@, data@, i * 4096);
                assert forall|o: int| 0 <= o < 4096 implies x[o] == y[o] by {
                    assert(self.data_frames[i]@[o] == if i * 4096 + o < n {
                        data@[i * 4096 + o]
                    } else {
                        old(self).data_frames[i]@[o]
                    });
                }
                assert(x =~= y);
            }
        }
    }

    /// Unmaps every page of the area and gives its frames back, the
    /// frame of the first page first.
    pub fn unmap(&mut self, page_table: &mut PageTable, allocator: &mut StackFrameAllocator)
        requires
            old(self).wf(),
            old(self).mapped_in(old(page_table)),
            old(self).owned_by(old(allocator)),
            old(page_table).wf(),
            old(allocator).wf(),
        ensures
            final(self).start_vpn == old(self).start_vpn,
            final(self).end_vpn == old(self).end_vpn,
            final(self).map_type == old(self).map_type,
            final(self).map_perm == old(self).map_perm,
            final(self).data_frames.len() == 0,
            final(page_table).wf(),
            final(page_table).root_ppn == old(page_table).root_ppn,
            final(page_table).frames.len() == old(page_table).frames.len(),
            forall|k: int|
                0 <= k < old(page_table).frames.len() ==> (#[trigger] final(page_table).frames[k]).ppn
                    == old(page_table).frames[k].ppn,
            forall|v: VirtPageNum|
                old(self).contains(v) ==> #[trigger] final(page_table).walk(v) == Some(zero_entry()),
            forall|v: VirtPageNum|
                v.0 < 0x800_0000 && !old(self).contains(v) ==> #[trigger] final(page_table).walk(v)
                    == old(page_table).walk(v),
            final(allocator).wf(),
            final(allocator).end == old(allocator).end,
            final(allocator).current == old(allocator).current,
            final(allocator).free_count() == old(allocator).free_count() + old(self).data_frames.len(),
            final(allocator).recycled@ == old(allocator).recycled@ + numbers_of(
                old(self).data_frames@,
            ),
            forall|p: u64|
                final(allocator).is_allocated(p) == (old(allocator).is_allocated(p) && !old(self).has_frame(p)),
    {
        let mut vpn = self.start_vpn;
        let ghost s = self.start_vpn.0 as int;
        let ghost framed = self.map_type == MapType::Framed;
        let ghost all = numbers_of(old(self).data_frames@);
        proof {
            assert(self.data_frames@ =~= old(self).data_frames@.subrange(
                0,
                old(self).data_frames.len() as int,
            ));
            assert(allocator.recycled@ =~= old(allocator).recycled@ + all.subrange(0, 0));
        }
        while vpn.0 < self.end_vpn.0
            invariant
                all == numbers_of(old(self).data_frames@),
                allocator.recycled@ == old(allocator).recycled@ + if framed {
                    all.subrange(0, vpn.0 - s)
                } else {
                    all
                },
                self.start_vpn == old(self).start_vpn,
                self.end_vpn == old(self).end_vpn,
                self.map_type == old(self).map_type,
                self.map_perm == old(self).map_perm,
                framed == (self.map_type == MapType::Framed),
                s == self.start_vpn.0,
                old(self).wf(),
                old(self).mapped_in(old(page_table)),
                old(self).owned_by(old(allocator)),
                s <= vpn.0 <= self.end_vpn.0,
                self.data_frames@ == if framed {
                    old(self).data_frames@.subrange(
                        vpn.0 - s,
                        old(self).data_frames.len() as int,
                    )
                } else {
                    old(self).data_frames@
                },
                page_table.wf(),
                page_table.root_ppn == old(page_table).root_ppn,
                page_table.frames.len() == old(page_table).frames.len(),
                forall|k: int|
                    0 <= k < old(page_table).frames.len() ==> (#[trigger] page_table.frames[k]).ppn
                        == old(page_table).frames[k].ppn,
                forall|v: VirtPageNum|
                    s <= v.0 < vpn.0 ==> #[trigger] page_table.walk(v) == Some(zero_entry()),
                forall|v: VirtPageNum|
                    v.0 < 0x800_0000 && !(s <= v.0 < vpn.0) ==> #[trigger] page_table.walk(v) == old(page_table).walk(v),
                allocator.wf(),
                allocator.end == old(allocator).end,
                allocator.current == old(allocator).current,
                allocator.free_count() == old(allocator).free_count() + if framed {
                    vpn.0 - s
                } else {
                    0
                },
                forall|p: u64|
                    allocator.is_allocated(p) == (old(allocator).is_allocated(p) && !(framed
                        && exists|i: int|
                        0 <= i < vpn.0 - s && (#[trigger] old(self).data_frames[i]).ppn.0 == p)),
            decreases self.end_vpn.0 - vpn.0,
        {
            let ghost pt0 = *page_table;
            let ghost al0 = *allocator;
            let ghost k = vpn.0 - s;
            match self.map_type {
                MapType::Framed => {
                    let frame = self.data_frames.remove(0);
                    proof {
                        assert(frame == old(self).data_frames[k]);
                        assert(old(allocator).is_allocated(old(self).data_frames[k].ppn.0));
                        if exists|i: int|
                            0 <= i < k && (#[trigger] old(self).data_frames[i]).ppn.0 == frame.ppn.0 {
                            let i = choose|i: int|
                                0 <= i < k && (#[trigger] old(self).data_frames[i]).ppn.0
                                    == frame.ppn.0;
                            assert(old(self).data_frames[i].ppn != old(self).data_frames[k].ppn);
                        }
                        assert(self.data_frames@ =~= old(self).data_frames@.subrange(
                            k + 1,
                            old(self).data_frames.len() as int,
                        ));
                    }
                    frame_dealloc(allocator, frame);
                    proof {
                        assert(all.subrange(0, k + 1) =~= all.subrange(0, k).push(
                            old(self).data_frames[k].ppn.0,
                        ));
                        assert(allocator.recycled@ =~= old(allocator).recycled@ + all.subrange(
                            0,
                            k + 1,
                        ));
                        assert forall|p: u64|
                            allocator.is_allocated(p) == (old(allocator).is_allocated(p) && !(framed
                                && exists|i: int|
                                0 <= i < k + 1 && (#[trigger] old(self).data_frames[i]).ppn.0
                                    == p)) by {
                            if exists|i: int|
                                0 <= i < k && (#[trigger] old(self).data_frames[i]).ppn.0 == p {
                                let i = choose|i: int|
                                    0 <= i < k && (#[trigger] old(self).data_frames[i]).ppn.0 == p;
                                assert(0 <= i < k + 1 && old(self).data_frames[i].ppn.0 == p);
                            }
                            if p == old(self).data_frames[k].ppn.0 {
                                assert(0 <= k < k + 1 && old(self).data_frames[k].ppn.0 == p);
                            }
                            if exists|i: int|
                                0 <= i < k + 1 && (#[trigger] old(self).data_frames[i]).ppn.0 == p {
                                let i = choose|i: int|
                                    0 <= i < k + 1 && (#[trigger] old(self).data_frames[i]).ppn.0
                                        == p;
                                if i < k {
                                    assert(0 <= i < k && old(self).data_frames[i].ppn.0 == p);
                                }
                            }
                        }
                    }
                },
                MapType::Identical => {},
            }
            proof {
                assert(old(self).contains(vpn));
                assert(page_table.walk(vpn) == old(page_table).walk(vpn));
                assert(old(page_table).walk(vpn) == Some(old(self).leaf(vpn)));
                lemma_entry_round_trip(
                    old(self).target(vpn),
                    PTEFlags { bits: old(self).map_perm.bits | 1 },
                );
                let b = old(self).map_perm.bits;
                crate::mm::page_table::lemma_flag_bits(b);
                if framed {
                    assert(old(self).data_frames[k].ppn.0 < 0x1000_0000_0000);
                }
            }
            page_table.unmap(vpn);
            proof {
                assert forall|v: VirtPageNum| s <= v.0 < vpn.0 + 1 implies #[trigger] page_table.walk(
                    v,
                ) == Some(zero_entry()) by {
                    if v.0 < vpn.0 {
                        assert(pt0.walk(v) == Some(zero_entry()));
                        if same_slot(v, vpn) {
                            lemma_slot_unique(v, vpn);
                        }
                    }
                }
                assert forall|v: VirtPageNum|
                    v.0 < 0x800_0000 && !(s <= v.0 < vpn.0 + 1) implies #[trigger] page_table.walk(v)
                    == old(page_table).walk(v) by {
                    assert(pt0.walk(v) == old(page_table).walk(v));
                    if same_slot(v, vpn) {
                        lemma_slot_unique(v, vpn);
                    }
                }
                assert forall|kk: int| 0 <= kk < old(page_table).frames.len() implies (
                #[trigger] page_table.frames[kk]).ppn == old(page_table).frames[kk].ppn by {
                    assert(pt0.frames[kk].ppn == old(page_table).frames[kk].ppn);
                }
            }
            vpn.step();
        }
        proof {
            if framed {
                assert(self.data_frames@.len() == 0);
                assert(all.subrange(0, self.end_vpn.0 - s) =~= all);
            }
            assert forall|p: u64|
                allocator.is_allocated(p) == (old(allocator).is_allocated(p) && !old(self).has_frame(
                    p,
                )) by {
                if old(self).has_frame(p) {
                    let i = choose|i: int|
                        0 <= i < old(self).data_frames.len() && (#[trigger] old(self).data_frames[i]).ppn.0
                            == p;
                    assert(0 <= i < self.end_vpn.0 - s && old(self).data_frames[i].ppn.0 == p);
                }
            }
        }
    }

    /// Gives every frame of the area back, the frame of the first page
    /// first, and leaves the page table as it is.
    pub fn release_frames(&mut self, allocator: &mut StackFrameAllocator)
        requires
            old(self).frames_ok(),
            old(self).owned_by(old(allocator)),
            old(allocator).wf(),
        ensures
            final(self).start_vpn == old(self).start_vpn,
            final(self).end_vpn == old(self).end_vpn,
            final(self).map_type == old(self).map_type,
            final(self).map_perm == old(self).map_perm,
            final(self).data_frames.len() == 0,
            final(allocator).wf(),
            final(allocator).end == old(allocator).end,
            final(allocator).current == old(allocator).current,
            final(allocator).free_count() == old(allocator).free_count() + old(self).data_frames.len(),
            final(allocator).recycled@ == old(allocator).recycled@ + numbers_of(
                old(self).data_frames@,
            ),
            forall|p: u64|
                final(allocator).is_allocated(p) == (old(allocator).is_allocated(p) && !old(self).has_frame(p)),
    {
        let ghost n = self.data_frames.len() as int;
        let ghost mut k: int = 0;
        let ghost all = numbers_of(old(self).data_frames@);
        proof {
            assert(self.data_frames@ =~= old(self).data_frames@.subrange(0, n));
            assert(allocator.recycled@ =~= old(allocator).recycled@ + all.subrange(0, 0));
        }
        while self.data_frames.len() > 0
            invariant
                all == numbers_of(old(self).data_frames@),
                allocator.recycled@ == old(allocator).recycled@ + all.subrange(0, k),
                self.start_vpn == old(self).start_vpn,
                self.end_vpn == old(self).end_vpn,
                self.map_type == old(self).map_type,
                self.map_perm == old(self).map_perm,
                n == old(self).data_frames.len(),
                old(self).frames_ok(),
                old(self).owned_by(old(allocator)),
                0 <= k <= n,
                self.data_frames@ == old(self).data_frames@.subrange(k, n),
                allocator.wf(),
                allocator.end == old(allocator).end,
                allocator.current == old(allocator).current,
                allocator.free_count() == old(allocator).free_count() + k,
                forall|p: u64|
                    allocator.is_allocated(p) == (old(allocator).is_allocated(p) && !(exists|i: int|
                        0 <= i < k && (#[trigger] old(self).data_frames[i]).ppn.0 == p)),
            decreases self.data_frames.len(),
        {
            let frame = self.data_frames.remove(0);
            proof {
                assert(frame == old(self).data_frames[k]);
                assert(old(allocator).is_allocated(old(self).data_frames[k].ppn.0));
                if exists|i: int|
                    0 <= i < k && (#[trigger] old(self).data_frames[i]).ppn.0 == frame.ppn.0 {
                    let i = choose|i: int|
                        0 <= i < k && (#[trigger] old(self).data_frames[i]).ppn.0 == frame.ppn.0;
                    assert(old(self).data_frames[i].ppn != old(self).data_frames[k].ppn);
                }
                assert(self.data_frames@ =~= old(self).data_frames@.subrange(k + 1, n));
            }
            frame_dealloc(allocator, frame);
            proof {
                assert(all.subrange(0, k + 1) =~= all.subrange(0, k).push(
                    old(self).data_frames[k].ppn.0,
                ));
                assert(allocator.recycled@ =~= old(allocator).recycled@ + all.subrange(0, k + 1));
                assert forall|p: u64|
                    allocator.is_allocated(p) == (old(allocator).is_allocated(p) && !(exists|i: int|
                        0 <= i < k + 1 && (#[trigger] old(self).data_frames[i]).ppn.0 == p)) by {
                    if exists|i: int| 0 <= i < k && (#[trigger] old(self).data_frames[i]).ppn.0 == p {
                        let i = choose|i: int|
                            0 <= i < k && (#[trigger] old(self).data_frames[i]).ppn.0 == p;
                        assert(0 <= i < k + 1 && old(self).data_frames[i].ppn.0 == p);
                    }
                    if p == old(self).data_frames[k].ppn.0 {
                        assert(0 <= k < k + 1 && old(self).data_frames[k].ppn.0 == p);
                    }
                    if exists|i: int|
                        0 <= i < k + 1 && (#[trigger] old(self).data_frames[i]).ppn.0 == p {
                        let i = choose|i: int|
                            0 <= i < k + 1 && (#[trigger] old(self).data_frames[i]).ppn.0 == p;
                        if i < k {
                            assert(0 <= i < k && old(self).data_frames[i].ppn.0 == p);
                        }
                    }
                }
                k = k + 1;
            }
        }
        proof {
            assert(all.subrange(0, n) =~= all);
            assert forall|p: u64|
                allocator.is_allocated(p) == (old(allocator).is_allocated(p) && !old(self).has_frame(
                    p,
                )) by {
                if old(self).has_frame(p) {
                    let i = choose|i: int|
                        0 <= i < old(self).data_frames.len() && (#[trigger] old(self).data_frames[i]).ppn.0
                            == p;
                    assert(0 <= i < k && old(self).data_frames[i].ppn.0 == p);
                }
            }
        }
    }
}

/// The numbers of the frames of the first `n` areas of `areas`, area by
/// area, in each area the frame of the first page first.
pub open spec fn area_numbers(areas: Seq<MapArea>, n: int) -> Seq<u64>
    decreases n,
{
    if n <= 0 {
        Seq::empty()
    } else {
        area_numbers(areas, n - 1) + numbers_of(areas[n - 1].data_frames@)
    }
}

/// Number of the page of the trampoline.
pub const TRAMPOLINE_VPN: u64 = 0x7ff_ffff;

/// Number of the page of the trap context.
pub const TRAP_CONTEXT_VPN: u64 = 0x7ff_fffe;

/// The ranges of two areas do not meet, and no frame of one is a frame
/// of the other.
pub open spec fn areas_apart(x: &MapArea, y: &MapArea) -> bool {
    &&& (x.end_vpn.0 <= y.start_vpn.0 || y.end_vpn.0 <= x.start_vpn.0 || x.start_vpn.0
        == x.end_vpn.0 || y.start_vpn.0 == y.end_vpn.0)
    &&& forall|i: int, j: int|
        0 <= i < x.data_frames.len() && 0 <= j < y.data_frames.len() ==> (
        #[trigger] x.data_frames[i]).ppn != (#[trigger] y.data_frames[j]).ppn
}

/// No frame of the area is a frame of the table.
pub open spec fn area_apart_from_table(area: &MapArea, pt: &PageTable) -> bool {
    forall|i: int|
        0 <= i < area.data_frames.len() ==> !pt.owns((#[trigger] area.data_frames[i]).ppn)
}

/// An address space: a page table and the areas that are mapped in it.
pub struct MemorySet {
    /// The page table of the space.
    pub page_table: PageTable,
    /// The areas of the space, in the order in which they were added.
    pub areas: Vec<MapArea>,
}

/// Between `al0` and `al1` frames were only handed out, each to `after`;
/// `after` holds every frame that `before` held, and what it holds beside
/// them was not handed out at `al0`.
#[verifier::opaque]
pub open spec fn space_grew(
    before: &MemorySet,
    after: &MemorySet,
    al0: &StackFrameAllocator,
    al1: &StackFrameAllocator,
) -> bool {
    &&& al1.end == al0.end
    &&& forall|p: u64| al0.is_allocated(p) ==> al1.is_allocated(p)
    &&& forall|p: u64| al1.is_allocated(p) && !al0.is_allocated(p) ==> after.has_frame(p)
    &&& forall|p: u64| before.has_frame(p) ==> after.has_frame(p)
    &&& forall|p: u64| after.has_frame(p) && !before.has_frame(p) ==> !al0.is_allocated(p)
}

/// Between `al0` and `al1` frames were only handed out, each to `space`,
/// and `space` holds no frame that was handed out at `al0`.
#[verifier::opaque]
pub open spec fn space_fresh(
    space: &MemorySet,
    al0: &StackFrameAllocator,
    al1: &StackFrameAllocator,
) -> bool {
    &&& al1.end == al0.end
    &&& forall|p: u64| al0.is_allocated(p) ==> al1.is_allocated(p)
    &&& forall|p: u64| al1.is_allocated(p) && !al0.is_allocated(p) ==> space.has_frame(p)
    &&& forall|p: u64| space.has_frame(p) ==> !al0.is_allocated(p)
}

/// Growth of a space in two steps is growth.
pub proof fn lemma_space_grew_trans(
    a: &MemorySet,
    b: &MemorySet,
    c: &MemorySet,
    al0: &StackFrameAllocator,
    al1: &StackFrameAllocator,
    al2: &StackFrameAllocator,
)
    requires
        space_grew(a, b, al0, al1),
        space_grew(b, c, al1, al2),
    ensures
        space_grew(a, c, al0, al2),
{
    reveal(space_grew);
}

/// A fresh space that grows is still fresh.
pub proof fn lemma_space_fresh_grew(
    a: &MemorySet,
    b: &MemorySet,
    al0: &StackFrameAllocator,
    al1: &StackFrameAllocator,
    al2: &StackFrameAllocator,
)
    requires
        space_fresh(a, al0, al1),
        space_grew(a, b, al1, al2),
    ensures
        space_fresh(b, al0, al2),
{
    reveal(space_grew);
    reveal(space_fresh);
}

/// A space that did not change and an allocator that did not change.
pub proof fn lemma_space_grew_refl(a: &MemorySet, al: &StackFrameAllocator)
    ensures
        space_grew(a, a, al, al),
{
    reveal(space_grew);
}

impl MemorySet {
    /// Whether the space holds frame `ppn`, in its page table or in one of
    /// its areas.
    #[verifier::opaque]
    pub open spec fn has_frame(&self, ppn: u64) -> bool {
        self.page_table.owns(PhysPageNum(ppn)) || exists|a: int|
            0 <= a < self.areas.len() && (#[trigger] self.areas[a]).has_frame(ppn)
    }

    /// The page table is a tree; every area is fully mapped in it as the
    /// area says; no two areas share a page or a frame, and no area holds a
    /// frame of the page table.
    pub open spec fn wf(&self) -> bool {
        &&& self.page_table.wf()
        &&& forall|a: int|
            0 <= a < self.areas.len() ==> (#[trigger] self.areas[a]).wf() && self.areas[a].mapped_in(
                &self.page_table,
            ) && area_apart_from_table(&self.areas[a], &self.page_table)
        &&& forall|a: int, b: int|
            0 <= a < b < self.areas.len() ==> areas_apart(
                &(#[trigger] self.areas[a]),
                &(#[trigger] self.areas[b]),
            )
    }

    /// Every frame of the space is handed out by `allocator` at present.
    pub open spec fn owned_by(&self, allocator: &StackFrameAllocator) -> bool {
        &&& self.page_table.owned_by(allocator)
        &&& forall|a: int|
            0 <= a < self.areas.len() ==> (#[trigger] self.areas[a]).owned_by(allocator)
    }

    /// Every mapped page of at most 27 bits is the trampoline page or lies
    /// in an area.
    pub open spec fn only_areas_mapped(&self) -> bool {
        forall|v: VirtPageNum|
            v.0 < 0x800_0000 && #[trigger] self.page_table.is_mapped(v) ==> v.0 == TRAMPOLINE_VPN
                || exists|a: int| 0 <= a < self.areas.len() && (#[trigger] self.areas[a]).contains(v)
    }

    /// Every frame that the space holds is handed out.
    pub proof fn lemma_has_frame_allocated(&self, allocator: &StackFrameAllocator, p: u64)
        requires
            self.owned_by(allocator),
            self.has_frame(p),
        ensures
            allocator.is_allocated(p),
    {
        reveal(MemorySet::has_frame);
        if self.page_table.owns(PhysPageNum(p)) {
            let k = choose|k: int|
                0 <= k < self.page_table.frames.len() && self.page_table.frames[k].ppn
                    == PhysPageNum(p);
            assert(allocator.is_allocated(self.page_table.frames[k].ppn.0));
        } else {
            let a = choose|a: int|
                0 <= a < self.areas.len() && (#[trigger] self.areas[a]).has_frame(p);
            let i = choose|i: int|
                0 <= i < self.areas[a].data_frames.len() && (
                #[trigger] self.areas[a].data_frames[i]).ppn.0 == p;
            assert(self.areas[a].owned_by(allocator));
            assert(allocator.is_allocated(self.areas[a].data_frames[i].ppn.0));
        }
    }

    /// A space with an empty page table and no area.
    pub fn new_bare(allocator: &mut StackFrameAllocator) -> (r: Self)
        requires
            old(allocator).wf(),
            old(allocator).free_count() >= 1,
        ensures
            r.wf(),
            r.owned_by(final(allocator)),
            r.only_areas_mapped(),
            final(allocator).wf(),
            r.areas.len() == 0,
            forall|v: VirtPageNum| r.page_table.walk(v) is None,
            space_fresh(&r, old(allocator), final(allocator)),
            final(allocator).free_count() == old(allocator).free_count() - 1,
            Some(r.page_table.root_ppn.0) == old(allocator).next_free(),
    {
        let page_table = PageTable::new(allocator);
        let r = Self { page_table, areas: Vec::new() };
        proof {
            reveal(MemorySet::has_frame);
            reveal(space_fresh);
            assert forall|p: u64| r.has_frame(p) implies !old(allocator).is_allocated(p) by {
                let k = choose|k: int|
                    0 <= k < r.page_table.frames.len() && r.page_table.frames[k].ppn == PhysPageNum(
                        p,
                    );
                assert(k == 0);
            }
            assert forall|p: u64|
                allocator.is_allocated(p) && !old(allocator).is_allocated(p) implies r.has_frame(
                p,
            ) by {
                assert(r.page_table.frames[0].ppn == PhysPageNum(p));
            }
        }
        r
    }

    /// The value for the `satp` register that selects this space.
    pub fn token(&self) -> (r: u64)
        ensures
            r == (8u64 << 60) | self.page_table.root_ppn.0,
    {
        self.page_table.token()
    }

    /// The entry that the lookup of `vpn` ends at, if it reaches a leaf
    /// table.
    pub fn translate(&self, vpn: VirtPageNum) -> (r: Option<PageTableEntry>)
        requires
            self.page_table.readable(),
        ensures
            r == self.page_table.walk(vpn),
    {
        self.page_table.translate(vpn)
    }

    /// What adding a mapped area does to a well-formed space.
    proof fn lemma_push(
        before: &MemorySet,
        after: &MemorySet,
        al0: &StackFrameAllocator,
        al1: &StackFrameAllocator,
        empty: &MapArea,
    )
        requires
            before.wf(),
            before.owned_by(al0),
            empty.range_ok(),
            empty.data_frames.len() == 0,
            forall|vpn: VirtPageNum| empty.contains(vpn) ==> !before.page_table.is_mapped(vpn),
            after.areas.len() == before.areas.len() + 1,
            forall|a: int| 0 <= a < before.areas.len() ==> #[trigger] after.areas[a] == before.areas[a],
            area_extends(empty, &after.areas@.last()),
            after.areas@.last().wf(),
            after.areas@.last().owned_by(al1),
            after.areas@.last().mapped_in(&after.page_table),
            forall|i: int|
                0 <= i < after.areas@.last().data_frames.len() ==> !al0.is_allocated(
                    (#[trigger] after.areas@.last().data_frames[i]).ppn.0,
                ) && !after.page_table.owns(after.areas@.last().data_frames[i].ppn),
            after.page_table.wf(),
            after.page_table.owned_by(al1),
            outside_kept(
                &before.page_table,
                &after.page_table,
                empty.start_vpn.0 as int,
                empty.end_vpn.0 as int,
            ),
            table_grew(&before.page_table, &after.page_table, al0),
            alloc_grew(al0, al1, &after.page_table, &after.areas@.last()),
        ensures
            after.wf(),
            after.owned_by(al1),
            space_grew(before, after, al0, al1),
            before.only_areas_mapped() ==> after.only_areas_mapped(),
    {
        reveal(MemorySet::has_frame);
        reveal(table_grew);
        reveal(alloc_grew);
        reveal(space_grew);
        let n = before.areas.len() as int;
        let na = after.areas@.last();
        assert(after.areas[n] == na);
        assert forall|a: int| 0 <= a < after.areas.len() implies (#[trigger] after.areas[a]).wf()
            && after.areas[a].mapped_in(&after.page_table) && area_apart_from_table(
            &after.areas[a],
            &after.page_table,
        ) by {
            if a < n {
                let ar = before.areas[a];
                assert(after.areas[a] == ar);
                assert(ar.wf() && ar.mapped_in(&before.page_table));
                assert forall|vpn: VirtPageNum| ar.contains(vpn) implies #[trigger] after.page_table.walk(
                    vpn,
                ) == Some(ar.leaf(vpn)) by {
                    Self::lemma_area_page_mapped(&ar, &before.page_table, vpn);
                    assert(!empty.contains(vpn));
                    lemma_outside_at(
                        &before.page_table,
                        &after.page_table,
                        empty.start_vpn.0 as int,
                        empty.end_vpn.0 as int,
                        vpn,
                    );
                }
                assert forall|i: int| 0 <= i < ar.data_frames.len() implies !after.page_table.owns(
                    (#[trigger] ar.data_frames[i]).ppn,
                ) by {
                    assert(before.areas[a].owned_by(al0));
                    assert(al0.is_allocated(ar.data_frames[i].ppn.0));
                    assert(area_apart_from_table(&before.areas[a], &before.page_table));
                    if after.page_table.owns(ar.data_frames[i].ppn) {
                        lemma_table_grew_new(
                            &before.page_table,
                            &after.page_table,
                            al0,
                            ar.data_frames[i].ppn,
                        );
                    }
                }
            }
        }
        assert forall|a: int, b: int| 0 <= a < b < after.areas.len() implies areas_apart(
            &(#[trigger] after.areas[a]),
            &(#[trigger] after.areas[b]),
        ) by {
            if b < n {
                assert(areas_apart(&before.areas[a], &before.areas[b]));
            } else {
                let ar = before.areas[a];
                assert(after.areas[a] == ar);
                assert(before.areas[a].owned_by(al0));
                assert(ar.wf() && ar.mapped_in(&before.page_table));
                if ar.start_vpn.0 < ar.end_vpn.0 && na.start_vpn.0 < na.end_vpn.0 {
                    if !(ar.end_vpn.0 <= na.start_vpn.0 || na.end_vpn.0 <= ar.start_vpn.0) {
                        let v = VirtPageNum(
                            if ar.start_vpn.0 >= na.start_vpn.0 {
                                ar.start_vpn.0
                            } else {
                                na.start_vpn.0
                            },
                        );
                        Self::lemma_area_page_mapped(&ar, &before.page_table, v);
                        assert(empty.contains(v));
                    }
                }
                assert forall|i: int, j: int|
                    0 <= i < ar.data_frames.len() && 0 <= j < na.data_frames.len() implies (
                #[trigger] ar.data_frames[i]).ppn != (#[trigger] na.data_frames[j]).ppn by {
                    assert(al0.is_allocated(ar.data_frames[i].ppn.0));
                }
            }
        }
        assert forall|a: int| 0 <= a < after.areas.len() implies (#[trigger] after.areas[a]).owned_by(
            al1,
        ) by {
            if a < n {
                let ar = before.areas[a];
                assert(before.areas[a].owned_by(al0));
                assert forall|i: int| 0 <= i < ar.data_frames.len() implies al1.is_allocated(
                    (#[trigger] ar.data_frames[i]).ppn.0,
                ) by {
                    assert(al0.is_allocated(ar.data_frames[i].ppn.0));
                }
            }
        }
        assert forall|p: u64| al1.is_allocated(p) && !al0.is_allocated(p) implies after.has_frame(
            p,
        ) by {
            if !after.page_table.owns(PhysPageNum(p)) {
                assert(after.areas[n].has_frame(p));
            }
        }
        assert forall|p: u64| before.has_frame(p) implies after.has_frame(p) by {
            if before.page_table.owns(PhysPageNum(p)) {
                lemma_table_grew_owns(&before.page_table, &after.page_table, al0, PhysPageNum(p));
            } else {
                let a = choose|a: int|
                    0 <= a < before.areas.len() && (#[trigger] before.areas[a]).has_frame(p);
                assert(after.areas[a].has_frame(p));
            }
        }
        assert forall|p: u64| after.has_frame(p) && !before.has_frame(p) implies !al0.is_allocated(
            p,
        ) by {
            if after.page_table.owns(PhysPageNum(p)) {
                lemma_table_grew_new(&before.page_table, &after.page_table, al0, PhysPageNum(p));
            } else {
                let a = choose|a: int|
                    0 <= a < after.areas.len() && (#[trigger] after.areas[a]).has_frame(p);
                if a < n {
                    assert(before.areas[a].has_frame(p));
                } else {
                    let i = choose|i: int|
                        0 <= i < na.data_frames.len() && (#[trigger] na.data_frames[i]).ppn.0 == p;
                    assert(!al0.is_allocated(na.data_frames[i].ppn.0));
                }
            }
        }
        if before.only_areas_mapped() {
            assert forall|v: VirtPageNum|
                v.0 < 0x800_0000 && #[trigger] after.page_table.is_mapped(v) implies v.0
                == TRAMPOLINE_VPN || exists|a: int|
                0 <= a < after.areas.len() && (#[trigger] after.areas[a]).contains(v) by {
                if empty.contains(v) {
                    assert(after.areas[n].contains(v));
                } else {
                    lemma_outside_at(
                        &before.page_table,
                        &after.page_table,
                        empty.start_vpn.0 as int,
                        empty.end_vpn.0 as int,
                        v,
                    );
                    assert(before.page_table.is_mapped(v));
                    if v.0 != TRAMPOLINE_VPN {
                        let a = choose|a: int|
                            0 <= a < before.areas.len() && (#[trigger] before.areas[a]).contains(v);
                        assert(after.areas[a].contains(v));
                    }
                }
            }
        }
    }

    /// A page of an area that is mapped as the area says is mapped.
    pub proof fn lemma_area_page_mapped(area: &MapArea, pt: &PageTable, vpn: VirtPageNum)
        requires
            area.wf(),
            area.mapped_in(pt),
            area.contains(vpn),
        ensures
            pt.walk(vpn) == Some(area.leaf(vpn)),
            pt.is_mapped(vpn),
            vpn.0 < 0x800_0000,
            area.leaf(vpn).spec_ppn() == area.target(vpn),
            area.leaf(vpn).spec_flags().bits == area.map_perm.bits | 1,
    {
        assert(pt.walk(vpn) == Some(area.leaf(vpn)));
        if area.map_type == MapType::Framed {
            assert(area.data_frames[vpn.0 - area.start_vpn.0].ppn.0 < 0x1000_0000_0000);
        }
        lemma_entry_round_trip(area.target(vpn), PTEFlags { bits: area.map_perm.bits | 1 });
        let b = area.map_perm.bits;
        crate::mm::page_table::lemma_flag_bits(b);
    }

    /// Adds `map_area` to the space: maps each of its pages and, where
    /// `data` is given, copies it into the frames of the area from the start
    /// of its first page on.
    pub fn push(
        &mut self,
        map_area: MapArea,
        data: Option<&[u8]>,
        allocator: &mut StackFrameAllocator,
    )
        requires
            old(self).wf(),
            old(self).owned_by(old(allocator)),
            old(allocator).wf(),
            map_area.range_ok(),
            map_area.data_frames.len() == 0,
            forall|vpn: VirtPageNum|
                map_area.contains(vpn) ==> !old(self).page_table.is_mapped(vpn),
            old(allocator).free_count() >= map_area.frames_needed(),
            data matches Some(d) ==> map_area.map_type == MapType::Framed && d@.len()
                <= map_area.pages() * 4096,
        ensures
            final(self).wf(),
            final(self).owned_by(final(allocator)),
            final(allocator).wf(),
            old(self).only_areas_mapped() ==> final(self).only_areas_mapped(),
            final(self).page_table.root_ppn == old(self).page_table.root_ppn,
            final(self).areas.len() == old(self).areas.len() + 1,
            forall|a: int|
                0 <= a < old(self).areas.len() ==> #[trigger] final(self).areas[a] == old(self).areas[a],
            area_extends(&map_area, &final(self).areas@.last()),
            forall|i: int|
                0 <= i < final(self).areas@.last().data_frames.len() ==> (#[trigger] final(self).areas@.last().data_frames[i])@ == match data {
                    Some(d) => overlay(zeros(4096), d@, i * 4096),
                    None => zeros(4096),
                },
            outside_kept(
                &old(self).page_table,
                &final(self).page_table,
                map_area.start_vpn.0 as int,
                map_area.end_vpn.0 as int,
            ),
            space_grew(old(self), final(self), old(allocator), final(allocator)),
            final(allocator).free_count() >= old(allocator).free_count() - map_area.frames_needed(),
    {
        let mut area = map_area;
        area.map(&mut self.page_table, allocator);
        let ghost mapped = area;
        if let Some(d) = data {
            area.copy_data(d);
        }
        proof {
            reveal(frames_fresh);
            reveal(table_grew);
            assert(area.frames_ok()) by {
                assert forall|i: int| 0 <= i < area.data_frames.len() implies (
                #[trigger] area.data_frames[i]).wf() && area.data_frames[i].ppn.0
                    < 0x1000_0000_0000 by {
                    assert(mapped.data_frames[i].wf());
                }
                assert forall|i: int, j: int| 0 <= i < j < area.data_frames.len() implies (
                #[trigger] area.data_frames[i]).ppn != (#[trigger] area.data_frames[j]).ppn by {
                    assert(mapped.data_frames[i].ppn != mapped.data_frames[j].ppn);
                }
            }
            assert(area.owned_by(allocator)) by {
                assert forall|i: int| 0 <= i < area.data_frames.len() implies allocator.is_allocated(
                    (#[trigger] area.data_frames[i]).ppn.0,
                ) by {
                    assert(allocator.is_allocated(mapped.data_frames[i].ppn.0));
                }
            }
            assert(area.mapped_in(&self.page_table)) by {
                assert forall|vpn: VirtPageNum| area.contains(vpn) implies #[trigger] self.page_table.walk(
                    vpn,
                ) == Some(area.leaf(vpn)) by {
                    assert(self.page_table.walk(vpn) == Some(mapped.leaf(vpn)));
                    if area.map_type == MapType::Framed {
                        assert(area.data_frames[vpn.0 - area.start_vpn.0].ppn
                            == mapped.data_frames[vpn.0 - area.start_vpn.0].ppn);
                    }
                }
            }
            assert forall|i: int| 0 <= i < area.data_frames.len() implies !old(allocator).is_allocated(
                (#[trigger] area.data_frames[i]).ppn.0,
            ) && !self.page_table.owns(area.data_frames[i].ppn) by {
                assert(mapped.data_frames[i].ppn == area.data_frames[i].ppn);
            }
            assert(alloc_grew(old(allocator), allocator, &self.page_table, &area)) by {
                reveal(alloc_grew);
                assert forall|p: u64| mapped.has_frame(p) implies area.has_frame(p) by {
                    let i = choose|i: int|
                        0 <= i < mapped.data_frames.len() && (#[trigger] mapped.data_frames[i]).ppn.0
                            == p;
                    assert(area.data_frames[i].ppn.0 == p);
                }
            }
            assert forall|i: int| 0 <= i < area.data_frames.len() implies (
            #[trigger] area.data_frames[i])@ == match data {
                Some(d) => overlay(zeros(4096), d@, i * 4096),
                None => zeros(4096),
            } by {
                assert(mapped.data_frames[i]@ == zeros(4096));
            }
        }
        self.areas.push(area);
        proof {
            assert(self.areas@.last() == area);
            Self::lemma_push(old(self), self, old(allocator), allocator, &map_area);
        }
    }

    /// Adds a framed area for the pages that `[start_va, end_va)` touches.
    pub fn insert_framed_area(
        &mut self,
        start_va: VirtAddr,
        end_va: VirtAddr,
        permission: MapPermission,
        allocator: &mut StackFrameAllocator,
    )
        requires
            old(self).wf(),
            old(self).owned_by(old(allocator)),
            old(allocator).wf(),
            start_va.0 / 4096 <= (end_va.0 + 4095) / 4096 <= 0x800_0000,
            forall|vpn: VirtPageNum|
                start_va.0 / 4096 <= vpn.0 < (end_va.0 + 4095) / 4096 ==> !old(self).page_table.is_mapped(vpn),
            old(allocator).free_count() >= tables_needed(
                (start_va.0 / 4096) as int,
                (end_va.0 + 4095) / 4096,
            ) + (end_va.0 + 4095) / 4096 - start_va.0 / 4096,
        ensures
            final(self).wf(),
            final(self).owned_by(final(allocator)),
            final(allocator).wf(),
            old(self).only_areas_mapped() ==> final(self).only_areas_mapped(),
            final(self).page_table.root_ppn == old(self).page_table.root_ppn,
            final(self).areas.len() == old(self).areas.len() + 1,
            forall|a: int|
                0 <= a < old(self).areas.len() ==> #[trigger] final(self).areas[a] == old(self).areas[a],
            final(self).areas@.last().start_vpn == start_va.spec_floor(),
            final(self).areas@.last().end_vpn == end_va.spec_ceil(),
            final(self).areas@.last().map_type == MapType::Framed,
            final(self).areas@.last().map_perm == permission,
            forall|i: int|
                0 <= i < final(self).areas@.last().data_frames.len() ==> (#[trigger] final(self).areas@.last().data_frames[i])@ == zeros(4096),
            outside_kept(
                &old(self).page_table,
                &final(self).page_table,
                (start_va.0 / 4096) as int,
                (end_va.0 + 4095) / 4096,
            ),
            space_grew(old(self), final(self), old(allocator), final(allocator)),
            final(allocator).free_count() >= old(allocator).free_count() - tables_needed(
                (start_va.0 / 4096) as int,
                (end_va.0 + 4095) / 4096,
            ) - ((end_va.0 + 4095) / 4096 - start_va.0 / 4096),
    {
        let area = MapArea::new(start_va, end_va, MapType::Framed, permission);
        self.push(area, None, allocator);
    }

    /// Index of the first area that starts at `vpn`, if there is one.
    #[verifier::opaque]
    pub open spec fn first_with_start(&self, vpn: VirtPageNum) -> Option<int> {
        if exists|a: int| 0 <= a < self.areas.len() && (#[trigger] self.areas[a]).start_vpn == vpn {
            Some(
                choose|a: int|
                    0 <= a < self.areas.len() && (#[trigger] self.areas[a]).start_vpn == vpn
                        && forall|b: int| 0 <= b < a ==> (#[trigger] self.areas[b]).start_vpn != vpn,
            )
        } else {
            None
        }
    }

    /// Whether `vpn` lies in an area of the space.
    pub open spec fn in_area(&self, vpn: VirtPageNum) -> bool {
        exists|a: int| 0 <= a < self.areas.len() && (#[trigger] self.areas[a]).contains(vpn)
    }

    /// Index of the area that `vpn` lies in.
    pub open spec fn area_of(&self, vpn: VirtPageNum) -> int {
        choose|a: int| 0 <= a < self.areas.len() && (#[trigger] self.areas[a]).contains(vpn)
    }

    /// Whether `vpn` has a frame in this space: it lies in a framed area.
    pub open spec fn backed(&self, vpn: VirtPageNum) -> bool {
        self.in_area(vpn) && self.areas[self.area_of(vpn)].map_type == MapType::Framed
    }

    /// The bytes of the frame of page `vpn`.
    pub open spec fn page(&self, vpn: VirtPageNum) -> Seq<u8> {
        let area = self.areas[self.area_of(vpn)];
        area.data_frames[vpn.0 - area.start_vpn.0]@
    }

    /// In a well-formed space a page lies in one area only.
    pub proof fn lemma_area_unique(&self, vpn: VirtPageNum, a: int)
        requires
            self.wf(),
            0 <= a < self.areas.len(),
            self.areas[a].contains(vpn),
        ensures
            self.in_area(vpn),
            self.area_of(vpn) == a,
    {
        let b = self.area_of(vpn);
        if a < b {
            assert(areas_apart(&self.areas[a], &self.areas[b]));
        } else if b < a {
            assert(areas_apart(&self.areas[b], &self.areas[a]));
        }
    }

    /// The frame that the page table gives for a page of a framed area is
    /// the frame that the area holds for it, and no other place of any area
    /// of the space holds a frame of that number.
    pub proof fn lemma_translate_owner(&self, vpn: VirtPageNum)
        requires
            self.wf(),
            self.backed(vpn),
        ensures
            ({
                let a = self.area_of(vpn);
                let i = vpn.0 - self.areas[a].start_vpn.0;
                &&& self.page_table.walk(vpn) is Some
                &&& self.page_table.walk(vpn)->Some_0.spec_is_valid()
                &&& self.page_table.walk(vpn)->Some_0.spec_ppn() == self.areas[a].data_frames[i].ppn
                &&& !self.page_table.owns(self.areas[a].data_frames[i].ppn)
                &&& forall|b: int, j: int|
                    0 <= b < self.areas.len() && 0 <= j < self.areas[b].data_frames.len() && (b != a
                        || j != i) ==> (#[trigger] self.areas[b].data_frames[j]).ppn
                        != self.areas[a].data_frames[i].ppn
            }),
    {
        let a = self.area_of(vpn);
        let i = vpn.0 - self.areas[a].start_vpn.0;
        Self::lemma_area_page_mapped(&self.areas[a], &self.page_table, vpn);
        assert(area_apart_from_table(&self.areas[a], &self.page_table));
        assert forall|b: int, j: int|
            0 <= b < self.areas.len() && 0 <= j < self.areas[b].data_frames.len() && (b != a || j
                != i) implies (#[trigger] self.areas[b].data_frames[j]).ppn
            != self.areas[a].data_frames[i].ppn by {
            if b < a {
                assert(areas_apart(&self.areas[b], &self.areas[a]));
            } else if a < b {
                assert(areas_apart(&self.areas[a], &self.areas[b]));
            } else {
                assert(self.areas[a].frames_ok());
                if j < i {
                    assert(self.areas[a].data_frames[j].ppn != self.areas[a].data_frames[i].ppn);
                } else {
                    assert(self.areas[a].data_frames[i].ppn != self.areas[a].data_frames[j].ppn);
                }
            }
        }
    }

    /// Index of the area that `vpn` lies in, if it lies in one.
    pub fn find_area(&self, vpn: VirtPageNum) -> (r: Option<usize>)
        ensures
            r is Some <==> self.in_area(vpn),
            r matches Some(a) ==> a < self.areas.len() && self.areas[a as int].contains(vpn),
            self.wf() && r is Some ==> r->Some_0 == self.area_of(vpn),
    {
        let mut a: usize = 0;
        while a < self.areas.len()
            invariant
                a <= self.areas.len(),
                forall|b: int| 0 <= b < a ==> !(#[trigger] self.areas[b]).contains(vpn),
            decreases self.areas.len() - a,
        {
            if self.areas[a].start_vpn.0 <= vpn.0 && vpn.0 < self.areas[a].end_vpn.0 {
                proof {
                    assert(self.areas[a as int].contains(vpn));
                    if self.wf() {
                        self.lemma_area_unique(vpn, a as int);
                    }
                }
                return Some(a);
            }
            a += 1;
        }
        None
    }

    /// Maps the trampoline page, the highest page of the space, to the
    /// frame that starts at `strampoline`, readable, executable and global.
    pub fn map_trampoline(&mut self, strampoline: u64, allocator: &mut StackFrameAllocator)
        requires
            strampoline % 4096 == 0,
            old(self).wf(),
            old(self).owned_by(old(allocator)),
            old(allocator).wf(),
            !old(self).page_table.is_mapped(VirtPageNum(TRAMPOLINE_VPN)),
            old(allocator).free_count() >= old(self).page_table.missing_levels(
                VirtPageNum(TRAMPOLINE_VPN),
            ),
        ensures
            final(self).wf(),
            final(self).owned_by(final(allocator)),
            final(allocator).wf(),
            old(self).only_areas_mapped() ==> final(self).only_areas_mapped(),
            final(self).areas@ == old(self).areas@,
            final(self).page_table.root_ppn == old(self).page_table.root_ppn,
            final(self).page_table.walk(VirtPageNum(TRAMPOLINE_VPN)) == Some(
                PageTableEntry::spec_new(
                    PhysPageNum(((strampoline % 0x100_0000_0000_0000) / 4096) as u64),
                    PTEFlags { bits: 43 },
                ),
            ),
            outside_kept(
                &old(self).page_table,
                &final(self).page_table,
                TRAMPOLINE_VPN as int,
                TRAMPOLINE_VPN + 1,
            ),
            space_grew(old(self), final(self), old(allocator), final(allocator)),
            final(allocator).free_count() == old(allocator).free_count() - old(self).page_table.missing_levels(VirtPageNum(TRAMPOLINE_VPN)),
    {
        let va = VirtAddr::from(crate::config::TRAMPOLINE);
        let vpn = VirtPageNum::from(va);
        assert(vpn.0 == TRAMPOLINE_VPN);
        let pa = crate::mm::address::PhysAddr::from(strampoline);
        let ppn = PhysPageNum::from(pa);
        proof {
            crate::mm::page_table::lemma_flag_bits(0);
        }
        self.page_table.map(vpn, ppn, PTEFlags { bits: TRAMPOLINE_FLAGS }, allocator);
        proof {
            Self::lemma_table_only(
                old(self),
                self,
                old(allocator),
                allocator,
                TRAMPOLINE_VPN as int,
                TRAMPOLINE_VPN + 1,
            );
            if old(self).only_areas_mapped() {
                assert forall|v: VirtPageNum|
                    v.0 < 0x800_0000 && #[trigger] self.page_table.is_mapped(v) implies v.0
                    == TRAMPOLINE_VPN || exists|a: int|
                    0 <= a < self.areas.len() && (#[trigger] self.areas[a]).contains(v) by {
                    if v.0 != TRAMPOLINE_VPN {
                        lemma_outside_at(
                            &old(self).page_table,
                            &self.page_table,
                            TRAMPOLINE_VPN as int,
                            TRAMPOLINE_VPN + 1,
                            v,
                        );
                        assert(old(self).page_table.is_mapped(v));
                        let a = choose|a: int|
                            0 <= a < old(self).areas.len() && (#[trigger] old(self).areas[a]).contains(
                                v,
                            );
                        assert(self.areas[a] == old(self).areas[a]);
                        assert(self.areas[a].contains(v));
                    }
                }
            }
        }
    }

    /// What a change of the page table alone, on pages that were not
    /// mapped, does to a well-formed space.
    proof fn lemma_table_only(
        before: &MemorySet,
        after: &MemorySet,
        al0: &StackFrameAllocator,
        al1: &StackFrameAllocator,
        lo: int,
        hi: int,
    )
        requires
            before.wf(),
            before.owned_by(al0),
            after.areas@ == before.areas@,
            after.page_table.wf(),
            after.page_table.owned_by(al1),
            outside_kept(&before.page_table, &after.page_table, lo, hi),
            table_grew(&before.page_table, &after.page_table, al0),
            forall|v: VirtPageNum| lo <= v.0 < hi ==> !before.page_table.is_mapped(v),
            al1.end == al0.end,
            forall|p: u64| al0.is_allocated(p) ==> al1.is_allocated(p),
            forall|p: u64|
                al1.is_allocated(p) && !al0.is_allocated(p) ==> after.page_table.owns(PhysPageNum(p)),
        ensures
            after.wf(),
            after.owned_by(al1),
            space_grew(before, after, al0, al1),
    {
        reveal(MemorySet::has_frame);
        reveal(space_grew);
        assert forall|a: int| 0 <= a < after.areas.len() implies (#[trigger] after.areas[a]).wf()
            && after.areas[a].mapped_in(&after.page_table) && area_apart_from_table(
            &after.areas[a],
            &after.page_table,
        ) by {
            let ar = before.areas[a];
            assert(after.areas[a] == ar);
            assert(ar.wf() && ar.mapped_in(&before.page_table));
            assert forall|vpn: VirtPageNum| ar.contains(vpn) implies #[trigger] after.page_table.walk(
                vpn,
            ) == Some(ar.leaf(vpn)) by {
                Self::lemma_area_page_mapped(&ar, &before.page_table, vpn);
                lemma_outside_at(&before.page_table, &after.page_table, lo, hi, vpn);
            }
            assert forall|i: int| 0 <= i < ar.data_frames.len() implies !after.page_table.owns(
                (#[trigger] ar.data_frames[i]).ppn,
            ) by {
                assert(before.areas[a].owned_by(al0));
                assert(al0.is_allocated(ar.data_frames[i].ppn.0));
                assert(area_apart_from_table(&before.areas[a], &before.page_table));
                if after.page_table.owns(ar.data_frames[i].ppn) {
                    lemma_table_grew_new(
                        &before.page_table,
                        &after.page_table,
                        al0,
                        ar.data_frames[i].ppn,
                    );
                }
            }
        }
        assert forall|a: int, b: int| 0 <= a < b < after.areas.len() implies areas_apart(
            &(#[trigger] after.areas[a]),
            &(#[trigger] after.areas[b]),
        ) by {
            assert(areas_apart(&before.areas[a], &before.areas[b]));
        }
        assert forall|a: int| 0 <= a < after.areas.len() implies (#[trigger] after.areas[a]).owned_by(
            al1,
        ) by {
            let ar = before.areas[a];
            assert(before.areas[a].owned_by(al0));
            assert forall|i: int| 0 <= i < ar.data_frames.len() implies al1.is_allocated(
                (#[trigger] ar.data_frames[i]).ppn.0,
            ) by {
                assert(al0.is_allocated(ar.data_frames[i].ppn.0));
            }
        }
        assert forall|p: u64| before.has_frame(p) implies after.has_frame(p) by {
            if before.page_table.owns(PhysPageNum(p)) {
                lemma_table_grew_owns(&before.page_table, &after.page_table, al0, PhysPageNum(p));
            } else {
                let a = choose|a: int|
                    0 <= a < before.areas.len() && (#[trigger] before.areas[a]).has_frame(p);
                assert(after.areas[a].has_frame(p));
            }
        }
        assert forall|p: u64| after.has_frame(p) && !before.has_frame(p) implies !al0.is_allocated(
            p,
        ) by {
            if after.page_table.owns(PhysPageNum(p)) {
                lemma_table_grew_new(&before.page_table, &after.page_table, al0, PhysPageNum(p));
            } else {
                let a = choose|a: int|
                    0 <= a < after.areas.len() && (#[trigger] after.areas[a]).has_frame(p);
                assert(before.areas[a].has_frame(p));
            }
        }
    }

    /// Removes the first area that starts at `start_vpn`, if there is one:
    /// unmaps its pages and gives its frames back.
    pub fn remove_area_with_start_vpn(
        &mut self,
        start_vpn: VirtPageNum,
        allocator: &mut StackFrameAllocator,
    )
        requires
            old(self).wf(),
            old(self).owned_by(old(allocator)),
            old(allocator).wf(),
        ensures
            final(self).wf(),
            final(self).owned_by(final(allocator)),
            final(allocator).wf(),
            final(allocator).end == old(allocator).end,
            final(self).page_table.root_ppn == old(self).page_table.root_ppn,
            old(self).only_areas_mapped() ==> final(self).only_areas_mapped(),
            forall|p: PhysPageNum| #[trigger]
                final(self).page_table.owns(p) == old(self).page_table.owns(p),
            match old(self).first_with_start(start_vpn) {
                Some(idx) => {
                    &&& 0 <= idx < old(self).areas.len()
                    &&& old(self).areas[idx].start_vpn == start_vpn
                    &&& final(self).areas@ == old(self).areas@.remove(idx)
                    &&& forall|v: VirtPageNum|
                        old(self).areas[idx].contains(v) ==> #[trigger] final(self).page_table.walk(v)
                            == Some(zero_entry())
                    &&& forall|v: VirtPageNum|
                        v.0 < 0x800_0000 && !old(self).areas[idx].contains(v) ==> #[trigger] final(self).page_table.walk(v) == old(self).page_table.walk(v)
                    &&& final(allocator).free_count() == old(allocator).free_count() + old(self).areas[idx].data_frames.len()
                    &&& final(allocator).current == old(allocator).current
                    &&& final(allocator).recycled@ == old(allocator).recycled@ + numbers_of(
                        old(self).areas[idx].data_frames@,
                    )
                    &&& forall|p: u64| #[trigger]
                        final(allocator).is_allocated(p) == (old(allocator).is_allocated(p) && !old(self).areas[idx].has_frame(p))
                },
                None => {
                    &&& final(self).areas@ == old(self).areas@
                    &&& final(self).page_table == old(self).page_table
                    &&& final(allocator).current == old(allocator).current
                    &&& final(allocator).recycled@ == old(allocator).recycled@
                },
            },
    {
        let mut idx: usize = 0;
        while idx < self.areas.len()
            invariant
                idx <= self.areas.len(),
                forall|b: int| 0 <= b < idx ==> (#[trigger] self.areas[b]).start_vpn != start_vpn,
            ensures
                idx < self.areas.len() ==> self.areas[idx as int].start_vpn == start_vpn,
            decreases self.areas.len() - idx,
        {
            if self.areas[idx].start_vpn.0 == start_vpn.0 {
                break ;
            }
            idx += 1;
        }
        if idx < self.areas.len() {
            proof {
                reveal(MemorySet::first_with_start);
                assert(self.areas[idx as int].start_vpn == start_vpn);
                let c = old(self).first_with_start(start_vpn)->Some_0;
                assert(c == idx) by {
                    if c < idx {
                        assert(self.areas[c].start_vpn != start_vpn);
                    } else if idx < c {
                        assert(self.areas[idx as int].start_vpn != start_vpn);
                    }
                }
            }
            let mut area = self.areas.remove(idx);
            proof {
                assert(area == old(self).areas[idx as int]);
                assert(area.wf() && area.mapped_in(&self.page_table));
                assert(area.owned_by(allocator));
            }
            area.unmap(&mut self.page_table, allocator);
            proof {
                let gone = old(self).areas[idx as int];
                assert forall|a: int| 0 <= a < self.areas.len() implies (#[trigger] self.areas[a]).wf()
                    && self.areas[a].mapped_in(&self.page_table) && area_apart_from_table(
                    &self.areas[a],
                    &self.page_table,
                ) && self.areas[a].owned_by(allocator) by {
                    let o = if a < idx {
                        a
                    } else {
                        a + 1
                    };
                    let ar = old(self).areas[o];
                    assert(self.areas[a] == ar);
                    assert(ar.wf() && ar.mapped_in(&old(self).page_table) && area_apart_from_table(
                        &old(self).areas[o],
                        &old(self).page_table,
                    ) && old(self).areas[o].owned_by(old(allocator)));
                    if o < idx {
                        assert(areas_apart(&old(self).areas[o], &old(self).areas[idx as int]));
                    } else {
                        assert(areas_apart(&old(self).areas[idx as int], &old(self).areas[o]));
                    }
                    assert forall|vpn: VirtPageNum| ar.contains(vpn) implies #[trigger] self.page_table.walk(
                        vpn,
                    ) == Some(ar.leaf(vpn)) by {
                        Self::lemma_area_page_mapped(&ar, &old(self).page_table, vpn);
                        assert(!gone.contains(vpn));
                    }
                    assert forall|i: int| 0 <= i < ar.data_frames.len() implies !self.page_table.owns(
                        (#[trigger] ar.data_frames[i]).ppn,
                    ) && allocator.is_allocated(ar.data_frames[i].ppn.0) by {
                        if self.page_table.owns(ar.data_frames[i].ppn) {
                            let k = choose|k: int|
                                0 <= k < self.page_table.frames.len() && self.page_table.frames[k].ppn
                                    == ar.data_frames[i].ppn;
                            assert(old(self).page_table.frames[k].ppn == ar.data_frames[i].ppn);
                            assert(old(self).page_table.owns(ar.data_frames[i].ppn));
                        }
                        assert(old(allocator).is_allocated(ar.data_frames[i].ppn.0));
                        if gone.has_frame(ar.data_frames[i].ppn.0) {
                            let j = choose|j: int|
                                0 <= j < gone.data_frames.len() && (#[trigger] gone.data_frames[j]).ppn.0
                                    == ar.data_frames[i].ppn.0;
                            assert(gone.data_frames[j].ppn == ar.data_frames[i].ppn);
                        }
                    }
                }
                assert forall|a: int, b: int| 0 <= a < b < self.areas.len() implies areas_apart(
                    &(#[trigger] self.areas[a]),
                    &(#[trigger] self.areas[b]),
                ) by {
                    let oa = if a < idx {
                        a
                    } else {
                        a + 1
                    };
                    let ob = if b < idx {
                        b
                    } else {
                        b + 1
                    };
                    assert(areas_apart(&old(self).areas[oa], &old(self).areas[ob]));
                }
                assert forall|p: PhysPageNum| #[trigger]
                    self.page_table.owns(p) == old(self).page_table.owns(p) by {
                    if self.page_table.owns(p) {
                        let k = choose|k: int|
                            0 <= k < self.page_table.frames.len() && self.page_table.frames[k].ppn == p;
                        assert(old(self).page_table.frames[k].ppn == p);
                    }
                    if old(self).page_table.owns(p) {
                        let k = choose|k: int|
                            0 <= k < old(self).page_table.frames.len() && old(self).page_table.frames[k].ppn == p;
                        assert(self.page_table.frames[k].ppn == p);
                    }
                }
                if old(self).only_areas_mapped() {
                    lemma_zero_not_valid();
                    assert forall|v: VirtPageNum|
                        v.0 < 0x800_0000 && #[trigger] self.page_table.is_mapped(v) implies v.0
                        == TRAMPOLINE_VPN || exists|a: int|
                        0 <= a < self.areas.len() && (#[trigger] self.areas[a]).contains(v) by {
                        if gone.contains(v) {
                            assert(self.page_table.walk(v) == Some(zero_entry()));
                        } else {
                            assert(self.page_table.walk(v) == old(self).page_table.walk(v));
                            assert(old(self).page_table.is_mapped(v));
                            if v.0 != TRAMPOLINE_VPN {
                                let o = choose|o: int|
                                    0 <= o < old(self).areas.len() && (#[trigger] old(self).areas[o]).contains(
                                        v,
                                    );
                                let a = if o < idx {
                                    o
                                } else {
                                    o - 1
                                };
                                assert(self.areas[a] == old(self).areas[o]);
                                assert(self.areas[a].contains(v));
                            }
                        }
                    }
                }
                assert forall|k: int| 0 <= k < self.page_table.frames.len() implies allocator.is_allocated(
                    (#[trigger] self.page_table.frames[k]).ppn.0,
                ) by {
                    assert(old(allocator).is_allocated(old(self).page_table.frames[k].ppn.0));
                    assert(area_apart_from_table(&old(self).areas[idx as int], &old(self).page_table));
                    if gone.has_frame(self.page_table.frames[k].ppn.0) {
                        let j = choose|j: int|
                            0 <= j < gone.data_frames.len() && (#[trigger] gone.data_frames[j]).ppn.0
                                == self.page_table.frames[k].ppn.0;
                        assert(old(self).page_table.frames[k].ppn == gone.data_frames[j].ppn);
                        assert(old(self).page_table.owns(gone.data_frames[j].ppn));
                    }
                }
            }
        } else {
            proof {
                reveal(MemorySet::first_with_start);
                assert(old(self).first_with_start(start_vpn) is None);
            }
        }
    }

    /// Gives the frames of every area back and forgets the areas. The
    /// page table stays as it is, stale entries included.
    pub fn recycle_data_pages(&mut self, allocator: &mut StackFrameAllocator)
        requires
            old(self).wf(),
            old(self).owned_by(old(allocator)),
            old(allocator).wf(),
        ensures
            final(self).wf(),
            final(self).owned_by(final(allocator)),
            final(allocator).wf(),
            final(allocator).end == old(allocator).end,
            final(allocator).current == old(allocator).current,
            final(self).areas.len() == 0,
            final(self).page_table == old(self).page_table,
            final(allocator).free_count() >= old(allocator).free_count(),
            final(allocator).recycled@ == old(allocator).recycled@ + area_numbers(
                old(self).areas@,
                old(self).areas.len() as int,
            ),
            forall|p: u64|
                final(allocator).is_allocated(p) == (old(allocator).is_allocated(p) && !(exists|a: int|
                    0 <= a < old(self).areas.len() && (#[trigger] old(self).areas[a]).has_frame(p))),
    {
        let ghost n = self.areas.len() as int;
        let ghost mut k: int = 0;
        proof {
            assert(self.areas@ =~= old(self).areas@.subrange(0, n));
            assert(allocator.recycled@ =~= old(allocator).recycled@ + area_numbers(
                old(self).areas@,
                0,
            ));
        }
        while self.areas.len() > 0
            invariant
                allocator.recycled@ == old(allocator).recycled@ + area_numbers(old(self).areas@, k),
                old(self).wf(),
                old(self).owned_by(old(allocator)),
                n == old(self).areas.len(),
                0 <= k <= n,
                self.areas@ == old(self).areas@.subrange(k, n),
                self.page_table == old(self).page_table,
                allocator.wf(),
                allocator.end == old(allocator).end,
                allocator.current == old(allocator).current,
                allocator.free_count() >= old(allocator).free_count(),
                forall|p: u64|
                    allocator.is_allocated(p) == (old(allocator).is_allocated(p) && !(exists|a: int|
                        0 <= a < k && (#[trigger] old(self).areas[a]).has_frame(p))),
            decreases self.areas.len(),
        {
            let mut area = self.areas.remove(0);
            let ghost al0 = *allocator;
            proof {
                assert(area == old(self).areas[k]);
                assert(self.areas@ =~= old(self).areas@.subrange(k + 1, n));
                assert(old(self).areas[k].wf());
                assert(old(self).areas[k].owned_by(old(allocator)));
                assert forall|i: int| 0 <= i < area.data_frames.len() implies allocator.is_allocated(
                    (#[trigger] area.data_frames[i]).ppn.0,
                ) by {
                    assert(old(allocator).is_allocated(area.data_frames[i].ppn.0));
                    if exists|a: int|
                        0 <= a < k && (#[trigger] old(self).areas[a]).has_frame(
                            area.data_frames[i].ppn.0,
                        ) {
                        let a = choose|a: int|
                            0 <= a < k && (#[trigger] old(self).areas[a]).has_frame(
                                area.data_frames[i].ppn.0,
                            );
                        let j = choose|j: int|
                            0 <= j < old(self).areas[a].data_frames.len() && (#[trigger] old(self).areas[a].data_frames[j]).ppn.0 == area.data_frames[i].ppn.0;
                        assert(areas_apart(&old(self).areas[a], &old(self).areas[k]));
                        assert(old(self).areas[a].data_frames[j].ppn != old(self).areas[k].data_frames[i].ppn);
                    }
                }
            }
            area.release_frames(allocator);
            proof {
                assert(allocator.recycled@ =~= old(allocator).recycled@ + area_numbers(
                    old(self).areas@,
                    k + 1,
                ));
                assert forall|p: u64|
                    allocator.is_allocated(p) == (old(allocator).is_allocated(p) && !(exists|a: int|
                        0 <= a < k + 1 && (#[trigger] old(self).areas[a]).has_frame(p))) by {
                    if exists|a: int| 0 <= a < k && (#[trigger] old(self).areas[a]).has_frame(p) {
                        let a = choose|a: int|
                            0 <= a < k && (#[trigger] old(self).areas[a]).has_frame(p);
                        assert(0 <= a < k + 1 && old(self).areas[a].has_frame(p));
                    }
                    if old(self).areas[k].has_frame(p) {
                        assert(0 <= k < k + 1 && old(self).areas[k].has_frame(p));
                    }
                    if exists|a: int| 0 <= a < k + 1 && (#[trigger] old(self).areas[a]).has_frame(p) {
                        let a = choose|a: int|
                            0 <= a < k + 1 && (#[trigger] old(self).areas[a]).has_frame(p);
                        if a < k {
                            assert(0 <= a < k && old(self).areas[a].has_frame(p));
                        }
                    }
                }
                k = k + 1;
            }
        }
        proof {
            assert forall|kk: int| 0 <= kk < self.page_table.frames.len() implies allocator.is_allocated(
                (#[trigger] self.page_table.frames[kk]).ppn.0,
            ) by {
                let p = self.page_table.frames[kk].ppn.0;
                assert(old(allocator).is_allocated(old(self).page_table.frames[kk].ppn.0));
                if exists|a: int| 0 <= a < n && (#[trigger] old(self).areas[a]).has_frame(p) {
                    let a = choose|a: int|
                        0 <= a < n && (#[trigger] old(self).areas[a]).has_frame(p);
                    let j = choose|j: int|
                        0 <= j < old(self).areas[a].data_frames.len() && (#[trigger] old(self).areas[a].data_frames[j]).ppn.0 == p;
                    assert(area_apart_from_table(&old(self).areas[a], &old(self).page_table));
                    assert(old(self).areas[a].data_frames[j].ppn == old(self).page_table.frames[kk].ppn);
                    assert(old(self).page_table.owns(old(self).areas[a].data_frames[j].ppn));
                }
            }
        }
    }
}

/// The flags of the trampoline page: readable, executable and global.
pub const TRAMPOLINE_FLAGS: u8 = 42;

impl MemorySet {
    /// Gives every frame of the space back: those of the page table, the
    /// root first, then those of the areas in their order.
    pub fn destroy(self, allocator: &mut StackFrameAllocator)
        requires
            self.wf(),
            self.owned_by(old(allocator)),
            old(allocator).wf(),
        ensures
            final(allocator).wf(),
            final(allocator).end == old(allocator).end,
            final(allocator).current == old(allocator).current,
            final(allocator).free_count() >= old(allocator).free_count(),
            final(allocator).recycled@ == old(allocator).recycled@ + numbers_of(
                self.page_table.frames@,
            ) + area_numbers(self.areas@, self.areas.len() as int),
            forall|p: u64| #[trigger]
                final(allocator).is_allocated(p) == (old(allocator).is_allocated(p) && !self.has_frame(p)),
    {
        let mut space = self;
        proof {
            reveal(MemorySet::has_frame);
        }
        space.page_table.release_frames(allocator);
        let ghost al1 = *allocator;
        let ghost n = space.areas.len() as int;
        let ghost mut k: int = 0;
        proof {
            assert(space.areas@ =~= self.areas@.subrange(0, n));
            assert(allocator.recycled@ =~= old(allocator).recycled@ + numbers_of(
                self.page_table.frames@,
            ) + area_numbers(self.areas@, 0));
        }
        while space.areas.len() > 0
            invariant
                allocator.recycled@ == old(allocator).recycled@ + numbers_of(
                    self.page_table.frames@,
                ) + area_numbers(self.areas@, k),
                self.wf(),
                self.owned_by(old(allocator)),
                n == self.areas.len(),
                0 <= k <= n,
                space.areas@ == self.areas@.subrange(k, n),
                allocator.wf(),
                allocator.end == old(allocator).end,
                allocator.current == old(allocator).current,
                allocator.free_count() >= old(allocator).free_count(),
                forall|p: u64|
                    allocator.is_allocated(p) == (old(allocator).is_allocated(p)
                        && !self.page_table.owns(PhysPageNum(p)) && !(exists|a: int|
                        0 <= a < k && (#[trigger] self.areas[a]).has_frame(p))),
            decreases space.areas.len(),
        {
            let mut area = space.areas.remove(0);
            proof {
                assert(area == self.areas[k]);
                assert(space.areas@ =~= self.areas@.subrange(k + 1, n));
                assert(self.areas[k].wf());
                assert(self.areas[k].owned_by(old(allocator)));
                assert(area_apart_from_table(&self.areas[k], &self.page_table));
                assert forall|i: int| 0 <= i < area.data_frames.len() implies allocator.is_allocated(
                    (#[trigger] area.data_frames[i]).ppn.0,
                ) by {
                    assert(old(allocator).is_allocated(area.data_frames[i].ppn.0));
                    assert(!self.page_table.owns(self.areas[k].data_frames[i].ppn));
                    if exists|a: int|
                        0 <= a < k && (#[trigger] self.areas[a]).has_frame(area.data_frames[i].ppn.0) {
                        let a = choose|a: int|
                            0 <= a < k && (#[trigger] self.areas[a]).has_frame(
                                area.data_frames[i].ppn.0,
                            );
                        let j = choose|j: int|
                            0 <= j < self.areas[a].data_frames.len() && (
                            #[trigger] self.areas[a].data_frames[j]).ppn.0
                                == area.data_frames[i].ppn.0;
                        assert(areas_apart(&self.areas[a], &self.areas[k]));
                        assert(self.areas[a].data_frames[j].ppn != self.areas[k].data_frames[i].ppn);
                    }
                }
            }
            area.release_frames(allocator);
            proof {
                assert(allocator.recycled@ =~= old(allocator).recycled@ + numbers_of(
                    self.page_table.frames@,
                ) + area_numbers(self.areas@, k + 1));
                assert forall|p: u64|
                    allocator.is_allocated(p) == (old(allocator).is_allocated(p)
                        && !self.page_table.owns(PhysPageNum(p)) && !(exists|a: int|
                        0 <= a < k + 1 && (#[trigger] self.areas[a]).has_frame(p))) by {
                    if exists|a: int| 0 <= a < k && (#[trigger] self.areas[a]).has_frame(p) {
                        let a = choose|a: int| 0 <= a < k && (#[trigger] self.areas[a]).has_frame(p);
                        assert(0 <= a < k + 1 && self.areas[a].has_frame(p));
                    }
                    if self.areas[k].has_frame(p) {
                        assert(0 <= k < k + 1 && self.areas[k].has_frame(p));
                    }
                    if exists|a: int| 0 <= a < k + 1 && (#[trigger] self.areas[a]).has_frame(p) {
                        let a = choose|a: int|
                            0 <= a < k + 1 && (#[trigger] self.areas[a]).has_frame(p);
                        if a < k {
                            assert(0 <= a < k && self.areas[a].has_frame(p));
                        }
                    }
                }
                k = k + 1;
            }
        }
    }
}

/// Frames that a space holds stay handed out while the allocator only
/// hands out.
pub proof fn lemma_owned_mono(space: &MemorySet, al0: &StackFrameAllocator, al1: &StackFrameAllocator)
    requires
        space.owned_by(al0),
        forall|p: u64| al0.is_allocated(p) ==> al1.is_allocated(p),
    ensures
        space.owned_by(al1),
{
    assert forall|k: int| 0 <= k < space.page_table.frames.len() implies al1.is_allocated(
        (#[trigger] space.page_table.frames[k]).ppn.0,
    ) by {
        assert(al0.is_allocated(space.page_table.frames[k].ppn.0));
    }
    assert forall|a: int| 0 <= a < space.areas.len() implies (#[trigger] space.areas[a]).owned_by(
        al1,
    ) by {
        assert(space.areas[a].owned_by(al0));
        assert forall|i: int| 0 <= i < space.areas[a].data_frames.len() implies al1.is_allocated(
            (#[trigger] space.areas[a].data_frames[i]).ppn.0,
        ) by {
            assert(al0.is_allocated(space.areas[a].data_frames[i].ppn.0));
        }
    }
}

/// What `space_grew` and `space_fresh` say of the allocator.
pub proof fn lemma_grew_allocator(
    a: &MemorySet,
    b: &MemorySet,
    al0: &StackFrameAllocator,
    al1: &StackFrameAllocator,
)
    requires
        space_grew(a, b, al0, al1) || space_fresh(b, al0, al1),
    ensures
        al1.end == al0.end,
        forall|p: u64| al0.is_allocated(p) ==> al1.is_allocated(p),
        forall|p: u64| al1.is_allocated(p) && !al0.is_allocated(p) ==> b.has_frame(p),
{
    reveal(space_grew);
    reveal(space_fresh);
}

} // verus!
