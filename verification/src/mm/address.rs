//! Physical and virtual addresses and page numbers of the Sv39 scheme.
use crate::config::PAGE_SIZE_BITS;
use vstd::prelude::*;
use vstd::std_specs::convert::FromSpec;
use vstd::std_specs::convert::FromSpecImpl;

verus! {

/// Width of a physical address, in bits.
pub const PA_WIDTH_SV39: u64 = 56;

/// Width of a virtual address, in bits.
pub const VA_WIDTH_SV39: u64 = 39;

/// Width of a physical page number, in bits.
pub const PPN_WIDTH_SV39: u64 = PA_WIDTH_SV39 - PAGE_SIZE_BITS;

/// Width of a virtual page number, in bits.
pub const VPN_WIDTH_SV39: u64 = VA_WIDTH_SV39 - PAGE_SIZE_BITS;

/// A physical address.
#[derive(Copy, Clone, Debug, PartialEq, Eq, PartialOrd, Ord, Structural)]
pub struct PhysAddr(pub u64);

/// A virtual address.
#[derive(Copy, Clone, Debug, PartialEq, Eq, PartialOrd, Ord, Structural)]
pub struct VirtAddr(pub u64);

/// A physical page number.
#[derive(Copy, Clone, Debug, PartialEq, Eq, PartialOrd, Ord, Structural)]
pub struct PhysPageNum(pub u64);

/// A virtual page number.
#[derive(Copy, Clone, Debug, PartialEq, Eq, PartialOrd, Ord, Structural)]
pub struct VirtPageNum(pub u64);

/// A 39-bit value read as a signed number and widened to 64 bits.
pub open spec fn sign_extend_39(v: u64) -> u64 {
    if v >= 0x40_0000_0000 {
        v | 0xffff_ff80_0000_0000
    } else {
        v
    }
}

/// The three 9-bit table indices of a virtual page number, highest level
/// first.
pub open spec fn vpn_indexes(vpn: u64) -> Seq<usize> {
    seq![
        ((vpn as int / 0x4_0000) % 512) as usize,
        ((vpn as int / 512) % 512) as usize,
        (vpn as int % 512) as usize,
    ]
}

impl From<u64> for PhysAddr {
    fn from(v: u64) -> (r: Self) {
        proof {
            lemma_masks(v);
        }
        Self(v & ((1 << PA_WIDTH_SV39) - 1))
    }
}

impl FromSpecImpl<u64> for PhysAddr {
    open spec fn obeys_from_spec() -> bool {
        true
    }

    open spec fn from_spec(v: u64) -> Self {
        PhysAddr((v as int % 0x100_0000_0000_0000) as u64)
    }
}

impl From<u64> for PhysPageNum {
    fn from(v: u64) -> (r: Self) {
        proof {
            lemma_masks(v);
        }
        Self(v & ((1 << PPN_WIDTH_SV39) - 1))
    }
}

impl FromSpecImpl<u64> for PhysPageNum {
    open spec fn obeys_from_spec() -> bool {
        true
    }

    open spec fn from_spec(v: u64) -> Self {
        PhysPageNum((v as int % 0x1000_0000_0000) as u64)
    }
}

impl From<PhysAddr> for u64 {
    fn from(v: PhysAddr) -> (r: Self) {
        v.0
    }
}

impl FromSpecImpl<PhysAddr> for u64 {
    open spec fn obeys_from_spec() -> bool {
        true
    }

    open spec fn from_spec(v: PhysAddr) -> Self {
        v.0
    }
}

impl From<PhysPageNum> for u64 {
    fn from(v: PhysPageNum) -> (r: Self) {
        v.0
    }
}

impl FromSpecImpl<PhysPageNum> for u64 {
    open spec fn obeys_from_spec() -> bool {
        true
    }

    open spec fn from_spec(v: PhysPageNum) -> Self {
        v.0
    }
}

impl From<u64> for VirtAddr {
    fn from(v: u64) -> (r: Self) {
        proof {
            lemma_masks(v);
        }
        Self(v & ((1 << VA_WIDTH_SV39) - 1))
    }
}

impl FromSpecImpl<u64> for VirtAddr {
    open spec fn obeys_from_spec() -> bool {
        true
    }

    open spec fn from_spec(v: u64) -> Self {
        VirtAddr((v as int % 0x80_0000_0000) as u64)
    }
}

impl From<u64> for VirtPageNum {
    fn from(v: u64) -> (r: Self) {
        proof {
            lemma_masks(v);
        }
        Self(v & ((1 << VPN_WIDTH_SV39) - 1))
    }
}

impl FromSpecImpl<u64> for VirtPageNum {
    open spec fn obeys_from_spec() -> bool {
        true
    }

    open spec fn from_spec(v: u64) -> Self {
        VirtPageNum((v as int % 0x800_0000) as u64)
    }
}

impl From<VirtAddr> for u64 {
    fn from(v: VirtAddr) -> (r: Self) {
        proof {
            lemma_masks(v.0);
        }
        if v.0 >= (1 << (VA_WIDTH_SV39 - 1)) {
            v.0 | (!((1 << VA_WIDTH_SV39) - 1))
        } else {
            v.0
        }
    }
}

impl FromSpecImpl<VirtAddr> for u64 {
    open spec fn obeys_from_spec() -> bool {
        true
    }

    open spec fn from_spec(v: VirtAddr) -> Self {
        sign_extend_39(v.0)
    }
}

impl From<VirtPageNum> for u64 {
    fn from(v: VirtPageNum) -> (r: Self) {
        v.0
    }
}

impl FromSpecImpl<VirtPageNum> for u64 {
    open spec fn obeys_from_spec() -> bool {
        true
    }

    open spec fn from_spec(v: VirtPageNum) -> Self {
        v.0
    }
}

impl From<PhysAddr> for PhysPageNum {
    /// The number of the page that holds `v`. The conversion is meant
    /// for the start of a page; for another address it gives the same as
    /// `floor`, and `aligned` tells the two apart.
    fn from(v: PhysAddr) -> (r: Self) {
        v.floor()
    }
}

impl FromSpecImpl<PhysAddr> for PhysPageNum {
    open spec fn obeys_from_spec() -> bool {
        true
    }

    open spec fn from_spec(v: PhysAddr) -> Self {
        v.spec_floor()
    }
}

impl From<PhysPageNum> for PhysAddr {
    fn from(v: PhysPageNum) -> (r: Self) {
        proof {
            lemma_shift_page(v.0);
        }
        Self(v.0 << PAGE_SIZE_BITS)
    }
}

impl FromSpecImpl<PhysPageNum> for PhysAddr {
    open spec fn obeys_from_spec() -> bool {
        true
    }

    open spec fn from_spec(v: PhysPageNum) -> Self {
        PhysAddr(((v.0 as int * 4096) % 0x1_0000_0000_0000_0000) as u64)
    }
}

impl From<VirtAddr> for VirtPageNum {
    /// The number of the page that holds `v`. The conversion is meant
    /// for the start of a page; for another address it gives the same as
    /// `floor`, and `aligned` tells the two apart.
    fn from(v: VirtAddr) -> (r: Self) {
        v.floor()
    }
}

impl FromSpecImpl<VirtAddr> for VirtPageNum {
    open spec fn obeys_from_spec() -> bool {
        true
    }

    open spec fn from_spec(v: VirtAddr) -> Self {
        v.spec_floor()
    }
}

impl From<VirtPageNum> for VirtAddr {
    fn from(v: VirtPageNum) -> (r: Self) {
        proof {
            lemma_shift_page(v.0);
        }
        Self(v.0 << PAGE_SIZE_BITS)
    }
}

impl FromSpecImpl<VirtPageNum> for VirtAddr {
    open spec fn obeys_from_spec() -> bool {
        true
    }

    open spec fn from_spec(v: VirtPageNum) -> Self {
        VirtAddr(((v.0 as int * 4096) % 0x1_0000_0000_0000_0000) as u64)
    }
}

impl PhysAddr {
    pub open spec fn spec_floor(self) -> PhysPageNum {
        PhysPageNum(self.0 / 4096)
    }

    pub open spec fn spec_ceil(self) -> PhysPageNum {
        PhysPageNum(((self.0 + 4095) / 4096) as u64)
    }

    /// Offset of the address within its page.
    pub fn page_offset(&self) -> (r: u64)
        ensures
            r == self.0 % 4096,
    {
        proof {
            lemma_masks(self.0);
        }
        self.0 & (4096 - 1)
    }

    /// Number of the page that holds the address.
    pub fn floor(&self) -> (r: PhysPageNum)
        ensures
            r == self.spec_floor(),
    {
        PhysPageNum(self.0 / 4096)
    }

    /// Number of the first page that starts at or after the address.
    pub fn ceil(&self) -> (r: PhysPageNum)
        requires
            self.0 + 4096 <= u64::MAX,
        ensures
            r == self.spec_ceil(),
    {
        PhysPageNum((self.0 + 4096 - 1) / 4096)
    }

    /// Whether the address is the start of a page.
    pub fn aligned(&self) -> (r: bool)
        ensures
            r <==> self.0 % 4096 == 0,
    {
        self.page_offset() == 0
    }
}

impl VirtAddr {
    pub open spec fn spec_floor(self) -> VirtPageNum {
        VirtPageNum(self.0 / 4096)
    }

    pub open spec fn spec_ceil(self) -> VirtPageNum {
        VirtPageNum(((self.0 + 4095) / 4096) as u64)
    }

    /// Offset of the address within its page.
    pub fn page_offset(&self) -> (r: u64)
        ensures
            r == self.0 % 4096,
    {
        proof {
            lemma_masks(self.0);
        }
        self.0 & (4096 - 1)
    }

    /// Number of the page that holds the address.
    pub fn floor(&self) -> (r: VirtPageNum)
        ensures
            r == self.spec_floor(),
    {
        VirtPageNum(self.0 / 4096)
    }

    /// Number of the first page that starts at or after the address.
    pub fn ceil(&self) -> (r: VirtPageNum)
        requires
            self.0 + 4096 <= u64::MAX,
        ensures
            r == self.spec_ceil(),
    {
        VirtPageNum((self.0 + 4096 - 1) / 4096)
    }

    /// Whether the address is the start of a page.
    pub fn aligned(&self) -> (r: bool)
        ensures
            r <==> self.0 % 4096 == 0,
    {
        self.page_offset() == 0
    }
}

impl VirtPageNum {
    /// The three 9-bit indices that select the entry of this page in the
    /// root table, the middle table and the leaf table, in that order.
    pub fn indexes(&self) -> (idx: [usize; 3])
        ensures
            idx@ =~= vpn_indexes(self.0),
            idx[0] < 512 && idx[1] < 512 && idx[2] < 512,
    {
        let mut vpn: u64 = self.0;
        let mut idx = [0usize;3];
        proof {
            lemma_indexes(self.0);
        }
        idx[2] = (vpn & 511) as usize;
        vpn = vpn >> 9;
        idx[1] = (vpn & 511) as usize;
        vpn = vpn >> 9;
        idx[0] = (vpn & 511) as usize;
        assert(idx@ =~= vpn_indexes(self.0));
        idx
    }

    /// Advances to the next page number.
    pub fn step(&mut self)
        requires
            old(self).0 < u64::MAX,
        ensures
            final(self).0 == old(self).0 + 1,
    {
        self.0 += 1;
    }
}

/// What masking with the Sv39 widths and the page size computes.
pub proof fn lemma_masks(v: u64)
    ensures
        v & 0xff_ffff_ffff_ffff == v as int % 0x100_0000_0000_0000,
        v & 0xfff_ffff_ffff == v as int % 0x1000_0000_0000,
        v & 0x7f_ffff_ffff == v as int % 0x80_0000_0000,
        v & 0x7ff_ffff == v as int % 0x800_0000,
        v & 0xfff == v as int % 4096,
        (1u64 << 56) == 0x100_0000_0000_0000,
        (1u64 << 44) == 0x1000_0000_0000,
        (1u64 << 39) == 0x80_0000_0000,
        (1u64 << 38) == 0x40_0000_0000,
        (1u64 << 27) == 0x800_0000,
        !0x7f_ffff_ffffu64 == 0xffff_ff80_0000_0000,
{
    assert(v & 0xff_ffff_ffff_ffff == v % 0x100_0000_0000_0000 && v & 0xfff_ffff_ffff == v
        % 0x1000_0000_0000 && v & 0x7f_ffff_ffff == v % 0x80_0000_0000 && v & 0x7ff_ffff == v
        % 0x800_0000 && v & 0xfff == v % 4096 && (1u64 << 56) == 0x100_0000_0000_0000 && (1u64 << 44)
        == 0x1000_0000_0000 && (1u64 << 39) == 0x80_0000_0000 && (1u64 << 38) == 0x40_0000_0000 && (
    1u64 << 27) == 0x800_0000 && !0x7f_ffff_ffffu64 == 0xffff_ff80_0000_0000) by (bit_vector);
}

/// Shifting a page number left by the page bits multiplies it by the page
/// size, modulo 2^64.
pub proof fn lemma_shift_page(v: u64)
    ensures
        v << 12 == (v as int * 4096) % 0x1_0000_0000_0000_0000,
        v < 0x10_0000_0000_0000 ==> v << 12 == v * 4096,
{
    assert(v << 12 == (v as int * 4096) % 0x1_0000_0000_0000_0000 && (v < 0x10_0000_0000_0000 ==> v
        << 12 == v * 4096)) by (bit_vector);
}

/// What the shifts and masks of `VirtPageNum::indexes` compute.
pub proof fn lemma_indexes(v: u64)
    ensures
        v & 511 == v as int % 512,
        (v >> 9) & 511 == (v as int / 512) % 512,
        ((v >> 9) >> 9) & 511 == (v as int / 0x4_0000) % 512,
{
    assert(v & 511 == v % 512 && (v >> 9) & 511 == (v / 512) % 512 && ((v >> 9) >> 9) & 511 == (v
        / 0x4_0000) % 512) by (bit_vector);
}

/// Converting a 64-bit word to a physical address and back keeps its low
/// 56 bits and clears the rest.
pub proof fn lemma_phys_addr_round_trip(v: u64)
    ensures
        <u64 as FromSpec<PhysAddr>>::from_spec(<PhysAddr as FromSpec<u64>>::from_spec(v)) == v as int
            % 0x100_0000_0000_0000,
        v < 0x100_0000_0000_0000 ==> <u64 as FromSpec<PhysAddr>>::from_spec(
            <PhysAddr as FromSpec<u64>>::from_spec(v),
        ) == v,
{
}

} // verus!
