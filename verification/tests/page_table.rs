use sv39_kernel::mm::address::{PhysAddr, PhysPageNum, VirtAddr, VirtPageNum};
use sv39_kernel::mm::frame_allocator::StackFrameAllocator;
use sv39_kernel::mm::page_table::{
    PTEFlags, PageTable, PageTableEntry, PTE_A, PTE_D, PTE_R, PTE_U, PTE_V, PTE_W, PTE_X,
};

fn allocator() -> StackFrameAllocator {
    let mut a = StackFrameAllocator::new();
    a.init(PhysPageNum(0x80400), PhysPageNum(0x80800));
    a
}

#[test]
fn entry_keeps_page_number_and_flags() {
    let flags = PTEFlags { bits: PTE_R | PTE_W | PTE_V };
    let e = PageTableEntry::new(PhysPageNum(0x80123), flags);
    assert_eq!(e.bits, (0x80123u64 << 10) | 7);
    assert_eq!(e.ppn(), PhysPageNum(0x80123));
    assert_eq!(e.flags(), flags);
    assert!(e.is_valid());
    assert!(e.readable());
    assert!(e.writable());
    assert!(!e.executable());
    let top = PageTableEntry::new(PhysPageNum(0xfff_ffff_ffff), PTEFlags { bits: PTE_X });
    assert_eq!(top.ppn(), PhysPageNum(0xfff_ffff_ffff));
    assert!(!top.is_valid());
    assert!(top.executable());
}

#[test]
fn empty_entry_is_not_valid() {
    let e = PageTableEntry::empty();
    assert_eq!(e.bits, 0);
    assert!(!e.is_valid());
    assert_eq!(e.ppn(), PhysPageNum(0));
}

#[test]
fn flags_operations() {
    let rw = PTEFlags::from_bits(PTE_R | PTE_W).unwrap();
    assert!(rw.contains(PTEFlags { bits: PTE_R }));
    assert!(!rw.contains(PTEFlags { bits: PTE_X }));
    assert_eq!(rw.union(PTEFlags { bits: PTE_U }).bits(), PTE_R | PTE_W | PTE_U);
    assert_eq!(rw.intersection(PTEFlags { bits: PTE_W | PTE_A }).bits(), PTE_W);
    assert!(PTEFlags::empty().is_empty());
    assert!(PTEFlags::from_bits(0xff).unwrap().contains(PTEFlags { bits: PTE_D }));
}

#[test]
fn map_then_translate() {
    let mut a = allocator();
    let mut pt = PageTable::new(&mut a);
    assert_eq!(pt.translate(VirtPageNum(0x1000)), None);
    pt.map(
        VirtPageNum(0x1000),
        PhysPageNum(0x5),
        PTEFlags { bits: PTE_R | PTE_W | PTE_U },
        &mut a,
    );
    let pte = pt.translate(VirtPageNum(0x1000)).unwrap();
    assert!(pte.is_valid());
    assert_eq!(pte.ppn(), PhysPageNum(5));
    assert_eq!(pte.flags().bits(), PTE_V | PTE_R | PTE_W | PTE_U);
    // the root and two more tables
    assert_eq!(pt.frames.len(), 3);
    // a neighbour in the same leaf table is reached but not valid
    let near = pt.translate(VirtPageNum(0x1001)).unwrap();
    assert!(!near.is_valid());
    assert_eq!(near.bits, 0);
    // the root has one entry, for the table in the second frame
    let root = pt.get_pte_array(0);
    assert_eq!(root.len(), 512);
    assert_eq!(root[0].ppn(), pt.frames[1].ppn);
    assert_eq!(root[0].flags().bits(), PTE_V);
    assert!(root[1..].iter().all(|e| e.bits == 0));
    let leaf = pt.get_pte_array(2);
    // page 0x1000 is entry 0 of leaf table 8 under the first middle table
    assert_eq!(pt.get_pte_array(1)[8].ppn(), pt.frames[2].ppn);
    assert_eq!(leaf[0].ppn(), PhysPageNum(5));
    assert!(leaf[1..].iter().all(|e| e.bits == 0));
    // a page under another root entry is not reached
    assert_eq!(pt.translate(VirtPageNum(0x40_0000)), None);
}

#[test]
fn unmap_clears_the_entry_and_keeps_others() {
    let mut a = allocator();
    let mut pt = PageTable::new(&mut a);
    pt.map(VirtPageNum(0x10), PhysPageNum(0x100), PTEFlags { bits: PTE_R }, &mut a);
    pt.map(VirtPageNum(0x11), PhysPageNum(0x101), PTEFlags { bits: PTE_R | PTE_X }, &mut a);
    pt.map(VirtPageNum(0x7ff_ffff), PhysPageNum(0x102), PTEFlags { bits: PTE_R }, &mut a);
    assert_eq!(pt.frames.len(), 5);
    pt.unmap(VirtPageNum(0x10));
    assert_eq!(pt.translate(VirtPageNum(0x10)), Some(PageTableEntry { bits: 0 }));
    assert_eq!(pt.translate(VirtPageNum(0x11)).unwrap().ppn(), PhysPageNum(0x101));
    assert_eq!(pt.translate(VirtPageNum(0x7ff_ffff)).unwrap().ppn(), PhysPageNum(0x102));
    // the page can be mapped again
    pt.map(VirtPageNum(0x10), PhysPageNum(0x200), PTEFlags { bits: PTE_W | PTE_R }, &mut a);
    assert_eq!(pt.translate(VirtPageNum(0x10)).unwrap().ppn(), PhysPageNum(0x200));
    assert_eq!(pt.frames.len(), 5);
}

#[test]
fn translate_va_adds_the_offset() {
    let mut a = allocator();
    let mut pt = PageTable::new(&mut a);
    pt.map(VirtPageNum(0x10), PhysPageNum(0x80555), PTEFlags { bits: PTE_R }, &mut a);
    assert_eq!(pt.translate_va(VirtAddr(0x10abc)), Some(PhysAddr(0x8055_5abc)));
    assert_eq!(pt.translate_va(VirtAddr(0x4000_0000)), None);
}

#[test]
fn token_has_the_sv39_mode() {
    let mut a = allocator();
    let pt = PageTable::new(&mut a);
    assert_eq!(pt.root_ppn, PhysPageNum(0x80400));
    assert_eq!(pt.token(), (8u64 << 60) | 0x80400);
    let view = PageTable::from_token(pt.token());
    assert_eq!(view.root_ppn, PhysPageNum(0x80400));
    assert_eq!(view.frames.len(), 0);
    assert_eq!(view.translate(VirtPageNum(0)), None);
}

#[test]
fn release_gives_the_frames_back() {
    let mut a = allocator();
    let mut pt = PageTable::new(&mut a);
    pt.map(VirtPageNum(0x10), PhysPageNum(0x100), PTEFlags { bits: PTE_R }, &mut a);
    assert!(a.allocated(PhysPageNum(0x80400)));
    assert!(a.allocated(PhysPageNum(0x80402)));
    pt.release_frames(&mut a);
    assert!(!a.allocated(PhysPageNum(0x80400)));
    assert!(!a.allocated(PhysPageNum(0x80401)));
    assert!(!a.allocated(PhysPageNum(0x80402)));
    assert_eq!(a.recycled, vec![0x80400, 0x80401, 0x80402]);
}
