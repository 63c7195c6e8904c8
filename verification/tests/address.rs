use sv39_kernel::mm::address::{PhysAddr, PhysPageNum, VirtAddr, VirtPageNum};

#[test]
fn phys_addr_keeps_low_56_bits() {
    let pa = PhysAddr::from(0xffff_ffff_ffff_ffffu64);
    assert_eq!(u64::from(pa), 0x00ff_ffff_ffff_ffff);
    let pa = PhysAddr::from(0x8020_0123u64);
    assert_eq!(u64::from(pa), 0x8020_0123);
}

#[test]
fn virt_addr_sign_extends() {
    let va = VirtAddr::from(0xffff_ffff_ffff_f000u64);
    assert_eq!(va.0, 0x7f_ffff_f000);
    assert_eq!(u64::from(va), 0xffff_ffff_ffff_f000);
    let low = VirtAddr::from(0x1_0000u64);
    assert_eq!(u64::from(low), 0x1_0000);
}

#[test]
fn floor_ceil_offset() {
    let pa = PhysAddr(0x8020_0123);
    assert_eq!(pa.page_offset(), 0x123);
    assert_eq!(pa.floor(), PhysPageNum(0x80200));
    assert_eq!(pa.ceil(), PhysPageNum(0x80201));
    assert!(!pa.aligned());
    assert!(PhysAddr(0x8020_0000).aligned());
    assert_eq!(PhysAddr(0x8020_0000).ceil(), PhysPageNum(0x80200));
    let va = VirtAddr(0x1_0fff);
    assert_eq!(va.floor(), VirtPageNum(0x10));
    assert_eq!(va.ceil(), VirtPageNum(0x11));
    assert_eq!(va.page_offset(), 0xfff);
}

#[test]
fn vpn_indexes_are_nine_bits_each() {
    let vpn = VirtPageNum((3 << 18) | (5 << 9) | 7);
    assert_eq!(vpn.indexes(), [3, 5, 7]);
    assert_eq!(VirtPageNum(0x7ff_ffff).indexes(), [511, 511, 511]);
}
