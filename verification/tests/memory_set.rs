use sv39_kernel::mm::address::{PhysAddr, PhysPageNum, VirtAddr, VirtPageNum};
use sv39_kernel::mm::access::{translated_ref, translated_refmut};
use sv39_kernel::mm::elf::{read_u16, read_u32, read_u64, ElfFile, PF_R, PF_W, PF_X, PT_LOAD};
use sv39_kernel::mm::frame_allocator::StackFrameAllocator;
use sv39_kernel::mm::memory_set::{
    MapArea, MapPermission, MapType, MemorySet, MAP_R, MAP_U, MAP_W, MAP_X,
};
use sv39_kernel::mm::page_table::{PTEFlags, PageTable, PTE_R, PTE_W};
use sv39_kernel::mm::spaces::KernelLayout;
use sv39_kernel::mm::user_buffer::{
    translated_byte_buffer, translated_str, translated_str_checked, user_str_len, PhysSlice,
    UserBuffer,
};

const STRAMPOLINE: u64 = 0x8020_1000;

fn allocator(frames: u64) -> StackFrameAllocator {
    let mut a = StackFrameAllocator::new();
    a.init(PhysPageNum(0x80400), PhysPageNum(0x80400 + frames));
    a
}

fn put(buf: &mut Vec<u8>, off: usize, bytes: &[u8]) {
    buf[off..off + bytes.len()].copy_from_slice(bytes);
}

/// An ELF file with the given entry point and segments, each as its kind,
/// flags, address, size in memory and bytes.
fn build_elf(entry: u64, segments: &[(u32, u32, u64, u64, Vec<u8>)]) -> Vec<u8> {
    let n = segments.len();
    let mut data = vec![0u8; 64 + 56 * n];
    put(&mut data, 0, &[0x7f, 0x45, 0x4c, 0x46, 2, 1, 1, 0]);
    put(&mut data, 16, &2u16.to_le_bytes());
    put(&mut data, 18, &243u16.to_le_bytes());
    put(&mut data, 20, &1u32.to_le_bytes());
    put(&mut data, 24, &entry.to_le_bytes());
    put(&mut data, 32, &64u64.to_le_bytes());
    put(&mut data, 52, &64u16.to_le_bytes());
    put(&mut data, 54, &56u16.to_le_bytes());
    put(&mut data, 56, &(n as u16).to_le_bytes());
    for (i, (kind, flags, vaddr, memsz, bytes)) in segments.iter().enumerate() {
        let base = 64 + 56 * i;
        let offset = data.len() as u64;
        put(&mut data, base, &kind.to_le_bytes());
        put(&mut data, base + 4, &flags.to_le_bytes());
        put(&mut data, base + 8, &offset.to_le_bytes());
        put(&mut data, base + 16, &vaddr.to_le_bytes());
        put(&mut data, base + 24, &vaddr.to_le_bytes());
        put(&mut data, base + 32, &(bytes.len() as u64).to_le_bytes());
        put(&mut data, base + 40, &memsz.to_le_bytes());
        put(&mut data, base + 48, &4096u64.to_le_bytes());
        data.extend_from_slice(bytes);
    }
    data
}

fn pattern(n: usize, seed: u8) -> Vec<u8> {
    (0..n).map(|i| (i as u8).wrapping_mul(7).wrapping_add(seed)).collect()
}

fn frame_bytes(space: &MemorySet, vpn: u64) -> Vec<u8> {
    let ppn = space.translate(VirtPageNum(vpn)).unwrap().ppn();
    let mut found: Vec<Vec<u8>> = Vec::new();
    for area in space.areas.iter() {
        for frame in area.data_frames.iter() {
            if frame.ppn == ppn {
                found.push(frame.get_bytes_array().to_vec());
            }
        }
    }
    assert_eq!(found.len(), 1);
    found.pop().unwrap()
}

#[test]
fn permission_bits() {
    assert_eq!((MAP_R, MAP_W, MAP_X, MAP_U), (2, 4, 8, 16));
    let p = MapPermission::from_bits(MAP_R | MAP_X).unwrap();
    assert!(p.contains(MapPermission { bits: MAP_X }));
    assert!(!p.contains(MapPermission { bits: MAP_W }));
    assert_eq!(p.union(MapPermission { bits: MAP_U }).bits(), 26);
    assert_eq!(MapPermission::empty().bits(), 0);
    assert_eq!(MapPermission::from_bits(1), None);
    assert_eq!(MapPermission::from_bits(32), None);
}

#[test]
fn elf_header_is_read() {
    let b = pattern(0x200, 3);
    let elf = build_elf(0x10040, &[(PT_LOAD, PF_R | PF_X, 0x10000, 0x200, b), (6, PF_R, 0, 0, vec![])]);
    assert_eq!(read_u16(&elf, 56), 2);
    assert_eq!(read_u32(&elf, 64), 1);
    assert_eq!(read_u64(&elf, 24), 0x10040);
    let file = ElfFile::parse(&elf).unwrap();
    assert_eq!(file.entry, 0x10040);
    assert_eq!(file.program_headers.len(), 2);
    let h = file.program_headers[0];
    assert_eq!((h.p_type, h.flags, h.vaddr, h.filesz, h.memsz), (1, 5, 0x10000, 0x200, 0x200));
    assert_eq!(h.offset, 64 + 112);
    assert_eq!(file.program_headers[1].p_type, 6);
}

#[test]
fn elf_header_is_refused() {
    let good = build_elf(0x10000, &[(PT_LOAD, PF_R, 0x10000, 8, vec![1; 8])]);
    assert!(ElfFile::parse(&good).is_some());
    assert!(ElfFile::parse(&good[..63]).is_none());
    assert!(ElfFile::parse(&[]).is_none());
    for (off, v) in [(0usize, 0x7eu8), (1, 0x46), (2, 0), (3, 0x47), (4, 1), (5, 2), (54, 32)] {
        let mut bad = good.clone();
        bad[off] = v;
        assert!(ElfFile::parse(&bad).is_none());
    }
    // more program headers than the file holds
    let mut bad = good.clone();
    bad[56] = 200;
    assert!(ElfFile::parse(&bad).is_none());
    // program headers that start after the end
    let mut bad = good.clone();
    put(&mut bad, 32, &0x1_0000u64.to_le_bytes());
    assert!(ElfFile::parse(&bad).is_none());
}

#[test]
fn program_is_loaded() {
    let b = pattern(0x200, 1);
    let elf = build_elf(0x10000, &[(PT_LOAD, PF_R | PF_X, 0x10000, 0x200, b.clone())]);
    let mut a = allocator(64);
    let (space, user_sp, entry) = MemorySet::from_elf(&elf, STRAMPOLINE, &mut a);
    assert!(user_sp > 0x10200);
    assert_eq!(user_sp, 0x14000);
    assert_eq!(entry, 0x10000);
    let bytes = frame_bytes(&space, 0x10);
    assert_eq!(&bytes[..0x200], &b[..]);
    assert!(bytes[0x200..].iter().all(|x| *x == 0));
    let pte = space.translate(VirtPageNum(0x10)).unwrap();
    assert_eq!(pte.flags().bits(), 1 | 2 | 8 | 16);
    assert_eq!(space.read_byte(0x10005), b[5]);
    // the areas: the segment, the stack, the trap context
    assert_eq!(space.areas.len(), 3);
    let seg = &space.areas[0];
    assert_eq!((seg.start_vpn, seg.end_vpn), (VirtPageNum(0x10), VirtPageNum(0x11)));
    assert_eq!(seg.map_perm.bits(), MAP_R | MAP_X | MAP_U);
    let stack = &space.areas[1];
    assert_eq!((stack.start_vpn, stack.end_vpn), (VirtPageNum(0x12), VirtPageNum(0x14)));
    assert_eq!(stack.map_perm.bits(), MAP_R | MAP_W | MAP_U);
    assert_eq!(stack.map_type, MapType::Framed);
    let cx = &space.areas[2];
    assert_eq!((cx.start_vpn, cx.end_vpn), (VirtPageNum(0x7ff_fffe), VirtPageNum(0x7ff_ffff)));
    assert_eq!(cx.map_perm.bits(), MAP_R | MAP_W);
    // the guard page is not mapped
    assert!(!space.translate(VirtPageNum(0x11)).map_or(false, |e| e.is_valid()));
    assert!(space.translate(VirtPageNum(0x12)).unwrap().is_valid());
    assert!(space.translate(VirtPageNum(0x13)).unwrap().is_valid());
    assert!(!space.translate(VirtPageNum(0x14)).map_or(false, |e| e.is_valid()));
    // the trampoline
    let t = space.translate(VirtPageNum(0x7ff_ffff)).unwrap();
    assert_eq!(t.ppn(), PhysPageNum(0x80201));
    assert_eq!(t.flags().bits(), 1 | 2 | 8 | 32);
    // the stack is zero
    assert!(frame_bytes(&space, 0x12).iter().all(|x| *x == 0));
}

#[test]
fn segments_with_more_memory_than_bytes() {
    let text = pattern(0x1234, 9);
    let data = pattern(0x10, 5);
    let elf = build_elf(
        0x10100,
        &[
            (PT_LOAD, PF_R | PF_X, 0x10000, 0x1234, text.clone()),
            (4, PF_R, 0x5000, 0x100, vec![7; 0x10]),
            (PT_LOAD, PF_R | PF_W, 0x12000, 0x3000, data.clone()),
        ],
    );
    let mut a = allocator(64);
    let (space, user_sp, entry) = MemorySet::from_elf(&elf, STRAMPOLINE, &mut a);
    assert_eq!(entry, 0x10100);
    assert_eq!(user_sp, 0x15000 + 0x1000 + 0x2000);
    assert_eq!(space.areas.len(), 4);
    assert_eq!(&frame_bytes(&space, 0x10)[..], &text[..0x1000]);
    assert_eq!(&frame_bytes(&space, 0x11)[..0x234], &text[0x1000..]);
    assert!(frame_bytes(&space, 0x11)[0x234..].iter().all(|x| *x == 0));
    assert_eq!(&frame_bytes(&space, 0x12)[..0x10], &data[..]);
    assert!(frame_bytes(&space, 0x13).iter().all(|x| *x == 0));
    assert!(frame_bytes(&space, 0x14).iter().all(|x| *x == 0));
    assert_eq!(space.areas[1].map_perm.bits(), MAP_R | MAP_W | MAP_U);
    // the segment that is not loaded left no page
    assert_eq!(space.translate(VirtPageNum(0x5)).map_or(false, |e| e.is_valid()), false);
}

#[test]
fn every_page_is_backed_by_one_area() {
    let elf = build_elf(
        0x10000,
        &[
            (PT_LOAD, PF_R | PF_X, 0x10000, 0x2000, pattern(0x2000, 1)),
            (PT_LOAD, PF_R | PF_W, 0x12000, 0x1000, pattern(0x800, 2)),
        ],
    );
    let mut a = allocator(64);
    let (space, _, _) = MemorySet::from_elf(&elf, STRAMPOLINE, &mut a);
    for area in space.areas.iter() {
        let mut vpn = area.start_vpn.0;
        while vpn < area.end_vpn.0 {
            let ppn = space.translate(VirtPageNum(vpn)).unwrap().ppn();
            let mut owners = 0;
            for other in space.areas.iter() {
                for frame in other.data_frames.iter() {
                    if frame.ppn == ppn {
                        owners += 1;
                    }
                }
            }
            assert_eq!(owners, 1);
            assert!(a.allocated(ppn));
            assert_eq!(space.find_area(VirtPageNum(vpn)).is_some(), true);
            vpn += 1;
        }
    }
    assert_eq!(space.find_area(VirtPageNum(0x30)), None);
}

#[test]
fn clone_has_the_same_bytes_in_other_frames() {
    let elf = build_elf(
        0x10000,
        &[(PT_LOAD, PF_R | PF_W | PF_X, 0x10000, 0x1800, pattern(0x1800, 4))],
    );
    let mut a = allocator(128);
    let (mut space, user_sp, _) = MemorySet::from_elf(&elf, STRAMPOLINE, &mut a);
    space.write_word(user_sp - 8, 0xdead_beef_0102_0304);
    space.write_byte(0x10001, 0x77);
    let mut copy = MemorySet::from_existed_user(&space, STRAMPOLINE, &mut a);
    assert_eq!(copy.areas.len(), space.areas.len());
    assert_ne!(copy.token(), space.token());
    for (x, y) in space.areas.iter().zip(copy.areas.iter()) {
        assert_eq!((x.start_vpn, x.end_vpn), (y.start_vpn, y.end_vpn));
        assert_eq!(x.map_perm, y.map_perm);
        assert_eq!(x.map_type, y.map_type);
        let mut vpn = x.start_vpn.0;
        while vpn < x.end_vpn.0 {
            let p = space.translate(VirtPageNum(vpn)).unwrap();
            let q = copy.translate(VirtPageNum(vpn)).unwrap();
            assert_ne!(p.ppn(), q.ppn());
            assert_eq!(p.flags(), q.flags());
            assert_eq!(frame_bytes(&space, vpn), frame_bytes(&copy, vpn));
            vpn += 1;
        }
    }
    assert_eq!(copy.read_word(user_sp - 8), 0xdead_beef_0102_0304);
    assert_eq!(copy.read_byte(0x10001), 0x77);
    assert_eq!(
        copy.translate(VirtPageNum(0x7ff_ffff)).unwrap().ppn(),
        PhysPageNum(0x80201)
    );
    // the two spaces are apart
    copy.write_byte(0x10001, 0x55);
    assert_eq!(space.read_byte(0x10001), 0x77);
    assert_eq!(copy.read_byte(0x10001), 0x55);
}

#[test]
fn areas_come_and_go() {
    let mut a = allocator(64);
    let mut space = MemorySet::new_bare(&mut a);
    assert_eq!(space.token(), (8u64 << 60) | 0x80400);
    assert_eq!(space.areas.len(), 0);
    space.insert_framed_area(
        VirtAddr(0x2000_0100),
        VirtAddr(0x2000_2001),
        MapPermission { bits: MAP_R | MAP_W | MAP_U },
        &mut a,
    );
    assert_eq!(space.areas.len(), 1);
    assert_eq!(space.areas[0].start_vpn, VirtPageNum(0x20000));
    assert_eq!(space.areas[0].end_vpn, VirtPageNum(0x20003));
    assert_eq!(space.areas[0].data_frames.len(), 3);
    space.insert_framed_area(
        VirtAddr(0x3000_0000),
        VirtAddr(0x3000_1000),
        MapPermission { bits: MAP_R },
        &mut a,
    );
    assert_eq!(space.find_area(VirtPageNum(0x20002)), Some(0));
    assert_eq!(space.find_area(VirtPageNum(0x30000)), Some(1));
    assert_eq!(space.find_area(VirtPageNum(0x20003)), None);
    let gone = space.translate(VirtPageNum(0x20001)).unwrap().ppn();
    assert!(a.allocated(gone));
    space.remove_area_with_start_vpn(VirtPageNum(0x20001), &mut a);
    assert_eq!(space.areas.len(), 2);
    space.remove_area_with_start_vpn(VirtPageNum(0x20000), &mut a);
    assert_eq!(space.areas.len(), 1);
    assert_eq!(space.areas[0].start_vpn, VirtPageNum(0x30000));
    assert!(!a.allocated(gone));
    assert!(!space.translate(VirtPageNum(0x20001)).unwrap().is_valid());
    assert!(space.translate(VirtPageNum(0x30000)).unwrap().is_valid());
    let kept = space.translate(VirtPageNum(0x30000)).unwrap().ppn();
    space.recycle_data_pages(&mut a);
    assert_eq!(space.areas.len(), 0);
    assert!(!a.allocated(kept));
    // the page table is still there
    assert!(a.allocated(PhysPageNum(0x80400)));
    assert_eq!(space.token(), (8u64 << 60) | 0x80400);
    space.destroy(&mut a);
    let mut p = 0x80400;
    while p < 0x80440 {
        assert!(!a.allocated(PhysPageNum(p)));
        p += 1;
    }
}

#[test]
fn area_by_hand() {
    let mut a = allocator(64);
    let mut space = MemorySet::new_bare(&mut a);
    let area = MapArea::new(
        VirtAddr(0x5000_0800),
        VirtAddr(0x5000_1800),
        MapType::Framed,
        MapPermission { bits: MAP_R | MAP_W },
    );
    assert_eq!((area.start_vpn, area.end_vpn), (VirtPageNum(0x50000), VirtPageNum(0x50002)));
    let twin = MapArea::from_another(&area);
    assert_eq!((twin.start_vpn, twin.end_vpn), (area.start_vpn, area.end_vpn));
    assert_eq!(twin.map_perm, area.map_perm);
    assert_eq!(twin.data_frames.len(), 0);
    let bytes = pattern(5000, 11);
    space.push(area, Some(&bytes), &mut a);
    assert_eq!(&frame_bytes(&space, 0x50000)[..], &bytes[..4096]);
    assert_eq!(&frame_bytes(&space, 0x50001)[..904], &bytes[4096..]);
    assert!(frame_bytes(&space, 0x50001)[904..].iter().all(|x| *x == 0));
    assert_eq!(space.read_buffer(0x5000_0ffe, 4), bytes[4094..4098].to_vec());
    let flags = space.translate(VirtPageNum(0x50000)).unwrap().flags();
    assert_eq!(flags.bits(), 1 | 2 | 4);
}

#[test]
fn memory_of_a_space_is_read_and_written() {
    let mut a = allocator(64);
    let mut space = MemorySet::new_bare(&mut a);
    space.insert_framed_area(
        VirtAddr(0x10000),
        VirtAddr(0x13000),
        MapPermission { bits: MAP_R | MAP_W | MAP_U },
        &mut a,
    );
    assert_eq!(space.locate(VirtPageNum(0x11)), (0, 1));
    space.write_word(0x10ff8, 0x0807_0605_0403_0201);
    assert_eq!(space.read_byte(0x10ff8), 1);
    assert_eq!(space.read_byte(0x10fff), 8);
    assert_eq!(space.read_word(0x10ff8), 0x0807_0605_0403_0201);
    space.write_bytes(0x11ffe, &[0xaa, 0xbb]);
    assert_eq!(space.read_buffer(0x11ffd, 4), vec![0, 0xaa, 0xbb, 0]);
    space.write_words(0x12000, &[5, 6, 7]);
    assert_eq!(space.read_words(0x12000, 3), vec![5, 6, 7]);
    assert_eq!(space.read_word(0x12008), 6);
    // a run of bytes over two pages
    space.write_byte(0x10fff, 0x41);
    space.write_byte(0x11000, 0x42);
    assert_eq!(space.read_buffer(0x10ffe, 4), vec![7, 0x41, 0x42, 0]);
}

#[test]
fn user_string_is_read_over_a_page_boundary() {
    let mut a = allocator(64);
    let mut space = MemorySet::new_bare(&mut a);
    space.insert_framed_area(
        VirtAddr(0x10000),
        VirtAddr(0x12000),
        MapPermission { bits: MAP_R | MAP_W | MAP_U },
        &mut a,
    );
    let text = b"hello, world";
    let mut va = 0x10ffa;
    for c in text.iter() {
        space.write_byte(va, *c);
        va += 1;
    }
    assert_eq!(translated_str(&space, 0x10ffa), "hello, world");
    assert_eq!(translated_str(&space, 0x10ffa).len(), 12);
    assert_eq!(translated_str(&space, 0x11000), " world");
    assert_eq!(translated_str(&space, 0x11001), "world");
    assert_eq!(translated_str(&space, 0x11006), "");
}

#[test]
fn buffer_is_split_at_page_boundaries() {
    let mut a = allocator(64);
    let mut pt = PageTable::new(&mut a);
    let flags = PTEFlags { bits: PTE_R | PTE_W };
    pt.map(VirtPageNum(0x10), PhysPageNum(0x900), flags, &mut a);
    pt.map(VirtPageNum(0x11), PhysPageNum(0x700), flags, &mut a);
    pt.map(VirtPageNum(0x12), PhysPageNum(0x800), flags, &mut a);
    let slices = translated_byte_buffer(&pt, 0x10ff0, 0x1030);
    assert_eq!(
        slices,
        vec![
            PhysSlice { ppn: PhysPageNum(0x900), start: 0xff0, end: 0x1000 },
            PhysSlice { ppn: PhysPageNum(0x700), start: 0, end: 0x1000 },
            PhysSlice { ppn: PhysPageNum(0x800), start: 0, end: 0x20 },
        ]
    );
    assert_eq!(slices[0].len(), 16);
    let one = translated_byte_buffer(&pt, 0x11004, 8);
    assert_eq!(one, vec![PhysSlice { ppn: PhysPageNum(0x700), start: 4, end: 12 }]);
    let page = translated_byte_buffer(&pt, 0x11000, 0x1000);
    assert_eq!(page, vec![PhysSlice { ppn: PhysPageNum(0x700), start: 0, end: 0x1000 }]);
    assert_eq!(translated_byte_buffer(&pt, 0x11000, 0), vec![]);
    let buffer = UserBuffer::new(slices);
    assert_eq!(buffer.len(), 0x1030);
    let mut it = buffer.into_iter();
    assert_eq!(it.next(), Some(PhysAddr(0x900ff0)));
    for _ in 0..14 {
        it.next();
    }
    assert_eq!(it.next(), Some(PhysAddr(0x900fff)));
    assert_eq!(it.next(), Some(PhysAddr(0x700000)));
    let mut n = 17;
    let mut last = None;
    while let Some(p) = it.next() {
        last = Some(p);
        n += 1;
    }
    assert_eq!(n, 0x1030);
    assert_eq!(last, Some(PhysAddr(0x80001f)));
    assert_eq!(it.next(), None);
}

#[test]
fn kernel_space_maps_each_part_to_itself() {
    let layout = KernelLayout {
        stext: 0x8020_0000,
        etext: 0x8020_8000,
        srodata: 0x8020_8000,
        erodata: 0x8020_c000,
        sdata: 0x8020_c000,
        edata: 0x8021_0000,
        sbss_with_stack: 0x8021_0000,
        ebss: 0x8024_0000,
        ekernel: 0x8024_0000,
        strampoline: STRAMPOLINE,
        memory_end: 0x8080_0000,
        mmio: vec![(0x1000_1000, 0x1000)],
    };
    let (a, space) = sv39_kernel::mm::init(&layout);
    assert_eq!(a.end, 0x80800);
    assert_eq!(space.areas.len(), 6);
    let perms: Vec<u8> = space.areas.iter().map(|x| x.map_perm.bits()).collect();
    assert_eq!(perms, vec![10, 2, 6, 6, 6, 6]);
    assert!(space.areas.iter().all(|x| x.map_type == MapType::Identical));
    for (vpn, bits) in [
        (0x80200u64, 1 | 2 | 8),
        (0x80207, 1 | 2 | 8),
        (0x80208, 1 | 2),
        (0x8020c, 1 | 2 | 4),
        (0x8023f, 1 | 2 | 4),
        (0x80240, 1 | 2 | 4),
        (0x807ff, 1 | 2 | 4),
        (0x10001, 1 | 2 | 4),
    ] {
        let pte = space.translate(VirtPageNum(vpn)).unwrap();
        assert_eq!(pte.ppn(), PhysPageNum(vpn));
        assert_eq!(pte.flags().bits(), bits);
    }
    assert!(!space.translate(VirtPageNum(0x80800)).map_or(false, |e| e.is_valid()));
    let t = space.translate(VirtPageNum(0x7ff_ffff)).unwrap();
    assert_eq!(t.ppn(), PhysPageNum(0x80201));
    assert_eq!(t.flags().bits(), 43);
    // the tables came from the start of free memory
    assert_eq!(space.page_table.root_ppn, PhysPageNum(0x80240));
    assert!(a.allocated(PhysPageNum(0x80240)));
}

#[test]
fn user_string_without_an_end() {
    let mut a = allocator(64);
    let mut space = MemorySet::new_bare(&mut a);
    space.insert_framed_area(
        VirtAddr(0x10000),
        VirtAddr(0x12000),
        MapPermission { bits: MAP_R | MAP_W | MAP_U },
        &mut a,
    );
    space.push(
        MapArea::new(
            VirtAddr(0x8020_0000),
            VirtAddr(0x8020_1000),
            MapType::Identical,
            MapPermission { bits: MAP_R },
        ),
        None,
        &mut a,
    );
    for (i, c) in b"abc".iter().enumerate() {
        space.write_byte(0x11ffd + i as u64, *c);
    }
    // the string runs into a page without a frame
    assert_eq!(user_str_len(&space, 0x11ffd), None);
    assert_eq!(translated_str_checked(&space, 0x11ffd), None);
    assert_eq!(user_str_len(&space, 0x12000), None);
    assert_eq!(user_str_len(&space, 0x8020_0000), None);
    assert_eq!(user_str_len(&space, u64::MAX), None);
    assert!(!space.is_backed(0x12000));
    assert!(!space.is_backed(0x8020_0000));
    assert!(space.is_backed(0x11fff));
    assert_eq!(user_str_len(&space, 0x10000), Some(0));
    assert_eq!(translated_str_checked(&space, 0x10000), Some(String::new()));
    space.write_byte(0x11fff, 0);
    assert_eq!(user_str_len(&space, 0x11ffd), Some(2));
    assert_eq!(translated_str_checked(&space, 0x11ffd), Some(String::from("ab")));
    // a byte above 127 is one character
    space.write_byte(0x10010, 0xe9);
    assert_eq!(translated_str(&space, 0x10010), "\u{e9}");
}

#[test]
fn bytes_of_a_program_by_reference() {
    let mut a = allocator(64);
    let mut space = MemorySet::new_bare(&mut a);
    space.insert_framed_area(
        VirtAddr(0x10000),
        VirtAddr(0x12000),
        MapPermission { bits: MAP_R | MAP_W | MAP_U },
        &mut a,
    );
    space.write_byte(0x10fff, 7);
    assert_eq!(*translated_ref(&space, 0x10fff), 7);
    assert_eq!(*translated_ref(&space, 0x11000), 0);
    let r = translated_refmut(&mut space, 0x11000);
    assert_eq!(*r, 0);
    *r = 9;
    *translated_refmut(&mut space, 0x10fff) += 1;
    assert_eq!(space.read_buffer(0x10ffe, 4), vec![0, 8, 9, 0]);
    assert_eq!(*translated_ref(&space, 0x11000), 9);
}

#[test]
fn buffer_that_ends_at_the_top_of_the_low_half() {
    let mut a = allocator(64);
    let mut pt = PageTable::new(&mut a);
    let flags = PTEFlags { bits: PTE_R | PTE_W };
    pt.map(VirtPageNum(0x3ff_fffe), PhysPageNum(0x123), flags, &mut a);
    pt.map(VirtPageNum(0x3ff_ffff), PhysPageNum(0x456), flags, &mut a);
    assert_eq!(
        translated_byte_buffer(&pt, 0x3f_ffff_fff0, 16),
        vec![PhysSlice { ppn: PhysPageNum(0x456), start: 0xff0, end: 0x1000 }]
    );
    assert_eq!(
        translated_byte_buffer(&pt, 0x3f_ffff_eff8, 0x1008),
        vec![
            PhysSlice { ppn: PhysPageNum(0x123), start: 0xff8, end: 0x1000 },
            PhysSlice { ppn: PhysPageNum(0x456), start: 0, end: 0x1000 },
        ]
    );
    assert_eq!(translated_byte_buffer(&pt, 0x3f_ffff_ffff, 1).len(), 1);
    assert_eq!(translated_byte_buffer(&pt, 0x40_0000_0000, 0), vec![]);
}
