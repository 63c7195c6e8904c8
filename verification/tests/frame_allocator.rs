use sv39_kernel::mm::address::PhysPageNum;
use sv39_kernel::mm::frame_allocator::{
    frame_alloc, frame_dealloc, frame_numbers, give_frames, init_frame_allocator, take_frames,
    FrameTracker, StackFrameAllocator,
};

fn allocator(l: u64, r: u64) -> StackFrameAllocator {
    let mut a = StackFrameAllocator::new();
    a.init(PhysPageNum(l), PhysPageNum(r));
    a
}

#[test]
fn frames_come_in_order_and_zeroed() {
    let mut a = allocator(0x80400, 0x80404);
    let f0 = frame_alloc(&mut a).unwrap();
    let f1 = frame_alloc(&mut a).unwrap();
    assert_eq!(f0.ppn, PhysPageNum(0x80400));
    assert_eq!(f1.ppn, PhysPageNum(0x80401));
    assert_eq!(f0.get_bytes_array().len(), 4096);
    assert!(f0.get_bytes_array().iter().all(|b| *b == 0));
}

#[test]
fn allocator_runs_out() {
    let mut a = allocator(0x80400, 0x80402);
    assert!(a.has_free(2));
    assert!(!a.has_free(3));
    assert!(frame_alloc(&mut a).is_some());
    assert!(frame_alloc(&mut a).is_some());
    assert!(frame_alloc(&mut a).is_none());
    assert!(!a.has_free(1));
}

#[test]
fn recycled_frame_is_handed_out_first() {
    let mut a = allocator(0x80400, 0x80410);
    let f0 = frame_alloc(&mut a).unwrap();
    let f1 = frame_alloc(&mut a).unwrap();
    let f2 = frame_alloc(&mut a).unwrap();
    assert!(a.allocated(f1.ppn));
    frame_dealloc(&mut a, f1);
    assert!(!a.allocated(PhysPageNum(0x80401)));
    let g = frame_alloc(&mut a).unwrap();
    assert_eq!(g.ppn, PhysPageNum(0x80401));
    let h = frame_alloc(&mut a).unwrap();
    assert_eq!(h.ppn, PhysPageNum(0x80403));
    assert_eq!(f0.ppn, PhysPageNum(0x80400));
    assert_eq!(f2.ppn, PhysPageNum(0x80402));
}

#[test]
fn live_frame_is_never_handed_out_again() {
    let mut a = allocator(0x80400, 0x80440);
    let mut live: Vec<FrameTracker> = Vec::new();
    for round in 0..4 {
        for _ in 0..8 {
            let f = frame_alloc(&mut a).unwrap();
            assert!(live.iter().all(|g| g.ppn != f.ppn));
            live.push(f);
        }
        for _ in 0..(3 + round) {
            let f = live.remove(1);
            frame_dealloc(&mut a, f);
        }
    }
}

#[test]
fn frame_allocator_test() {
    let mut a = allocator(0x80400, 0x80500);
    let kept = frame_alloc(&mut a).unwrap();
    let (first, second) = sv39_kernel::mm::frame_allocator::frame_allocator_test(&mut a);
    assert_eq!(first, vec![0x80401, 0x80402, 0x80403, 0x80404, 0x80405]);
    assert_eq!(second, vec![0x80405, 0x80404, 0x80403, 0x80402, 0x80401]);
    assert!(a.allocated(kept.ppn));
    for p in first {
        assert!(!a.allocated(PhysPageNum(p)));
    }
    assert_eq!(a.free_frames(), 0xff);
    // the frames that came back are taken before fresh ones
    let (third, fourth) = sv39_kernel::mm::frame_allocator::frame_allocator_test(&mut a);
    assert_eq!(third, vec![0x80401, 0x80402, 0x80403, 0x80404, 0x80405]);
    assert_eq!(fourth, vec![0x80405, 0x80404, 0x80403, 0x80402, 0x80401]);
    assert_eq!(a.current, 0x80406);
}

#[test]
fn frames_are_taken_and_given_in_order() {
    let mut a = allocator(0x100, 0x110);
    let v = take_frames(&mut a, 3);
    assert_eq!(frame_numbers(&v), vec![0x100, 0x101, 0x102]);
    assert!(v.iter().all(|f| f.get_bytes_array().iter().all(|b| *b == 0)));
    give_frames(&mut a, v);
    assert_eq!(a.recycled, vec![0x100, 0x101, 0x102]);
    let w = take_frames(&mut a, 4);
    assert_eq!(frame_numbers(&w), vec![0x102, 0x101, 0x100, 0x103]);
    assert_eq!(take_frames(&mut a, 0).len(), 0);
    give_frames(&mut a, Vec::new());
    assert_eq!(a.free_frames(), 12);
}

#[test]
fn init_rounds_the_range_to_pages() {
    let mut a = StackFrameAllocator::new();
    init_frame_allocator(&mut a, 0x8040_0123, 0x8080_0fff);
    assert_eq!(a.current, 0x80401);
    assert_eq!(a.end, 0x80800);
}

#[test]
fn frame_words_and_bytes() {
    let mut f = FrameTracker::new(PhysPageNum(7));
    f.write_word(16, 0x1122_3344_5566_7788);
    assert_eq!(f.read_word(16), 0x1122_3344_5566_7788);
    assert_eq!(f.read_byte(16), 0x88);
    assert_eq!(f.read_byte(23), 0x11);
    assert_eq!(f.read_word(8), 0);
    f.write_byte(17, 0xff);
    assert_eq!(f.read_word(16), 0x1122_3344_5566_ff88);
    f.write_words(4000, &[1, 2, 3]);
    assert_eq!(f.read_words(4000, 3), vec![1, 2, 3]);
    f.write_bytes(100, &[9, 8, 7]);
    assert_eq!(&f.get_bytes_array()[100..103], &[9, 8, 7]);
    *f.get_mut(4095) = 0x5a;
    assert_eq!(f.read_byte(4095), 0x5a);
    assert_eq!(f.read_byte(4094), 0);
    let mut g = FrameTracker::new(PhysPageNum(8));
    g.copy_from(&f);
    assert_eq!(g.get_bytes_array(), f.get_bytes_array());
    assert_eq!(g.ppn, PhysPageNum(8));
}
