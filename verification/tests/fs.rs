use sv39_kernel::fs::bitmap::{decomposition, Bitmap};
use sv39_kernel::fs::block_cache::{
    block_cache_sync_all, get_block_cache, BlockCache, BlockCacheManager,
};
use sv39_kernel::fs::block_dev::{BlockDevice, RamDisk, BLOCK_SZ};

#[test]
fn ram_disk_reads_what_was_written() {
    let mut disk = RamDisk::new(4);
    assert_eq!(disk.len(), 4);
    let mut buf = [0u8; BLOCK_SZ];
    buf[0] = 7;
    buf[511] = 9;
    disk.write_block(2, &buf);
    let mut out = [1u8; BLOCK_SZ];
    disk.read_block(2, &mut out);
    assert_eq!(out[0], 7);
    assert_eq!(out[511], 9);
    assert_eq!(out[1], 0);
    disk.read_block(1, &mut out);
    assert!(out.iter().all(|b| *b == 0));
}

#[test]
fn bitmap_hands_out_the_lowest_clear_bit() {
    let mut disk = RamDisk::new(8);
    let mut mgr = BlockCacheManager::new();
    let bitmap = Bitmap::new(3, 1);
    assert_eq!(bitmap.maximum(), 4096);
    for expected in 0..10usize {
        assert_eq!(bitmap.allocate(&mut mgr, &mut disk), Some(expected));
    }
    bitmap.dealloc(&mut mgr, &mut disk, 3);
    assert_eq!(bitmap.allocate(&mut mgr, &mut disk), Some(3));
    assert_eq!(bitmap.allocate(&mut mgr, &mut disk), Some(10));
}

#[test]
fn bitmap_alloc_then_dealloc_restores_the_block() {
    let mut disk = RamDisk::new(2);
    let mut mgr = BlockCacheManager::new();
    let bitmap = Bitmap::new(0, 2);
    for _ in 0..70 {
        bitmap.allocate(&mut mgr, &mut disk);
    }
    let before = mgr.queue[0].cache.cache;
    let bit = bitmap.allocate(&mut mgr, &mut disk).unwrap();
    assert_eq!(bit, 70);
    assert_ne!(mgr.queue[0].cache.cache, before);
    bitmap.dealloc(&mut mgr, &mut disk, bit);
    assert_eq!(mgr.queue[0].cache.cache, before);
}

#[test]
fn bitmap_moves_to_the_next_block_and_runs_out() {
    let mut disk = RamDisk::new(2);
    let mut mgr = BlockCacheManager::new();
    let bitmap = Bitmap::new(0, 2);
    for expected in 0..8192usize {
        assert_eq!(bitmap.allocate(&mut mgr, &mut disk), Some(expected));
    }
    assert_eq!(bitmap.allocate(&mut mgr, &mut disk), None);
    bitmap.dealloc(&mut mgr, &mut disk, 4097);
    assert_eq!(bitmap.allocate(&mut mgr, &mut disk), Some(4097));
    assert_eq!(bitmap.maximum(), 8192);
}

#[test]
fn decomposition_splits_a_bit_position() {
    assert_eq!(decomposition(0), (0, 0, 0));
    assert_eq!(decomposition(4096 * 3 + 64 * 5 + 17), (3, 5, 17));
    assert_eq!(decomposition(4095), (0, 63, 63));
}

#[test]
fn block_cache_reads_modifies_and_syncs() {
    let mut disk = RamDisk::new(4);
    let mut buf = [0u8; BLOCK_SZ];
    buf[8] = 0x34;
    buf[9] = 0x12;
    disk.write_block(1, &buf);
    let mut cache = BlockCache::new(1, &disk);
    assert!(!cache.modified);
    assert_eq!(cache.read_u64(8), 0x1234);
    let sum = cache.read(8, 2, |b: &[u8]| b[0] as u32 + b[1] as u32);
    assert_eq!(sum, 0x46);
    let old = cache.modify(8, 2, |b: Vec<u8>| (vec![b[1], b[0]], b[0]));
    assert_eq!(old, 0x34);
    assert!(cache.modified);
    assert_eq!(cache.read_u64(8), 0x3412);
    // the device still holds the old bytes
    let mut out = [0u8; BLOCK_SZ];
    disk.read_block(1, &mut out);
    assert_eq!(out[8], 0x34);
    cache.sync(&mut disk);
    assert!(!cache.modified);
    disk.read_block(1, &mut out);
    assert_eq!(out[8], 0x12);
    assert_eq!(out[9], 0x34);
    assert_eq!(*cache.get_ref(8), 0x12);
    *cache.get_mut(8) = 0x13;
    assert!(cache.modified);
    assert_eq!(cache.read_u64(8), 0x3413);
    assert_eq!(*cache.get_ref(9), 0x34);
    cache.sync(&mut disk);
    disk.read_block(1, &mut out);
    assert_eq!(out[8], 0x13);
    cache.write_u64(504, u64::MAX);
    assert!(cache.modified);
    assert_eq!(cache.cache[511], 0xff);
}

#[test]
fn cache_holds_at_most_sixteen_blocks_and_evicts_the_oldest_free() {
    let mut disk = RamDisk::new(32);
    let mut mgr = BlockCacheManager::new();
    for id in 0..16usize {
        let idx = get_block_cache(&mut mgr, id, &mut disk);
        assert_eq!(idx, id);
        mgr.write_u64(idx, 0, id as u64 + 100, &disk);
        if id != 0 {
            mgr.release(id);
        }
    }
    assert_eq!(mgr.queue.len(), 16);
    // block 0 is still held, so block 1 is the one to leave
    let idx = get_block_cache(&mut mgr, 16, &mut disk);
    assert_eq!(idx, 15);
    assert_eq!(mgr.queue.len(), 16);
    assert_eq!(mgr.find(1), None);
    assert_eq!(mgr.find(0), Some(0));
    assert_eq!(mgr.find(2), Some(1));
    assert_eq!(mgr.queue[15].block_id, 16);
    assert_eq!(mgr.queue[15].users, 1);
    // the block that left was written back
    let mut out = [0u8; BLOCK_SZ];
    disk.read_block(1, &mut out);
    assert_eq!(out[0], 101);
    // the others were not written yet
    disk.read_block(2, &mut out);
    assert_eq!(out[0], 0);
    // a block that comes back is read from the device
    mgr.release(16);
    let again = get_block_cache(&mut mgr, 1, &mut disk);
    assert_eq!(mgr.queue[again].cache.cache[0], 101);
    assert!(!mgr.queue[again].cache.modified);
}

#[test]
fn cached_block_is_found_again() {
    let mut disk = RamDisk::new(4);
    let mut mgr = BlockCacheManager::new();
    let a = mgr.get_block_cache(2, &mut disk);
    let b = mgr.get_block_cache(2, &mut disk);
    assert_eq!(a, b);
    assert_eq!(mgr.queue.len(), 1);
    assert_eq!(mgr.queue[0].users, 2);
    mgr.release(2);
    mgr.release(2);
    mgr.release(2);
    assert_eq!(mgr.queue[0].users, 0);
    assert_eq!(mgr.find_free(), Some(0));
}

#[test]
fn sync_all_writes_every_changed_block() {
    let mut disk = RamDisk::new(8);
    let mut mgr = BlockCacheManager::new();
    for id in 0..4usize {
        let idx = mgr.get_block_cache(id, &mut disk);
        mgr.write_u64(idx, 8, 0xab00 + id as u64, &disk);
        assert_eq!(mgr.read_u64(idx, 8), 0xab00 + id as u64);
        mgr.release(id);
    }
    block_cache_sync_all(&mut mgr, &mut disk);
    assert_eq!(mgr.queue.len(), 4);
    let mut out = [0u8; BLOCK_SZ];
    for id in 0..4usize {
        assert!(!mgr.queue[id].cache.modified);
        disk.read_block(id, &mut out);
        assert_eq!(out[8], id as u8);
        assert_eq!(out[9], 0xab);
    }
}

#[test]
fn bitmap_works_beside_blocks_that_are_held() {
    let mut disk = RamDisk::new(40);
    let mut mgr = BlockCacheManager::new();
    let bitmap = Bitmap::new(0, 2);
    // fifteen blocks are held, and the first block of the bitmap as well
    for id in 20..35usize {
        mgr.get_block_cache(id, &mut disk);
    }
    let own = mgr.get_block_cache(0, &mut disk);
    assert_eq!(mgr.queue.len(), 16);
    assert!(mgr.queue.iter().all(|e| e.users == 1));
    assert!(mgr.can_take(0, &disk));
    assert!(mgr.can_take(20, &disk));
    // the cache is full of held blocks: no other block can come in
    assert!(!mgr.can_take(1, &disk));
    for expected in 0..5usize {
        assert_eq!(bitmap.allocate(&mut mgr, &mut disk), Some(expected));
    }
    bitmap.dealloc(&mut mgr, &mut disk, 2);
    assert_eq!(bitmap.allocate(&mut mgr, &mut disk), Some(2));
    // every block has the holders that it had
    assert_eq!(mgr.queue.len(), 16);
    assert!(mgr.queue.iter().all(|e| e.users == 1));
    assert_eq!(mgr.queue[own].block_id, 0);
    assert_eq!(mgr.read_u64(own, 0), 0b11111);
    // with one block given up, the second block of the bitmap can come in
    mgr.release(27);
    assert!(mgr.can_take(1, &disk));
    bitmap.dealloc(&mut mgr, &mut disk, 3);
    assert_eq!(bitmap.allocate(&mut mgr, &mut disk), Some(3));
    assert_eq!(mgr.find(27), Some(7));
}
