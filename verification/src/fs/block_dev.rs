//! The interface of a block device, and a device kept in memory.
use vstd::prelude::*;

verus! {

/// Size of a block, in bytes.
pub const BLOCK_SZ: usize = 512;

/// A device that stores blocks of `BLOCK_SZ` bytes under numbers.
pub trait BlockDevice {
    /// Whether the device has a block of this number.
    spec fn has_block(&self, block_id: usize) -> bool;

    /// The bytes of the block of this number.
    spec fn block(&self, block_id: usize) -> Seq<u8>;

    /// Copies the block into `buf`.
    fn read_block(&self, block_id: usize, buf: &mut [u8; 512])
        requires
            self.has_block(block_id),
        ensures
            final(buf)@ == self.block(block_id),
    ;

    /// Replaces the block by the bytes of `buf`; no other block
    /// changes.
    fn write_block(&mut self, block_id: usize, buf: &[u8; 512])
        requires
            old(self).has_block(block_id),
        ensures
            final(self).block(block_id) == buf@,
            forall|other: usize| #[trigger] final(self).has_block(other) == old(self).has_block(other),
            forall|other: usize|
                other != block_id ==> #[trigger] final(self).block(other) == old(self).block(other),
    ;
}

/// A block device whose blocks are kept in memory.
pub struct RamDisk {
    /// The blocks, by number.
    pub blocks: Vec<[u8; 512]>,
}

impl RamDisk {
    /// A device of `n` blocks of zero bytes.
    pub fn new(n: usize) -> (r: Self)
        ensures
            r.blocks@.len() == n,
            forall|i: int, j: int| 0 <= i < n && 0 <= j < 512 ==> (#[trigger] r.blocks@[i]@[j]) == 0,
    {
        let mut blocks: Vec<[u8; 512]> = Vec::new();
        let mut i: usize = 0;
        while i < n
            invariant
                i <= n,
                blocks@.len() == i,
                forall|k: int, j: int|
                    0 <= k < i && 0 <= j < 512 ==> (#[trigger] blocks@[k]@[j]) == 0,
            decreases n - i,
        {
            let b = [0u8;512];
            blocks.push(b);
            i += 1;
        }
        RamDisk { blocks }
    }

    /// Number of blocks of the device.
    pub fn len(&self) -> (r: usize)
        ensures
            r == self.blocks@.len(),
    {
        self.blocks.len()
    }
}

impl BlockDevice for RamDisk {
    open spec fn has_block(&self, block_id: usize) -> bool {
        block_id < self.blocks@.len()
    }

    open spec fn block(&self, block_id: usize) -> Seq<u8> {
        if block_id < self.blocks@.len() {
            self.blocks@[block_id as int]@
        } else {
            Seq::empty()
        }
    }

    fn read_block(&self, block_id: usize, buf: &mut [u8; 512]) {
        *buf = self.blocks[block_id];
    }

    fn write_block(&mut self, block_id: usize, buf: &[u8; 512]) {
        self.blocks[block_id] = *buf;
    }
}

} // verus!
