//! The allocation bitmap of the file system: a run of blocks of a device,
//! each read as 64 words of 64 bits.
use crate::fs::block_cache::BlockCacheManager;
use crate::fs::block_dev::BlockDevice;
use crate::mm::frame_allocator::{lemma_with_word, with_word, word_at};
use vstd::bytes::{lemma_auto_spec_u64_to_from_le_bytes, spec_u64_to_le_bytes};
use vstd::prelude::*;

verus! {

/// Number of bits in a block.
pub const BLOCK_BITS: usize = 4096;

/// Bit `i` of the word `w`.
pub open spec fn word_bit(w: u64, i: int) -> bool {
    (w >> (i as u64)) & 1 == 1
}

/// Word `k` of a block.
pub open spec fn word_of(block: Seq<u8>, k: int) -> u64 {
    word_at(block, k * 8)
}

/// Bit `p` of a block: bit `p % 64` of its word `p / 64`.
pub open spec fn bit_of(block: Seq<u8>, p: int) -> bool {
    word_bit(word_at(block, (p / 64) * 8), p % 64)
}

/// The block with bit `p` set.
pub open spec fn with_bit_set(block: Seq<u8>, p: int) -> Seq<u8> {
    with_word(block, (p / 64) * 8, word_at(block, (p / 64) * 8) | (1u64 << ((p % 64) as u64)))
}

/// The block with bit `p` cleared, for a block in which it is set.
pub open spec fn with_bit_clear(block: Seq<u8>, p: int) -> Seq<u8> {
    with_word(
        block,
        (p / 64) * 8,
        (word_at(block, (p / 64) * 8) - (1u64 << ((p % 64) as u64))) as u64,
    )
}

/// Every bit of the word of all ones is set.
pub proof fn lemma_full_word(i: int)
    requires
        0 <= i < 64,
    ensures
        word_bit(u64::MAX, i),
{
    let k = i as u64;
    assert(k < 64 ==> (0xffff_ffff_ffff_ffffu64 >> k) & 1 == 1) by (bit_vector);
}

/// Setting a clear bit of a word sets that bit and no other, and taking
/// it away again gives the word back.
pub proof fn lemma_word_set(w: u64, t: int, i: int)
    requires
        0 <= t < 64,
        0 <= i < 64,
    ensures
        word_bit(w | (1u64 << (t as u64)), i) == (i == t || word_bit(w, i)),
        !word_bit(w, t) ==> (w | (1u64 << (t as u64))) - (1u64 << (t as u64)) == w,
        word_bit(w, t) ==> w >= (1u64 << (t as u64)),
        word_bit(w, t) ==> word_bit((w - (1u64 << (t as u64))) as u64, i) == (i != t && word_bit(
            w,
            i,
        )),
        word_bit(w, t) ==> ((w - (1u64 << (t as u64))) as u64) | (1u64 << (t as u64)) == w,
{
    let a = t as u64;
    let b = i as u64;
    assert(a < 64 && b < 64 ==> ((((w | (1u64 << a)) >> b) & 1 == 1) == (b == a || (w >> b) & 1
        == 1)) && ((w >> a) & 1 != 1 ==> (w | (1u64 << a)) - (1u64 << a) == w) && ((w >> a) & 1 == 1
        ==> w >= (1u64 << a) && ((((w - (1u64 << a)) as u64 >> b) & 1 == 1) == (b != a && (w >> b)
        & 1 == 1)) && ((w - (1u64 << a)) as u64) | (1u64 << a) == w)) by (bit_vector);
}

/// Storing the word that a place holds changes nothing.
pub proof fn lemma_with_same_word(block: Seq<u8>, off: int)
    requires
        0 <= off,
        off + 8 <= block.len(),
    ensures
        with_word(block, off, word_at(block, off)) == block,
{
    lemma_auto_spec_u64_to_from_le_bytes();
    let part = block.subrange(off, off + 8);
    assert(spec_u64_to_le_bytes(word_at(block, off)) == part);
    assert(with_word(block, off, word_at(block, off)) =~= block);
}

/// Storing twice at one place leaves what was stored last.
pub proof fn lemma_with_word_twice(block: Seq<u8>, off: int, a: u64, b: u64)
    requires
        0 <= off,
        off + 8 <= block.len(),
    ensures
        with_word(with_word(block, off, a), off, b) == with_word(block, off, b),
{
    assert(with_word(with_word(block, off, a), off, b) =~= with_word(block, off, b));
}

/// In a block with bit `p` set, that bit is set and every other bit is as
/// it was.
pub proof fn lemma_bit_set(block: Seq<u8>, p: int, q: int)
    requires
        block.len() == 512,
        0 <= p < 4096,
        0 <= q < 4096,
    ensures
        bit_of(with_bit_set(block, p), q) == (q == p || bit_of(block, q)),
{
    let off = (p / 64) * 8;
    let w = word_at(block, off);
    lemma_with_word(block, off, w | (1u64 << ((p % 64) as u64)));
    if q / 64 == p / 64 {
        lemma_word_set(w, p % 64, q % 64);
    } else {
        assert(((q / 64) * 8 + 8 <= off) || (off + 8 <= (q / 64) * 8));
    }
}

/// In a block with bit `p` cleared, that bit is clear and every other bit
/// is as it was.
pub proof fn lemma_bit_clear(block: Seq<u8>, p: int, q: int)
    requires
        block.len() == 512,
        0 <= p < 4096,
        0 <= q < 4096,
        bit_of(block, p),
    ensures
        bit_of(with_bit_clear(block, p), q) == (q != p && bit_of(block, q)),
{
    let off = (p / 64) * 8;
    let w = word_at(block, off);
    lemma_with_word(block, off, (w - (1u64 << ((p % 64) as u64))) as u64);
    if q / 64 == p / 64 {
        lemma_word_set(w, p % 64, q % 64);
    } else {
        assert(((q / 64) * 8 + 8 <= off) || (off + 8 <= (q / 64) * 8));
    }
}

/// Setting a clear bit of a block and clearing it again gives the block
/// back.
pub proof fn lemma_set_then_clear(block: Seq<u8>, p: int)
    requires
        block.len() == 512,
        0 <= p < 4096,
        !bit_of(block, p),
    ensures
        with_bit_clear(with_bit_set(block, p), p) == block,
{
    let off = (p / 64) * 8;
    let w = word_at(block, off);
    let m = 1u64 << ((p % 64) as u64);
    lemma_with_word(block, off, w | m);
    lemma_word_set(w, p % 64, p % 64);
    lemma_with_word_twice(block, off, w | m, w);
    lemma_with_same_word(block, off);
}

/// Clearing a set bit of a block and setting it again gives the block
/// back.
pub proof fn lemma_clear_then_set(block: Seq<u8>, p: int)
    requires
        block.len() == 512,
        0 <= p < 4096,
        bit_of(block, p),
    ensures
        with_bit_set(with_bit_clear(block, p), p) == block,
{
    let off = (p / 64) * 8;
    let w = word_at(block, off);
    let m = 1u64 << ((p % 64) as u64);
    lemma_word_set(w, p % 64, p % 64);
    lemma_with_word(block, off, (w - m) as u64);
    lemma_with_word_twice(block, off, (w - m) as u64, w);
    lemma_with_same_word(block, off);
}

/// A bitmap of `blocks` blocks of a device from block `start_block_id`
/// on.
pub struct Bitmap {
    /// Number of the first block of the bitmap.
    pub start_block_id: usize,
    /// Number of blocks of the bitmap.
    pub blocks: usize,
}

/// The parts of bit position `bit`: the block, the word in the block, and
/// the bit in the word.
pub fn decomposition(bit: usize) -> (r: (usize, usize, usize))
    ensures
        r.0 == bit / 4096,
        r.1 == (bit % 4096) / 64,
        r.2 == bit % 64,
        bit == r.0 * 4096 + r.1 * 64 + r.2,
{
    let block_pos = bit / BLOCK_BITS;
    let rest = bit % BLOCK_BITS;
    (block_pos, rest / 64, rest % 64)
}

impl Bitmap {
    /// The block of the device that holds bit `p`.
    pub open spec fn block_of(&self, p: int) -> usize {
        (self.start_block_id + p / 4096) as usize
    }

    /// Bit `p` of the bitmap, as a reader of the cache sees it.
    pub open spec fn bit<D: BlockDevice>(&self, manager: &BlockCacheManager, dev: &D, p: int) -> bool {
        bit_of(manager.view_block(dev, self.block_of(p)), p % 4096)
    }

    /// The bitmap ends within the numbers of blocks and of bits, and the
    /// device has each of its blocks.
    pub open spec fn fits<D: BlockDevice>(&self, dev: &D) -> bool {
        &&& self.start_block_id + self.blocks <= usize::MAX
        &&& self.blocks * 4096 <= usize::MAX
        &&& forall|b: int|
            0 <= b < self.blocks ==> #[trigger] dev.has_block((self.start_block_id + b) as usize)
    }

    /// Allocating a bit and giving it back at once leaves the bitmap as
    /// it was: where the blocks read after the allocation of bit `p` as
    /// `allocate` says, and after its release as `dealloc` says, every block
    /// reads in the end as it read at first. Bit `p` is clear again, so the
    /// next allocation gives the same bit.
    pub proof fn lemma_alloc_then_dealloc<D: BlockDevice>(
        &self,
        before: (&BlockCacheManager, &D),
        allocated: (&BlockCacheManager, &D),
        released: (&BlockCacheManager, &D),
        p: usize,
    )
        requires
            p < self.blocks * 4096,
            before.0.view_block(before.1, self.block_of(p as int)).len() == 512,
            !self.bit(before.0, before.1, p as int),
            forall|x: usize| #[trigger]
                allocated.0.view_block(allocated.1, x) == if x == self.block_of(p as int) {
                    with_bit_set(before.0.view_block(before.1, x), (p % 4096) as int)
                } else {
                    before.0.view_block(before.1, x)
                },
            forall|x: usize| #[trigger]
                released.0.view_block(released.1, x) == if x == self.block_of(p as int) {
                    with_bit_clear(allocated.0.view_block(allocated.1, x), (p % 4096) as int)
                } else {
                    allocated.0.view_block(allocated.1, x)
                },
        ensures
            forall|x: usize| #[trigger]
                released.0.view_block(released.1, x) == before.0.view_block(before.1, x),
            forall|q: int|
                0 <= q < self.blocks * 4096 ==> self.bit(released.0, released.1, q) == self.bit(
                    before.0,
                    before.1,
                    q,
                ),
            !self.bit(released.0, released.1, p as int),
    {
        let b = self.block_of(p as int);
        lemma_set_then_clear(before.0.view_block(before.1, b), (p % 4096) as int);
        assert forall|x: usize| #[trigger]
            released.0.view_block(released.1, x) == before.0.view_block(before.1, x) by {
            assert(allocated.0.view_block(allocated.1, x) == if x == b {
                with_bit_set(before.0.view_block(before.1, x), (p % 4096) as int)
            } else {
                before.0.view_block(before.1, x)
            });
        }
        assert forall|q: int| 0 <= q < self.blocks * 4096 implies self.bit(
            released.0,
            released.1,
            q,
        ) == self.bit(before.0, before.1, q) by {
            let x = self.block_of(q);
            assert(released.0.view_block(released.1, x) == before.0.view_block(before.1, x));
        }
    }

    /// Whether every bit of the first `b` blocks of the bitmap is set, so
    /// that a search for a clear bit goes on to block `b`.
    pub open spec fn full_below<D: BlockDevice>(
        &self,
        manager: &BlockCacheManager,
        dev: &D,
        b: int,
    ) -> bool {
        forall|q: int| 0 <= q < b * 4096 ==> self.bit(manager, dev, q)
    }

    /// Whether every block that a search for a clear bit looks at can be
    /// taken from the cache: the blocks of the bitmap from the first on, as
    /// long as every bit before is set.
    pub open spec fn scan_ready<D: BlockDevice>(&self, manager: &BlockCacheManager, dev: &D) -> bool {
        forall|b: int|
            0 <= b < self.blocks && #[trigger] self.full_below(manager, dev, b) ==> manager.can_get(
                self.block_of(b * 4096),
            )
    }

    /// A bitmap of `blocks` blocks from block `start_block_id` on.
    pub fn new(start_block_id: usize, blocks: usize) -> (r: Bitmap)
        ensures
            r.start_block_id == start_block_id,
            r.blocks == blocks,
    {
        Self { start_block_id, blocks }
    }

    /// Number of bits of the bitmap.
    pub fn maximum(&self) -> (r: usize)
        requires
            self.blocks * 4096 <= usize::MAX,
        ensures
            r == self.blocks * 4096,
    {
        self.blocks * BLOCK_BITS
    }

    /// Index of the first word of the cached block in entry `idx` that is
    /// not all ones, if there is one.
    fn first_free_word(manager: &BlockCacheManager, idx: usize) -> (r: Option<usize>)
        requires
            idx < manager.queue@.len(),
        ensures
            r matches Some(j) ==> j < 64 && word_of(
                manager.queue@[idx as int].cache.cache@,
                j as int,
            ) != u64::MAX && forall|k: int|
                0 <= k < j ==> #[trigger] word_of(manager.queue@[idx as int].cache.cache@, k)
                    == u64::MAX,
            r is None ==> forall|k: int|
                0 <= k < 64 ==> #[trigger] word_of(manager.queue@[idx as int].cache.cache@, k)
                    == u64::MAX,
    {
        let mut j: usize = 0;
        while j < 64
            invariant
                j <= 64,
                idx < manager.queue@.len(),
                forall|k: int|
                    0 <= k < j ==> #[trigger] word_of(manager.queue@[idx as int].cache.cache@, k)
                        == u64::MAX,
            decreases 64 - j,
        {
            if manager.read_u64(idx, j * 8) != u64::MAX {
                return Some(j);
            }
            j += 1;
        }
        None
    }

    /// Sets the lowest clear bit of the bitmap and gives its position, or
    /// gives nothing where every bit is set. Each block that the search
    /// looks at is taken from the cache and given back: every block keeps the
    /// holders that it has.
    pub fn allocate<D: BlockDevice>(
        &self,
        manager: &mut BlockCacheManager,
        block_device: &mut D,
    ) -> (r: Option<usize>)
        requires
            old(manager).wf(old(block_device)),
            self.scan_ready(old(manager), old(block_device)),
            self.fits(old(block_device)),
        ensures
            final(manager).wf(final(block_device)),
            forall|x: usize| #[trigger] final(manager).holders(x) == old(manager).holders(x),
            forall|x: usize| old(manager).can_get(x) ==> #[trigger] final(manager).can_get(x),
            old(manager).all_released() ==> final(manager).all_released(),
            self.fits(final(block_device)),
            forall|x: usize| #[trigger]
                final(block_device).has_block(x) == old(block_device).has_block(x),
            r matches Some(p) ==> {
                &&& p < self.blocks * 4096
                &&& !self.bit(old(manager), old(block_device), p as int)
                &&& forall|q: int| 0 <= q < p ==> self.bit(old(manager), old(block_device), q)
                &&& forall|x: usize| #[trigger]
                    final(manager).view_block(final(block_device), x) == if x == self.block_of(
                        p as int,
                    ) {
                        with_bit_set(old(manager).view_block(old(block_device), x), (p % 4096) as int)
                    } else {
                        old(manager).view_block(old(block_device), x)
                    }
            },
            r is None ==> {
                &&& forall|q: int|
                    0 <= q < self.blocks * 4096 ==> self.bit(old(manager), old(block_device), q)
                &&& forall|x: usize| #[trigger]
                    final(manager).view_block(final(block_device), x) == old(manager).view_block(
                        old(block_device),
                        x,
                    )
            },
    {
        let mut block_id: usize = 0;
        while block_id < self.blocks
            invariant
                block_id <= self.blocks,
                manager.wf(block_device),
                self.scan_ready(old(manager), old(block_device)),
                forall|x: usize| #[trigger] manager.holders(x) == old(manager).holders(x),
                forall|x: usize| old(manager).can_get(x) ==> #[trigger] manager.can_get(x),
                old(manager).all_released() ==> manager.all_released(),
                self.fits(old(block_device)),
                forall|x: usize| #[trigger] block_device.has_block(x) == old(block_device).has_block(x),
                forall|x: usize| #[trigger]
                    manager.view_block(block_device, x) == old(manager).view_block(
                        old(block_device),
                        x,
                    ),
                forall|q: int|
                    0 <= q < block_id * 4096 ==> self.bit(old(manager), old(block_device), q),
            decreases self.blocks - block_id,
        {
            let id = block_id + self.start_block_id;
            proof {
                assert(old(block_device).has_block((self.start_block_id + block_id as int) as usize));
                assert(self.full_below(old(manager), old(block_device), block_id as int));
                assert(self.block_of(block_id * 4096) == id);
                assert(old(manager).can_get(id));
                assert(manager.can_get(id));
            }
            let ghost m0 = *manager;
            let ghost d0 = *block_device;
            let idx = manager.get_block_cache(id, block_device);
            let ghost m1 = *manager;
            let ghost d1 = *block_device;
            let ghost view = old(manager).view_block(old(block_device), id);
            proof {
                m1.lemma_index(&d1, idx as int);
                assert(m1.queue@[idx as int].cache.cache@ == view);
                assert(m1.view_block(&d1, id) == view);
            }
            let found = Self::first_free_word(manager, idx);
            match found {
                Some(j) => {
                    let w = manager.read_u64(idx, j * 8);
                    proof {
                        broadcast use vstd::std_specs::bits::axiom_u64_trailing_ones;

                    }
                    let inner = w.trailing_ones() as usize;
                    proof {
                        assert(inner < 64);
                        assert(!word_bit(w, inner as int));
                    }
                    manager.write_u64(idx, j * 8, w | (1u64 << (inner as u64)), block_device);
                    let ghost m2 = *manager;
                    manager.release(id);
                    let p = block_id * BLOCK_BITS + j * 64 + inner;
                    proof {
                        assert(p / 4096 == block_id && p % 4096 == j * 64 + inner) by (nonlinear_arith)
                            requires
                                p == block_id * 4096 + j * 64 + inner,
                                j < 64,
                                inner < 64,
                        ;
                        assert((p % 4096) / 64 == j && (p % 4096) % 64 == inner);
                        assert(self.block_of(p as int) == id);
                        BlockCacheManager::lemma_borrowed(
                            &m0,
                            &d0,
                            &m1,
                            &m2,
                            manager,
                            block_device,
                            id,
                            idx as int,
                        );
                        assert forall|x: usize| #[trigger]
                            manager.holders(x) == old(manager).holders(x) by {
                            assert(m0.holders(x) == old(manager).holders(x));
                        }
                        assert forall|x: usize| old(manager).can_get(x) implies #[trigger] manager.can_get(
                            x,
                        ) by {
                            assert(m0.can_get(x));
                        }
                        assert forall|q: int| 0 <= q < p implies self.bit(
                            old(manager),
                            old(block_device),
                            q,
                        ) by {
                            if q >= block_id * 4096 {
                                assert(q / 4096 == block_id);
                                let qq = q % 4096;
                                let k = qq / 64;
                                let i = qq % 64;
                                if k < j {
                                    assert(word_of(view, k) == u64::MAX);
                                    lemma_full_word(i);
                                } else {
                                    assert(k == j);
                                    assert(i < inner);
                                    assert((w >> (i as u64)) & 1u64 == 1u64);
                                }
                            }
                        }
                        assert forall|x: usize| #[trigger]
                            manager.view_block(block_device, x) == if x == self.block_of(p as int) {
                                with_bit_set(old(manager).view_block(old(block_device), x), (p % 4096) as int)
                            } else {
                                old(manager).view_block(old(block_device), x)
                            } by {
                            assert(manager.view_block(block_device, x) == m2.view_block(
                                block_device,
                                x,
                            ));
                            assert(m1.view_block(&d1, x) == old(manager).view_block(
                                old(block_device),
                                x,
                            ));
                        }
                    }
                    return Some(p);
                },
                None => {
                    let ghost m2 = *manager;
                    manager.release(id);
                    proof {
                        BlockCacheManager::lemma_borrowed(
                            &m0,
                            &d0,
                            &m1,
                            &m2,
                            manager,
                            block_device,
                            id,
                            idx as int,
                        );
                        assert forall|x: usize| #[trigger]
                            manager.holders(x) == old(manager).holders(x) by {
                            assert(m0.holders(x) == old(manager).holders(x));
                        }
                        assert forall|x: usize| old(manager).can_get(x) implies #[trigger] manager.can_get(
                            x,
                        ) by {
                            assert(m0.can_get(x));
                        }
                        assert forall|x: usize| #[trigger]
                            manager.view_block(block_device, x) == old(manager).view_block(
                                old(block_device),
                                x,
                            ) by {
                            assert(manager.view_block(block_device, x) == m2.view_block(
                                block_device,
                                x,
                            ));
                            assert(m1.view_block(&d1, x) == old(manager).view_block(
                                old(block_device),
                                x,
                            ));
                        }
                        assert forall|q: int| 0 <= q < (block_id + 1) * 4096 implies self.bit(
                            old(manager),
                            old(block_device),
                            q,
                        ) by {
                            if q >= block_id * 4096 {
                                assert(q / 4096 == block_id);
                                let qq = q % 4096;
                                let k = qq / 64;
                                let i = qq % 64;
                                assert(word_of(view, k) == u64::MAX);
                                lemma_full_word(i);
                            }
                        }
                    }
                },
            }
            block_id += 1;
        }
        None
    }

    /// Clears bit `bit` of the bitmap, which is set. The block of the bit
    /// is taken from the cache and given back: every block keeps the holders
    /// that it has.
    pub fn dealloc<D: BlockDevice>(
        &self,
        manager: &mut BlockCacheManager,
        block_device: &mut D,
        bit: usize,
    )
        requires
            old(manager).wf(old(block_device)),
            old(manager).can_get(self.block_of(bit as int)),
            self.fits(old(block_device)),
            bit < self.blocks * 4096,
            self.bit(old(manager), old(block_device), bit as int),
        ensures
            final(manager).wf(final(block_device)),
            forall|x: usize| #[trigger] final(manager).holders(x) == old(manager).holders(x),
            forall|x: usize| old(manager).can_get(x) ==> #[trigger] final(manager).can_get(x),
            old(manager).all_released() ==> final(manager).all_released(),
            self.fits(final(block_device)),
            forall|x: usize| #[trigger]
                final(block_device).has_block(x) == old(block_device).has_block(x),
            forall|x: usize| #[trigger]
                final(manager).view_block(final(block_device), x) == if x == self.block_of(bit as int) {
                    with_bit_clear(old(manager).view_block(old(block_device), x), (bit % 4096) as int)
                } else {
                    old(manager).view_block(old(block_device), x)
                },
    {
        let (block_pos, bits64_pos, inner_pos) = decomposition(bit);
        let id = block_pos + self.start_block_id;
        proof {
            assert(old(block_device).has_block((self.start_block_id + block_pos as int) as usize));
            assert(self.block_of(bit as int) == id);
        }
        let idx = manager.get_block_cache(id, block_device);
        let ghost m1 = *manager;
        let ghost d1 = *block_device;
        let ghost view = old(manager).view_block(old(block_device), id);
        proof {
            m1.lemma_index(&d1, idx as int);
            assert(m1.view_block(&d1, id) == view);
        }
        let w = manager.read_u64(idx, bits64_pos * 8);
        proof {
            assert(word_bit(w, inner_pos as int));
            lemma_word_set(w, inner_pos as int, inner_pos as int);
        }
        manager.write_u64(idx, bits64_pos * 8, w - (1u64 << (inner_pos as u64)), block_device);
        let ghost m2 = *manager;
        manager.release(id);
        proof {
            BlockCacheManager::lemma_borrowed(
                old(manager),
                old(block_device),
                &m1,
                &m2,
                manager,
                block_device,
                id,
                idx as int,
            );
            assert forall|x: usize| #[trigger]
                manager.view_block(block_device, x) == if x == self.block_of(bit as int) {
                    with_bit_clear(old(manager).view_block(old(block_device), x), (bit % 4096) as int)
                } else {
                    old(manager).view_block(old(block_device), x)
                } by {
                assert(manager.view_block(block_device, x) == m2.view_block(block_device, x));
                assert(m1.view_block(&d1, x) == old(manager).view_block(old(block_device), x));
            }
        }
    }
}

} // verus!
