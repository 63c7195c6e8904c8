//! A cache of at most sixteen blocks of a block device.
use crate::fs::block_dev::BlockDevice;
use crate::mm::frame_allocator::{with_word, word_at};
use vstd::bytes::{spec_u64_to_le_bytes, u64_from_le_bytes, u64_to_le_bytes};
use vstd::prelude::*;
use vstd::slice::slice_subrange;

verus! {

/// `bytes` with the bytes from `offset` on replaced by `part`.
pub open spec fn spliced(bytes: Seq<u8>, offset: int, part: Seq<u8>) -> Seq<u8> {
    Seq::new(
        bytes.len(),
        |i: int|
            if offset <= i < offset + part.len() {
                part[i - offset]
            } else {
                bytes[i]
            },
    )
}

/// A block of a device, held in memory.
pub struct BlockCache {
    /// The bytes of the block as the cache has them.
    pub cache: [u8; 512],
    /// Number of the block on its device.
    pub block_id: usize,
    /// Whether the bytes were changed since they were read or written
    /// back.
    pub modified: bool,
}

impl BlockCache {
    /// Loads block `block_id` of the device.
    pub fn new<D: BlockDevice>(block_id: usize, block_device: &D) -> (r: Self)
        requires
            block_device.has_block(block_id),
        ensures
            r.cache@ == block_device.block(block_id),
            r.block_id == block_id,
            !r.modified,
    {
        let mut cache = [0u8;512];
        block_device.read_block(block_id, &mut cache);
        Self { cache, block_id, modified: false }
    }

    /// The byte at `offset`, for reading.
    pub fn get_ref(&self, offset: usize) -> (r: &u8)
        requires
            offset < 512,
        ensures
            *r == self.cache@[offset as int],
    {
        &self.cache[offset]
    }

    /// The byte at `offset`, for reading and writing. The block is marked
    /// as changed.
    pub fn get_mut(&mut self, offset: usize) -> (r: &mut u8)
        requires
            offset < 512,
        ensures
            *r == old(self).cache@[offset as int],
            final(self).cache@ == old(self).cache@.update(offset as int, *final(r)),
            final(self).block_id == old(self).block_id,
            final(self).modified,
    {
        self.modified = true;
        &mut self.cache[offset]
    }

    /// Hands the `len` bytes at `offset` to `f` and gives what `f`
    /// returns.
    pub fn read<V, F: FnOnce(&[u8]) -> V>(&self, offset: usize, len: usize, f: F) -> (r: V)
        requires
            offset + len <= 512,
            forall|s: &[u8]| s@ == self.cache@.subrange(offset as int, offset + len) ==> call_requires(
                f,
                (s,),
            ),
        ensures
            exists|s: &[u8]|
                s@ == self.cache@.subrange(offset as int, offset + len) && call_ensures(f, (s,), r),
    {
        let s = slice_subrange(self.cache.as_slice(), offset, offset + len);
        f(s)
    }

    /// Hands a copy of the `len` bytes at `offset` to `f`, stores the
    /// bytes that `f` gives back in their place, marks the block as changed
    /// and gives the value that `f` returns beside them.
    pub fn modify<V, F: FnOnce(Vec<u8>) -> (Vec<u8>, V)>(
        &mut self,
        offset: usize,
        len: usize,
        f: F,
    ) -> (r: V)
        requires
            offset + len <= 512,
            forall|v: Vec<u8>|
                v@ == old(self).cache@.subrange(offset as int, offset + len) ==> call_requires(
                    f,
                    (v,),
                ),
            forall|v: Vec<u8>, out: (Vec<u8>, V)| call_ensures(f, (v,), out) ==> out.0@.len() == len,
        ensures
            final(self).block_id == old(self).block_id,
            final(self).modified,
            exists|v: Vec<u8>, w: Vec<u8>|
                v@ == old(self).cache@.subrange(offset as int, offset + len) && call_ensures(
                    f,
                    (v,),
                    (w, r),
                ) && final(self).cache@ == spliced(old(self).cache@, offset as int, w@),
    {
        let mut v: Vec<u8> = Vec::new();
        let mut i: usize = 0;
        while i < len
            invariant
                i <= len,
                offset + len <= 512,
                v@ == self.cache@.subrange(offset as int, offset + i),
            decreases len - i,
        {
            v.push(self.cache[offset + i]);
            assert(v@ =~= self.cache@.subrange(offset as int, offset + i + 1));
            i += 1;
        }
        let ghost input = v;
        let (w, r) = f(v);
        self.modified = true;
        let mut j: usize = 0;
        while j < len
            invariant
                j <= len,
                offset + len <= 512,
                w@.len() == len,
                self.block_id == old(self).block_id,
                self.modified,
                forall|k: int|
                    0 <= k < 512 ==> self.cache@[k] == if offset <= k < offset + j {
                        w@[k - offset]
                    } else {
                        old(self).cache@[k]
                    },
            decreases len - j,
        {
            self.cache[offset + j] = w[j];
            j += 1;
        }
        assert(self.cache@ =~= spliced(old(self).cache@, offset as int, w@));
        r
    }

    /// The little-endian 64-bit word at `offset`.
    pub fn read_u64(&self, offset: usize) -> (r: u64)
        requires
            offset + 8 <= 512,
        ensures
            r == word_at(self.cache@, offset as int),
    {
        u64_from_le_bytes(slice_subrange(self.cache.as_slice(), offset, offset + 8))
    }

    /// Stores `v` as a little-endian 64-bit word at `offset` and marks the
    /// block as changed.
    pub fn write_u64(&mut self, offset: usize, v: u64)
        requires
            offset + 8 <= 512,
        ensures
            final(self).block_id == old(self).block_id,
            final(self).modified,
            final(self).cache@ == with_word(old(self).cache@, offset as int, v),
    {
        let src = u64_to_le_bytes(v);
        self.modified = true;
        let mut i: usize = 0;
        while i < 8
            invariant
                i <= 8,
                offset + 8 <= 512,
                self.block_id == old(self).block_id,
                self.modified,
                src@ == spec_u64_to_le_bytes(v),
                src@.len() == 8,
                forall|j: int|
                    0 <= j < 512 ==> self.cache@[j] == if offset <= j < offset + i {
                        src@[j - offset]
                    } else {
                        old(self).cache@[j]
                    },
            decreases 8 - i,
        {
            self.cache[offset + i] = src[i];
            i += 1;
        }
        assert(self.cache@ =~= with_word(old(self).cache@, offset as int, v));
    }

    /// Writes the block back to the device if it was changed.
    pub fn sync<D: BlockDevice>(&mut self, block_device: &mut D)
        requires
            old(block_device).has_block(old(self).block_id),
        ensures
            final(self).cache == old(self).cache,
            final(self).block_id == old(self).block_id,
            !final(self).modified,
            forall|other: usize| #[trigger]
                final(block_device).has_block(other) == old(block_device).has_block(other),
            forall|other: usize|
                other != old(self).block_id ==> #[trigger] final(block_device).block(other) == old(block_device).block(other),
            final(block_device).block(old(self).block_id) == if old(self).modified {
                old(self).cache@
            } else {
                old(block_device).block(old(self).block_id)
            },
    {
        if self.modified {
            self.modified = false;
            block_device.write_block(self.block_id, &self.cache);
        }
    }
}

/// Number of blocks that the cache can hold.
pub const BLOCK_CACHE_SIZE: usize = 16;

/// A cached block with its number and the count of those who hold it.
pub struct CacheEntry {
    /// Number of the block.
    pub block_id: usize,
    /// The block.
    pub cache: BlockCache,
    /// Number of holders of the block beside the manager. A block with a
    /// holder is not evicted.
    pub users: usize,
}

/// The cached blocks of a device, oldest first.
pub struct BlockCacheManager {
    /// The cached blocks in the order in which they were loaded.
    pub queue: Vec<CacheEntry>,
}

impl BlockCacheManager {
    /// Whether block `id` is cached.
    pub open spec fn cached(&self, id: usize) -> bool {
        exists|i: int| 0 <= i < self.queue@.len() && (#[trigger] self.queue@[i]).block_id == id
    }

    /// Index of the entry of block `id`.
    pub open spec fn index_of(&self, id: usize) -> int {
        choose|i: int| 0 <= i < self.queue@.len() && (#[trigger] self.queue@[i]).block_id == id
    }

    /// The bytes of block `id` as a reader of the cache sees them: those
    /// of the cached block where there is one, else those on the device.
    pub open spec fn view_block<D: BlockDevice>(&self, dev: &D, id: usize) -> Seq<u8> {
        if self.cached(id) {
            self.queue@[self.index_of(id)].cache.cache@
        } else {
            dev.block(id)
        }
    }

    /// At most sixteen blocks are cached, each once and each a block of
    /// the device; a cached block that is not marked as changed holds what
    /// the device holds.
    pub open spec fn wf<D: BlockDevice>(&self, dev: &D) -> bool {
        &&& self.queue@.len() <= 16
        &&& forall|i: int|
            0 <= i < self.queue@.len() ==> (#[trigger] self.queue@[i]).cache.block_id
                == self.queue@[i].block_id && dev.has_block(self.queue@[i].block_id)
        &&& forall|i: int, j: int|
            0 <= i < j < self.queue@.len() ==> (#[trigger] self.queue@[i]).block_id != (
            #[trigger] self.queue@[j]).block_id
        &&& forall|i: int|
            0 <= i < self.queue@.len() && !(#[trigger] self.queue@[i]).cache.modified
                ==> self.queue@[i].cache.cache@ == dev.block(self.queue@[i].block_id)
    }

    /// Whether some cached block has no holder.
    pub open spec fn has_free(&self) -> bool {
        exists|i: int| 0 <= i < self.queue@.len() && (#[trigger] self.queue@[i]).users == 0
    }

    /// Index of the oldest cached block without a holder.
    pub open spec fn first_free(&self) -> int {
        choose|i: int|
            0 <= i < self.queue@.len() && (#[trigger] self.queue@[i]).users == 0 && forall|j: int|
                0 <= j < i ==> (#[trigger] self.queue@[j]).users != 0
    }

    /// Number of the holders of block `id`; zero where it is not cached.
    pub open spec fn holders(&self, id: usize) -> int {
        if self.cached(id) {
            self.queue@[self.index_of(id)].users as int
        } else {
            0
        }
    }

    /// Whether block `id` can be taken from the cache: where it is cached,
    /// it can have one holder more; where it is not, the cache is not full
    /// or has a block without a holder to give up.
    pub open spec fn can_get(&self, id: usize) -> bool {
        if self.cached(id) {
            self.queue@[self.index_of(id)].users < usize::MAX
        } else {
            self.queue@.len() < 16 || self.has_free()
        }
    }

    /// Taking block `id` from the cache, using it and giving it back
    /// leaves every block with the holders that it had, and every block that
    /// could be taken before can be taken after. `got` is the cache after
    /// the block was taken, into entry `idx`; `used` is the cache after the
    /// block was read or written; `after` is the cache after the block was
    /// given back.
    pub proof fn lemma_borrowed<D: BlockDevice>(
        before: &Self,
        before_dev: &D,
        got: &Self,
        used: &Self,
        after: &Self,
        dev: &D,
        id: usize,
        idx: int,
    )
        requires
            before.wf(before_dev),
            before.can_get(id),
            used.wf(dev),
            0 <= idx < got.queue@.len(),
            got.queue@[idx].block_id == id,
            before.cached(id) ==> {
                &&& idx == before.index_of(id)
                &&& got.queue@.len() == before.queue@.len()
                &&& got.queue@[idx].users == before.queue@[idx].users + 1
                &&& forall|i: int|
                    0 <= i < before.queue@.len() && i != idx ==> #[trigger] got.queue@[i]
                        == before.queue@[i]
            },
            !before.cached(id) ==> {
                &&& idx == got.queue@.len() - 1
                &&& got.queue@[idx].users == 1
                &&& got.queue@.drop_last() == if before.queue@.len() == 16 {
                    before.queue@.remove(before.first_free())
                } else {
                    before.queue@
                }
            },
            used.queue@.len() == got.queue@.len(),
            forall|i: int|
                0 <= i < got.queue@.len() ==> (#[trigger] used.queue@[i]).block_id
                    == got.queue@[i].block_id && used.queue@[i].users == got.queue@[i].users,
            after.queue@.len() == used.queue@.len(),
            forall|i: int|
                0 <= i < used.queue@.len() ==> (#[trigger] after.queue@[i]).block_id
                    == used.queue@[i].block_id && after.queue@[i].cache == used.queue@[i].cache,
            forall|i: int|
                0 <= i < used.queue@.len() ==> (#[trigger] after.queue@[i]).users == if used.queue@[i].block_id
                    == id && used.queue@[i].users > 0 && forall|j: int|
                    0 <= j < i ==> used.queue@[j].block_id != id {
                    (used.queue@[i].users - 1) as usize
                } else {
                    used.queue@[i].users
                },
        ensures
            after.wf(dev),
            forall|x: usize| #[trigger] after.view_block(dev, x) == used.view_block(dev, x),
            forall|x: usize| #[trigger] after.holders(x) == before.holders(x),
            forall|x: usize| before.can_get(x) ==> #[trigger] after.can_get(x),
            before.all_released() ==> after.all_released(),
    {
        let n = after.queue@.len() as int;
        assert forall|i: int| 0 <= i < n implies (#[trigger] after.queue@[i]).cache.block_id
            == after.queue@[i].block_id && dev.has_block(after.queue@[i].block_id) && (
        !after.queue@[i].cache.modified ==> after.queue@[i].cache.cache@ == dev.block(
            after.queue@[i].block_id,
        )) by {
            assert(used.queue@[i].cache.block_id == used.queue@[i].block_id);
        }
        assert forall|i: int, j: int| 0 <= i < j < n implies (#[trigger] after.queue@[i]).block_id != (
        #[trigger] after.queue@[j]).block_id by {
            assert(used.queue@[i].block_id != used.queue@[j].block_id);
        }
        assert(after.wf(dev));
        assert forall|x: usize| #[trigger] after.view_block(dev, x) == used.view_block(dev, x) by {
            if used.cached(x) {
                let o = used.index_of(x);
                used.lemma_index(dev, o);
                assert(after.queue@[o].block_id == x);
                after.lemma_index(dev, o);
            } else if after.cached(x) {
                let o = after.index_of(x);
                assert(used.queue@[o].block_id == x);
            }
        }
        // the entry of the block has the holders that it had before it was taken
        assert forall|j: int| 0 <= j < idx implies used.queue@[j].block_id != id by {
            assert(used.queue@[j].block_id != used.queue@[idx].block_id);
        }
        assert(after.queue@[idx].users == got.queue@[idx].users - 1);
        assert forall|i: int| 0 <= i < n && i != idx implies (#[trigger] after.queue@[i]).users
            == got.queue@[i].users by {
            assert(used.queue@[i].block_id != used.queue@[idx].block_id);
        }
        assert forall|i: int| 0 <= i < n implies (#[trigger] after.queue@[i]).block_id
            == got.queue@[i].block_id by {
            assert(used.queue@[i].block_id == got.queue@[i].block_id);
        }
        if before.cached(id) {
            assert forall|i: int| 0 <= i < n implies (#[trigger] after.queue@[i]).block_id
                == before.queue@[i].block_id && after.queue@[i].users == before.queue@[i].users by {
                if i != idx {
                    assert(got.queue@[i] == before.queue@[i]);
                } else {
                    before.lemma_index(before_dev, before.index_of(id));
                }
            }
            assert forall|x: usize| #[trigger] after.cached(x) == before.cached(x) by {
                if before.cached(x) {
                    let o = before.index_of(x);
                    assert(after.queue@[o].block_id == x);
                }
                if after.cached(x) {
                    let o = after.index_of(x);
                    assert(before.queue@[o].block_id == x);
                }
            }
            assert forall|x: usize| #[trigger] after.holders(x) == before.holders(x) by {
                assert(after.cached(x) == before.cached(x));
                if before.cached(x) {
                    let o = before.index_of(x);
                    assert(after.queue@[o].block_id == x);
                    before.lemma_index(before_dev, o);
                    after.lemma_index(dev, o);
                }
            }
            if before.has_free() {
                let f = choose|f: int|
                    0 <= f < before.queue@.len() && (#[trigger] before.queue@[f]).users == 0;
                assert(after.queue@[f].users == 0);
            }
            assert forall|x: usize| before.can_get(x) implies #[trigger] after.can_get(x) by {
                assert(after.cached(x) == before.cached(x));
                assert(after.holders(x) == before.holders(x));
            }
            if before.all_released() {
                assert forall|i: int| 0 <= i < n implies (#[trigger] after.queue@[i]).users == 0 by {
                    assert(before.queue@[i].users == 0);
                }
            }
        } else {
            let full = before.queue@.len() == 16;
            let ff = before.first_free();
            let rest = got.queue@.drop_last();
            assert(after.queue@[idx].users == 0);
            assert(after.has_free());
            if full {
                assert(before.has_free());
                assert(0 <= ff < 16 && before.queue@[ff].users == 0);
                assert(rest == before.queue@.remove(ff));
                assert(rest.len() == 15);
            } else {
                assert(rest == before.queue@);
            }
            assert(rest.len() == idx);
            assert forall|k: int| 0 <= k < idx implies rest[k] == #[trigger] got.queue@[k] by {}
            // where an entry of the cache before is found after
            assert forall|o: int| 0 <= o < before.queue@.len() && !(full && o == ff) implies ({
                let k = if full && o > ff {
                    o - 1
                } else {
                    o
                };
                0 <= k < idx && #[trigger] before.queue@[o] == got.queue@[k]
            }) by {
                let k = if full && o > ff {
                    o - 1
                } else {
                    o
                };
                assert(rest[k] == got.queue@[k]);
            }
            assert forall|k: int| 0 <= k < idx implies ({
                let o = if full && k >= ff {
                    k + 1
                } else {
                    k
                };
                0 <= o < before.queue@.len() && !(full && o == ff) && #[trigger] got.queue@[k]
                    == before.queue@[o]
            }) by {
                assert(rest[k] == got.queue@[k]);
            }
            assert forall|x: usize| #[trigger] after.holders(x) == before.holders(x) by {
                if x == id {
                    after.lemma_index(dev, idx);
                } else if before.cached(x) {
                    let o = before.index_of(x);
                    before.lemma_index(before_dev, o);
                    if full && o == ff {
                        if after.cached(x) {
                            let k = after.index_of(x);
                            assert(got.queue@[k].block_id == x);
                            let o2 = if full && k >= ff {
                                k + 1
                            } else {
                                k
                            };
                            assert(got.queue@[k] == before.queue@[o2]);
                            assert(before.queue@[o2].block_id == before.queue@[ff].block_id);
                            if o2 < ff {
                                assert(before.queue@[o2].block_id != before.queue@[ff].block_id);
                            } else {
                                assert(before.queue@[ff].block_id != before.queue@[o2].block_id);
                            }
                        }
                    } else {
                        let k = if full && o > ff {
                            o - 1
                        } else {
                            o
                        };
                        assert(before.queue@[o] == got.queue@[k]);
                        assert(after.queue@[k].block_id == x);
                        after.lemma_index(dev, k);
                        assert(after.queue@[k].users == got.queue@[k].users);
                    }
                } else if after.cached(x) {
                    let k = after.index_of(x);
                    assert(got.queue@[k].block_id == x);
                    assert(k != idx);
                    let o2 = if full && k >= ff {
                        k + 1
                    } else {
                        k
                    };
                    assert(got.queue@[k] == before.queue@[o2]);
                    assert(before.queue@[o2].block_id == x);
                }
            }
            assert forall|x: usize| before.can_get(x) implies #[trigger] after.can_get(x) by {
                assert(after.holders(x) == before.holders(x));
                if after.cached(x) {
                    let k = after.index_of(x);
                    if k == idx {
                        assert(after.queue@[k].users == 0);
                    } else {
                        assert(got.queue@[k].block_id == x);
                        let o2 = if full && k >= ff {
                            k + 1
                        } else {
                            k
                        };
                        assert(got.queue@[k] == before.queue@[o2]);
                        assert(before.queue@[o2].block_id == x);
                        before.lemma_index(before_dev, o2);
                    }
                }
            }
            if before.all_released() {
                assert forall|k: int| 0 <= k < n implies (#[trigger] after.queue@[k]).users == 0 by {
                    if k != idx {
                        let o2 = if full && k >= ff {
                            k + 1
                        } else {
                            k
                        };
                        assert(got.queue@[k] == before.queue@[o2]);
                        assert(before.queue@[o2].users == 0);
                    }
                }
            }
        }
    }

    /// Whether no cached block has a holder.
    pub open spec fn all_released(&self) -> bool {
        forall|i: int| 0 <= i < self.queue@.len() ==> (#[trigger] self.queue@[i]).users == 0
    }

    /// In a well-formed cache a block has one entry only.
    pub proof fn lemma_index<D: BlockDevice>(&self, dev: &D, i: int)
        requires
            self.wf(dev),
            0 <= i < self.queue@.len(),
        ensures
            self.cached(self.queue@[i].block_id),
            self.index_of(self.queue@[i].block_id) == i,
            self.view_block(dev, self.queue@[i].block_id) == self.queue@[i].cache.cache@,
    {
        let id = self.queue@[i].block_id;
        let j = self.index_of(id);
        if j < i {
            assert(self.queue@[j].block_id != self.queue@[i].block_id);
        } else if i < j {
            assert(self.queue@[i].block_id != self.queue@[j].block_id);
        }
    }

    /// A well-formed cache holds at most sixteen blocks, and each cached
    /// block that is not marked as changed holds what the device holds for
    /// its number.
    pub proof fn lemma_coherent<D: BlockDevice>(&self, dev: &D, i: int)
        requires
            self.wf(dev),
            0 <= i < self.queue@.len(),
        ensures
            self.queue@.len() <= 16,
            dev.has_block(self.queue@[i].block_id),
            !self.queue@[i].cache.modified ==> self.queue@[i].cache.cache@ == dev.block(
                self.queue@[i].block_id,
            ),
    {
    }

    /// A cache with no block.
    pub fn new() -> (r: Self)
        ensures
            r.queue@.len() == 0,
    {
        Self { queue: Vec::new() }
    }

    /// Index of the entry of block `block_id`, if it is cached.
    pub fn find(&self, block_id: usize) -> (r: Option<usize>)
        ensures
            r is Some <==> self.cached(block_id),
            r matches Some(i) ==> i < self.queue@.len() && self.queue@[i as int].block_id
                == block_id,
    {
        let mut i: usize = 0;
        while i < self.queue.len()
            invariant
                i <= self.queue@.len(),
                forall|j: int| 0 <= j < i ==> (#[trigger] self.queue@[j]).block_id != block_id,
            decreases self.queue@.len() - i,
        {
            if self.queue[i].block_id == block_id {
                return Some(i);
            }
            i += 1;
        }
        None
    }

    /// Index of the oldest entry without a holder, if there is one.
    pub fn find_free(&self) -> (r: Option<usize>)
        ensures
            r is Some <==> self.has_free(),
            r matches Some(i) ==> i == self.first_free() && i < self.queue@.len()
                && self.queue@[i as int].users == 0,
    {
        let mut i: usize = 0;
        while i < self.queue.len()
            invariant
                i <= self.queue@.len(),
                forall|j: int| 0 <= j < i ==> (#[trigger] self.queue@[j]).users != 0,
            decreases self.queue@.len() - i,
        {
            if self.queue[i].users == 0 {
                proof {
                    let c = self.first_free();
                    if c < i {
                        assert(self.queue@[c].users != 0);
                    } else if i < c {
                        assert(self.queue@[i as int].users != 0);
                    }
                }
                return Some(i);
            }
            i += 1;
        }
        None
    }

    /// Whether block `block_id` can be taken from the cache.
    pub fn can_take<D: BlockDevice>(&self, block_id: usize, block_device: &D) -> (r: bool)
        requires
            self.wf(block_device),
        ensures
            r == self.can_get(block_id),
    {
        match self.find(block_id) {
            Some(i) => {
                proof {
                    self.lemma_index(block_device, i as int);
                }
                self.queue[i].users < usize::MAX
            },
            None => self.queue.len() < 16 || self.find_free().is_some(),
        }
    }

    /// The index of the entry of block `block_id`, which gets one holder
    /// more. A block that is not cached is loaded from the device and added
    /// as the newest entry; where sixteen blocks are cached already, the
    /// oldest one without a holder is written back if it was changed, and
    /// leaves the cache.
    pub fn get_block_cache<D: BlockDevice>(&mut self, block_id: usize, block_device: &mut D) -> (r:
        usize)
        requires
            old(self).wf(old(block_device)),
            old(block_device).has_block(block_id),
            old(self).can_get(block_id),
        ensures
            final(self).wf(final(block_device)),
            r < final(self).queue@.len(),
            final(self).queue@[r as int].block_id == block_id,
            forall|x: usize| #[trigger]
                final(block_device).has_block(x) == old(block_device).has_block(x),
            forall|x: usize| #[trigger]
                final(self).view_block(final(block_device), x) == old(self).view_block(
                    old(block_device),
                    x,
                ),
            old(self).all_released() ==> final(self).queue@[r as int].users == 1 && forall|i: int|
                0 <= i < final(self).queue@.len() && i != r ==> (#[trigger] final(self).queue@[i]).users
                    == 0,
            old(self).cached(block_id) ==> {
                &&& r == old(self).index_of(block_id)
                &&& final(self).queue@.len() == old(self).queue@.len()
                &&& final(self).queue@[r as int].cache == old(self).queue@[r as int].cache
                &&& final(self).queue@[r as int].users == old(self).queue@[r as int].users + 1
                &&& forall|i: int|
                    0 <= i < old(self).queue@.len() && i != r ==> #[trigger] final(self).queue@[i]
                        == old(self).queue@[i]
                &&& forall|x: usize| #[trigger]
                    final(block_device).block(x) == old(block_device).block(x)
            },
            !old(self).cached(block_id) ==> {
                &&& r == final(self).queue@.len() - 1
                &&& final(self).queue@[r as int].users == 1
                &&& !final(self).queue@[r as int].cache.modified
                &&& final(self).queue@[r as int].cache.cache@ == old(block_device).block(block_id)
                &&& final(self).queue@.drop_last() == if old(self).queue@.len() == 16 {
                    old(self).queue@.remove(old(self).first_free())
                } else {
                    old(self).queue@
                }
                &&& forall|x: usize|
                    !(old(self).queue@.len() == 16 && x == old(self).queue@[old(self).first_free()].block_id) ==> #[trigger] final(block_device).block(x) == old(block_device).block(x)
            },
    {
        match self.find(block_id) {
            Some(i) => {
                proof {
                    old(self).lemma_index(old(block_device), i as int);
                }
                self.queue[i].users += 1;
                proof {
                    if old(self).all_released() {
                        assert forall|k: int| 0 <= k < self.queue@.len() && k != i implies (
                        #[trigger] self.queue@[k]).users == 0 by {
                            assert(self.queue@[k] == old(self).queue@[k]);
                        }
                    }
                    assert forall|x: usize| #[trigger]
                        self.view_block(block_device, x) == old(self).view_block(
                            old(block_device),
                            x,
                        ) by {
                        if old(self).cached(x) {
                            let k = old(self).index_of(x);
                            old(self).lemma_index(old(block_device), k);
                            assert(self.queue@[k].block_id == x);
                            self.lemma_index(block_device, k);
                        } else if self.cached(x) {
                            let k = self.index_of(x);
                            assert(old(self).queue@[k].block_id == x);
                        }
                    }
                }
                i
            },
            None => {
                let ghost dev0 = *block_device;
                let ghost evicting = self.queue@.len() == 16;
                let ghost e = self.first_free();
                if self.queue.len() == BLOCK_CACHE_SIZE {
                    match self.find_free() {
                        Some(idx) => {
                            let mut victim = self.queue.remove(idx);
                            proof {
                                old(self).lemma_index(old(block_device), idx as int);
                            }
                            victim.cache.sync(block_device);
                        },
                        None => {},
                    }
                }
                let ghost mid = *self;
                let ghost dev1 = *block_device;
                proof {
                    assert forall|i: int| 0 <= i < mid.queue@.len() implies (
                    #[trigger] mid.queue@[i]).block_id != block_id by {
                        let o = if evicting && i >= e {
                            i + 1
                        } else {
                            i
                        };
                        assert(mid.queue@[i] == old(self).queue@[o]);
                    }
                }
                let cache = BlockCache::new(block_id, block_device);
                self.queue.push(CacheEntry { block_id, cache, users: 1 });
                proof {
                    let n = mid.queue@.len() as int;
                    assert(self.queue@.drop_last() =~= mid.queue@);
                    if old(self).all_released() {
                        assert forall|k: int| 0 <= k < self.queue@.len() && k != n implies (
                        #[trigger] self.queue@[k]).users == 0 by {
                            let o = if evicting && k >= e {
                                k + 1
                            } else {
                                k
                            };
                            assert(self.queue@[k] == old(self).queue@[o]);
                        }
                    }
                    assert forall|i: int| 0 <= i < self.queue@.len() implies (
                    #[trigger] self.queue@[i]).cache.block_id == self.queue@[i].block_id
                        && block_device.has_block(self.queue@[i].block_id) && (
                    !self.queue@[i].cache.modified ==> self.queue@[i].cache.cache@
                        == block_device.block(self.queue@[i].block_id)) by {
                        if i < n {
                            let o = if evicting && i >= e {
                                i + 1
                            } else {
                                i
                            };
                            assert(self.queue@[i] == old(self).queue@[o]);
                            if evicting {
                                if o < e {
                                    assert(old(self).queue@[o].block_id != old(self).queue@[e].block_id);
                                } else {
                                    assert(old(self).queue@[e].block_id != old(self).queue@[o].block_id);
                                }
                            }
                        }
                    }
                    assert forall|i: int, j: int| 0 <= i < j < self.queue@.len() implies (
                    #[trigger] self.queue@[i]).block_id != (#[trigger] self.queue@[j]).block_id by {
                        let oi = if evicting && i >= e {
                            i + 1
                        } else {
                            i
                        };
                        assert(self.queue@[i] == old(self).queue@[oi]);
                        if j < n {
                            let oj = if evicting && j >= e {
                                j + 1
                            } else {
                                j
                            };
                            assert(self.queue@[j] == old(self).queue@[oj]);
                            assert(old(self).queue@[oi].block_id != old(self).queue@[oj].block_id);
                        }
                    }
                    assert forall|x: usize| #[trigger]
                        self.view_block(block_device, x) == old(self).view_block(
                            old(block_device),
                            x,
                        ) by {
                        if x == block_id {
                            assert(self.queue@[n].block_id == x);
                            self.lemma_index(block_device, n);
                        } else if evicting && x == old(self).queue@[e].block_id {
                            old(self).lemma_index(old(block_device), e);
                            if self.cached(x) {
                                let k = self.index_of(x);
                                let o = if k >= e {
                                    k + 1
                                } else {
                                    k
                                };
                                assert(self.queue@[k] == old(self).queue@[o]);
                                if o < e {
                                    assert(old(self).queue@[o].block_id != old(self).queue@[e].block_id);
                                } else {
                                    assert(old(self).queue@[e].block_id != old(self).queue@[o].block_id);
                                }
                            }
                        } else if old(self).cached(x) {
                            let o = old(self).index_of(x);
                            old(self).lemma_index(old(block_device), o);
                            let k = if evicting && o > e {
                                o - 1
                            } else {
                                o
                            };
                            assert(self.queue@[k] == old(self).queue@[o]);
                            self.lemma_index(block_device, k);
                        } else if self.cached(x) {
                            let k = self.index_of(x);
                            let o = if evicting && k >= e {
                                k + 1
                            } else {
                                k
                            };
                            assert(self.queue@[k] == old(self).queue@[o]);
                            assert(old(self).queue@[o].block_id == x);
                        }
                    }
                }
                self.queue.len() - 1
            },
        }
    }

    /// The little-endian 64-bit word at `offset` of the cached block in
    /// entry `idx`.
    pub fn read_u64(&self, idx: usize, offset: usize) -> (r: u64)
        requires
            idx < self.queue@.len(),
            offset + 8 <= 512,
        ensures
            r == word_at(self.queue@[idx as int].cache.cache@, offset as int),
    {
        self.queue[idx].cache.read_u64(offset)
    }

    /// Stores `v` as a little-endian 64-bit word at `offset` of the cached
    /// block in entry `idx` and marks the block as changed.
    pub fn write_u64<D: BlockDevice>(&mut self, idx: usize, offset: usize, v: u64, block_device: &D)
        requires
            old(self).wf(block_device),
            idx < old(self).queue@.len(),
            offset + 8 <= 512,
        ensures
            final(self).wf(block_device),
            final(self).queue@.len() == old(self).queue@.len(),
            forall|i: int|
                0 <= i < old(self).queue@.len() ==> (#[trigger] final(self).queue@[i]).block_id == old(self).queue@[i].block_id && final(self).queue@[i].users == old(self).queue@[i].users,
            forall|x: usize| #[trigger]
                final(self).view_block(block_device, x) == if x == old(self).queue@[idx as int].block_id {
                    with_word(old(self).view_block(block_device, x), offset as int, v)
                } else {
                    old(self).view_block(block_device, x)
                },
    {
        self.queue[idx].cache.write_u64(offset, v);
        proof {
            assert forall|i: int| 0 <= i < self.queue@.len() implies (
            #[trigger] self.queue@[i]).block_id == old(self).queue@[i].block_id
                && self.queue@[i].users == old(self).queue@[i].users by {
                if i != idx {
                    assert(self.queue@[i] == old(self).queue@[i]);
                }
            }
            assert forall|i: int| 0 <= i < self.queue@.len() implies (
            #[trigger] self.queue@[i]).cache.block_id == self.queue@[i].block_id
                && block_device.has_block(self.queue@[i].block_id) && (!self.queue@[i].cache.modified
                ==> self.queue@[i].cache.cache@ == block_device.block(self.queue@[i].block_id)) by {
                if i != idx {
                    assert(self.queue@[i] == old(self).queue@[i]);
                }
            }
            assert forall|i: int, j: int| 0 <= i < j < self.queue@.len() implies (
            #[trigger] self.queue@[i]).block_id != (#[trigger] self.queue@[j]).block_id by {
                assert(old(self).queue@[i].block_id != old(self).queue@[j].block_id);
            }
            assert forall|x: usize| #[trigger]
                self.view_block(block_device, x) == if x == old(self).queue@[idx as int].block_id {
                    with_word(old(self).view_block(block_device, x), offset as int, v)
                } else {
                    old(self).view_block(block_device, x)
                } by {
                if old(self).cached(x) {
                    let o = old(self).index_of(x);
                    old(self).lemma_index(block_device, o);
                    old(self).lemma_index(block_device, idx as int);
                    assert(self.queue@[o].block_id == x);
                    self.lemma_index(block_device, o);
                    if o != idx {
                        assert(self.queue@[o] == old(self).queue@[o]);
                    }
                } else if self.cached(x) {
                    let o = self.index_of(x);
                    assert(old(self).queue@[o].block_id == x);
                }
            }
        }
    }

    /// Takes one holder from the entry of block `block_id`, if it is
    /// cached and has one.
    pub fn release(&mut self, block_id: usize)
        ensures
            final(self).queue@.len() == old(self).queue@.len(),
            forall|i: int|
                0 <= i < old(self).queue@.len() ==> (#[trigger] final(self).queue@[i]).block_id == old(self).queue@[i].block_id && final(self).queue@[i].cache == old(self).queue@[i].cache,
            forall|i: int|
                0 <= i < old(self).queue@.len() ==> (#[trigger] final(self).queue@[i]).users == if old(self).queue@[i].block_id == block_id && old(self).queue@[i].users > 0 && forall|j: int|
                    0 <= j < i ==> old(self).queue@[j].block_id != block_id {
                    (old(self).queue@[i].users - 1) as usize
                } else {
                    old(self).queue@[i].users
                },
    {
        match self.find_first(block_id) {
            Some(i) => {
                if self.queue[i].users > 0 {
                    self.queue[i].users -= 1;
                }
            },
            None => {},
        }
    }

    /// Index of the first entry of block `block_id`, if it is cached.
    fn find_first(&self, block_id: usize) -> (r: Option<usize>)
        ensures
            r matches Some(i) ==> i < self.queue@.len() && self.queue@[i as int].block_id == block_id
                && forall|j: int| 0 <= j < i ==> self.queue@[j].block_id != block_id,
            r is None ==> forall|j: int| 0 <= j < self.queue@.len() ==> self.queue@[j].block_id != block_id,
    {
        let mut i: usize = 0;
        while i < self.queue.len()
            invariant
                i <= self.queue@.len(),
                forall|j: int| 0 <= j < i ==> self.queue@[j].block_id != block_id,
            decreases self.queue@.len() - i,
        {
            if self.queue[i].block_id == block_id {
                return Some(i);
            }
            i += 1;
        }
        None
    }
}

/// The index of the entry of block `block_id` in `manager`; see
/// `BlockCacheManager::get_block_cache`.
pub fn get_block_cache<D: BlockDevice>(
    manager: &mut BlockCacheManager,
    block_id: usize,
    block_device: &mut D,
) -> (r: usize)
    requires
        old(manager).wf(old(block_device)),
        old(block_device).has_block(block_id),
        old(manager).cached(block_id) ==> old(manager).queue@[old(manager).index_of(block_id)].users
            < usize::MAX,
        !old(manager).cached(block_id) && old(manager).queue@.len() == 16 ==> old(manager).has_free(),
    ensures
        final(manager).wf(final(block_device)),
        r < final(manager).queue@.len(),
        final(manager).queue@[r as int].block_id == block_id,
        final(manager).queue@[r as int].users == if old(manager).cached(block_id) {
            old(manager).queue@[old(manager).index_of(block_id)].users + 1
        } else {
            1
        },
        forall|x: usize| #[trigger]
            final(block_device).has_block(x) == old(block_device).has_block(x),
        forall|x: usize| #[trigger]
            final(manager).view_block(final(block_device), x) == old(manager).view_block(
                old(block_device),
                x,
            ),
{
    manager.get_block_cache(block_id, block_device)
}

/// Writes every changed block of the cache back to the device. The blocks
/// stay cached.
pub fn block_cache_sync_all<D: BlockDevice>(manager: &mut BlockCacheManager, block_device: &mut D)
    requires
        old(manager).wf(old(block_device)),
    ensures
        final(manager).wf(final(block_device)),
        final(manager).queue@.len() == old(manager).queue@.len(),
        forall|i: int|
            0 <= i < old(manager).queue@.len() ==> {
                let before = old(manager).queue@[i];
                let after = #[trigger] final(manager).queue@[i];
                &&& after.block_id == before.block_id
                &&& after.users == before.users
                &&& after.cache.cache == before.cache.cache
                &&& !after.cache.modified
                &&& final(block_device).block(after.block_id) == after.cache.cache@
            },
        forall|x: usize| #[trigger]
            final(block_device).has_block(x) == old(block_device).has_block(x),
        forall|x: usize| #[trigger]
            final(manager).view_block(final(block_device), x) == old(manager).view_block(
                old(block_device),
                x,
            ),
        forall|x: usize| #[trigger]
            final(block_device).block(x) == old(manager).view_block(old(block_device), x),
{
    let n = manager.queue.len();
    let mut k: usize = 0;
    while k < n
        invariant
            k <= n,
            n == old(manager).queue@.len(),
            manager.queue@.len() == n,
            old(manager).wf(old(block_device)),
            forall|i: int|
                0 <= i < n ==> (#[trigger] manager.queue@[i]).block_id == old(manager).queue@[i].block_id
                    && manager.queue@[i].users == old(manager).queue@[i].users
                    && manager.queue@[i].cache.cache == old(manager).queue@[i].cache.cache
                    && manager.queue@[i].cache.block_id == manager.queue@[i].block_id,
            forall|i: int|
                0 <= i < k ==> !(#[trigger] manager.queue@[i]).cache.modified && block_device.block(
                    manager.queue@[i].block_id,
                ) == manager.queue@[i].cache.cache@,
            forall|i: int|
                k <= i < n ==> (#[trigger] manager.queue@[i]).cache.modified == old(manager).queue@[i].cache.modified && block_device.block(manager.queue@[i].block_id) == old(block_device).block(manager.queue@[i].block_id),
            forall|x: usize| #[trigger] block_device.has_block(x) == old(block_device).has_block(x),
            forall|x: usize|
                !old(manager).cached(x) ==> #[trigger] block_device.block(x) == old(block_device).block(x),
        decreases n - k,
    {
        let ghost before = *manager;
        let ghost dev0 = *block_device;
        proof {
            old(manager).lemma_index(old(block_device), k as int);
        }
        manager.queue[k].cache.sync(block_device);
        proof {
            assert forall|i: int| 0 <= i < n implies (#[trigger] manager.queue@[i]).block_id == old(manager).queue@[i].block_id && manager.queue@[i].users == old(manager).queue@[i].users
                && manager.queue@[i].cache.cache == old(manager).queue@[i].cache.cache
                && manager.queue@[i].cache.block_id == manager.queue@[i].block_id by {
                if i != k {
                    assert(manager.queue@[i] == before.queue@[i]);
                }
            }
            assert forall|i: int| 0 <= i < k + 1 implies !(
            #[trigger] manager.queue@[i]).cache.modified && block_device.block(
                manager.queue@[i].block_id,
            ) == manager.queue@[i].cache.cache@ by {
                if i < k {
                    assert(manager.queue@[i] == before.queue@[i]);
                    assert(old(manager).queue@[i].block_id != old(manager).queue@[k as int].block_id);
                } else {
                    if !before.queue@[k as int].cache.modified {
                        assert(!old(manager).queue@[k as int].cache.modified);
                    }
                }
            }
            assert forall|i: int| k + 1 <= i < n implies (#[trigger] manager.queue@[i]).cache.modified
                == old(manager).queue@[i].cache.modified && block_device.block(
                manager.queue@[i].block_id,
            ) == old(block_device).block(manager.queue@[i].block_id) by {
                assert(manager.queue@[i] == before.queue@[i]);
                assert(old(manager).queue@[k as int].block_id != old(manager).queue@[i].block_id);
            }
        }
        k += 1;
    }
    proof {
        assert forall|x: usize| #[trigger]
            manager.view_block(block_device, x) == old(manager).view_block(old(block_device), x) by {
            if old(manager).cached(x) {
                let o = old(manager).index_of(x);
                old(manager).lemma_index(old(block_device), o);
                assert(manager.queue@[o].block_id == x);
                manager.lemma_index(block_device, o);
            } else if manager.cached(x) {
                let o = manager.index_of(x);
                assert(old(manager).queue@[o].block_id == x);
            }
        }
        assert forall|x: usize| #[trigger]
            block_device.block(x) == old(manager).view_block(old(block_device), x) by {
            if old(manager).cached(x) {
                let o = old(manager).index_of(x);
                old(manager).lemma_index(old(block_device), o);
                assert(manager.queue@[o].block_id == x);
            }
        }
    }
}

} // verus!
