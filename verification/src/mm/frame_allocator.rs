//! Physical frames and the stack-style allocator that hands them out.
//!
//! A [`FrameTracker`] is the owning handle of one 4 KiB frame and carries
//! the frame's contents with it, so whoever owns the tracker owns the
//! memory. The allocator only keeps book of page numbers.
use crate::mm::address::{lemma_masks, PhysAddr, PhysPageNum};
use vstd::bytes::{
    lemma_auto_spec_u64_to_from_le_bytes, spec_u64_from_le_bytes, spec_u64_to_le_bytes,
    u64_from_le_bytes, u64_to_le_bytes,
};
use vstd::prelude::*;
use vstd::slice::slice_subrange;

verus! {

/// Number of bytes in a frame.
pub const FRAME_BYTES: usize = 4096;

/// A run of `n` zero bytes.
pub open spec fn zeros(n: nat) -> Seq<u8> {
    Seq::new(n, |i: int| 0u8)
}

/// The little-endian 64-bit word at byte offset `off` of `bytes`.
pub open spec fn word_at(bytes: Seq<u8>, off: int) -> u64 {
    spec_u64_from_le_bytes(bytes.subrange(off, off + 8))
}

/// `bytes` with the eight bytes from `off` on replaced by the
/// little-endian encoding of `w`.
pub open spec fn with_word(bytes: Seq<u8>, off: int, w: u64) -> Seq<u8> {
    Seq::new(
        bytes.len(),
        |i: int|
            if off <= i < off + 8 {
                spec_u64_to_le_bytes(w)[i - off]
            } else {
                bytes[i]
            },
    )
}

/// Reading back a word that was just stored gives that word, and words
/// stored elsewhere without overlap are not disturbed.
pub proof fn lemma_with_word(bytes: Seq<u8>, off: int, w: u64)
    requires
        0 <= off,
        off + 8 <= bytes.len(),
    ensures
        with_word(bytes, off, w).len() == bytes.len(),
        word_at(with_word(bytes, off, w), off) == w,
        forall|o: int|
            0 <= o && o + 8 <= bytes.len() && (o + 8 <= off || off + 8 <= o) ==> #[trigger] word_at(
                with_word(bytes, off, w),
                o,
            ) == word_at(bytes, o),
{
    lemma_auto_spec_u64_to_from_le_bytes();
    let b2 = with_word(bytes, off, w);
    assert(b2.subrange(off, off + 8) =~= spec_u64_to_le_bytes(w));
    assert forall|o: int|
        0 <= o && o + 8 <= bytes.len() && (o + 8 <= off || off + 8 <= o) implies #[trigger] word_at(
        b2,
        o,
    ) == word_at(bytes, o) by {
        assert(b2.subrange(o, o + 8) =~= bytes.subrange(o, o + 8));
    }
}

/// `bytes` with the bytes from `off` on replaced by the little-endian
/// encodings of `words`, one after the other.
pub open spec fn with_words(bytes: Seq<u8>, off: int, words: Seq<u64>) -> Seq<u8> {
    Seq::new(
        bytes.len(),
        |i: int|
            if off <= i < off + 8 * words.len() {
                spec_u64_to_le_bytes(words[(i - off) / 8])[(i - off) % 8]
            } else {
                bytes[i]
            },
    )
}

/// `bytes` with the bytes from `off` on replaced by `data`.
pub open spec fn with_bytes(bytes: Seq<u8>, off: int, data: Seq<u8>) -> Seq<u8> {
    Seq::new(
        bytes.len(),
        |i: int|
            if off <= i < off + data.len() {
                data[i - off]
            } else {
                bytes[i]
            },
    )
}

/// The `n` little-endian 64-bit words from byte offset `off` of `bytes`
/// on.
pub open spec fn words_at(bytes: Seq<u8>, off: int, n: int) -> Seq<u64> {
    Seq::new(n as nat, |k: int| word_at(bytes, off + 8 * k))
}

/// Reading back words that were just stored gives those words.
pub proof fn lemma_with_words(bytes: Seq<u8>, off: int, words: Seq<u64>)
    requires
        0 <= off,
        off + 8 * words.len() <= bytes.len(),
    ensures
        with_words(bytes, off, words).len() == bytes.len(),
        words_at(with_words(bytes, off, words), off, words.len() as int) == words,
{
    lemma_auto_spec_u64_to_from_le_bytes();
    let b2 = with_words(bytes, off, words);
    assert forall|k: int| 0 <= k < words.len() implies word_at(b2, off + 8 * k) == words[k] by {
        let part = b2.subrange(off + 8 * k, off + 8 * k + 8);
        let enc = spec_u64_to_le_bytes(words[k]);
        assert forall|j: int| 0 <= j < 8 implies part[j] == enc[j] by {
            let i = off + 8 * k + j;
            assert((i - off) / 8 == k && (i - off) % 8 == j);
        }
        assert(part =~= enc);
    }
    assert(words_at(b2, off, words.len() as int) =~= words);
}

/// Words stored over words of the same number at the same place leave
/// what was stored last.
pub proof fn lemma_with_words_twice(bytes: Seq<u8>, off: int, first: Seq<u64>, second: Seq<u64>)
    requires
        first.len() == second.len(),
    ensures
        with_words(with_words(bytes, off, first), off, second) == with_words(bytes, off, second),
{
    assert(with_words(with_words(bytes, off, first), off, second) =~= with_words(
        bytes,
        off,
        second,
    ));
}

/// Storing one more word after some words stores the words with that
/// word added.
pub proof fn lemma_with_words_push(bytes: Seq<u8>, off: int, words: Seq<u64>, w: u64)
    requires
        0 <= off,
        off + 8 * words.len() + 8 <= bytes.len(),
    ensures
        with_word(with_words(bytes, off, words), off + 8 * words.len(), w) == with_words(
            bytes,
            off,
            words.push(w),
        ),
{
    lemma_auto_spec_u64_to_from_le_bytes();
    let n = words.len() as int;
    let x = with_word(with_words(bytes, off, words), off + 8 * n, w);
    let y = with_words(bytes, off, words.push(w));
    assert forall|i: int| 0 <= i < bytes.len() implies x[i] == y[i] by {
        if off <= i < off + 8 * n {
            let k = (i - off) / 8;
            assert(0 <= k < n);
            assert(words.push(w)[k] == words[k]);
        } else if off + 8 * n <= i < off + 8 * n + 8 {
            let k = (i - off) / 8;
            assert(k == n && (i - off) % 8 == i - (off + 8 * n));
            assert(words.push(w)[k] == w);
        }
    }
    assert(x =~= y);
}

/// A zero-filled run of bytes holds the word zero everywhere.
pub proof fn lemma_zero_word(n: nat, off: int)
    requires
        0 <= off,
        off + 8 <= n,
    ensures
        word_at(zeros(n), off) == 0,
{
    lemma_auto_spec_u64_to_from_le_bytes();
    let z = zeros(n).subrange(off, off + 8);
    let e = spec_u64_to_le_bytes(0);
    vstd::bytes::spec_u64_to_le_bytes_to_open(0);
    assert(0u64 & 0xff == 0 && (0u64 >> 8) & 0xff == 0 && (0u64 >> 16) & 0xff == 0 && (0u64 >> 24)
        & 0xff == 0 && (0u64 >> 32) & 0xff == 0 && (0u64 >> 40) & 0xff == 0 && (0u64 >> 48) & 0xff
        == 0 && (0u64 >> 56) & 0xff == 0) by (bit_vector);
    assert(z =~= e);
}

/// Owning handle of one physical frame, together with its 4096 bytes.
pub struct FrameTracker {
    /// Number of the frame.
    pub ppn: PhysPageNum,
    /// The 4096 bytes of the frame.
    pub bytes: Vec<u8>,
}

impl View for FrameTracker {
    type V = Seq<u8>;

    open spec fn view(&self) -> Seq<u8> {
        self.bytes@
    }
}

impl FrameTracker {
    /// A frame holds exactly one page of bytes.
    pub open spec fn wf(&self) -> bool {
        self@.len() == 4096
    }

    /// Takes charge of frame `ppn` and clears it.
    pub fn new(ppn: PhysPageNum) -> (r: Self)
        ensures
            r.ppn == ppn,
            r.wf(),
            r@ == zeros(4096),
    {
        let mut bytes: Vec<u8> = Vec::with_capacity(FRAME_BYTES);
        let mut i: usize = 0;
        while i < FRAME_BYTES
            invariant
                i <= FRAME_BYTES,
                bytes@.len() == i,
                forall|j: int| 0 <= j < i ==> bytes@[j] == 0,
            decreases FRAME_BYTES - i,
        {
            bytes.push(0u8);
            i += 1;
        }
        assert(bytes@ =~= zeros(4096));
        Self { ppn, bytes }
    }

    /// The bytes of the frame.
    pub fn get_bytes_array(&self) -> (r: &[u8])
        ensures
            r@ == self@,
    {
        self.bytes.as_slice()
    }

    /// The byte at offset `off`, for reading and writing.
    pub fn get_mut(&mut self, off: usize) -> (r: &mut u8)
        requires
            off < old(self)@.len(),
        ensures
            *r == old(self)@[off as int],
            final(self)@ == old(self)@.update(off as int, *final(r)),
            final(self).ppn == old(self).ppn,
    {
        &mut self.bytes[off]
    }

    /// The byte at offset `off`.
    pub fn read_byte(&self, off: usize) -> (r: u8)
        requires
            off < self@.len(),
        ensures
            r == self@[off as int],
    {
        self.bytes[off]
    }

    /// Stores `v` at offset `off`.
    pub fn write_byte(&mut self, off: usize, v: u8)
        requires
            off < old(self)@.len(),
        ensures
            final(self).ppn == old(self).ppn,
            final(self)@ == old(self)@.update(off as int, v),
    {
        self.bytes.set(off, v);
    }

    /// The little-endian word at byte offset `off`.
    pub fn read_word(&self, off: usize) -> (r: u64)
        requires
            off + 8 <= self@.len(),
        ensures
            r == word_at(self@, off as int),
    {
        let n = self.bytes.len();
        assert(off + 8 <= n);
        u64_from_le_bytes(slice_subrange(self.bytes.as_slice(), off, off + 8))
    }

    /// Stores `w` as a little-endian word at byte offset `off`.
    pub fn write_word(&mut self, off: usize, w: u64)
        requires
            off + 8 <= old(self)@.len(),
        ensures
            final(self).ppn == old(self).ppn,
            final(self)@ == with_word(old(self)@, off as int, w),
    {
        let src = u64_to_le_bytes(w);
        let n = self.bytes.len();
        let mut i: usize = 0;
        while i < 8
            invariant
                i <= 8,
                n == self.bytes@.len(),
                off + 8 <= self.bytes@.len(),
                self.bytes@.len() == old(self).bytes@.len(),
                self.ppn == old(self).ppn,
                src@ == spec_u64_to_le_bytes(w),
                src@.len() == 8,
                forall|j: int|
                    0 <= j < self.bytes@.len() ==> self.bytes@[j] == if off <= j < off + i {
                        src@[j - off]
                    } else {
                        old(self).bytes@[j]
                    },
            decreases 8 - i,
        {
            self.bytes.set(off + i, src[i]);
            i += 1;
        }
        assert(self.bytes@ =~= with_word(old(self).bytes@, off as int, w));
    }

    /// Stores `words` as little-endian words, one after the other, from
    /// byte offset `off` on.
    pub fn write_words(&mut self, off: usize, words: &[u64])
        requires
            off + 8 * words@.len() <= old(self)@.len(),
        ensures
            final(self).ppn == old(self).ppn,
            final(self)@ == with_words(old(self)@, off as int, words@),
    {
        let n = words.len();
        let mut k: usize = 0;
        assert(self.bytes@ =~= with_words(old(self).bytes@, off as int, words@.take(0)));
        while k < n
            invariant
                k <= n,
                n == words@.len(),
                off + 8 * n <= old(self).bytes@.len(),
                self.ppn == old(self).ppn,
                self.bytes@ == with_words(old(self).bytes@, off as int, words@.take(k as int)),
            decreases n - k,
        {
            proof {
                lemma_with_words_push(
                    old(self).bytes@,
                    off as int,
                    words@.take(k as int),
                    words@[k as int],
                );
                assert(words@.take(k as int).push(words@[k as int]) =~= words@.take(k + 1));
            }
            let len = self.bytes.len();
            self.write_word(off + 8 * k, words[k]);
            k += 1;
        }
        assert(words@.take(n as int) =~= words@);
    }

    /// The `n` little-endian words from byte offset `off` on.
    pub fn read_words(&self, off: usize, n: usize) -> (r: Vec<u64>)
        requires
            off + 8 * n <= self@.len(),
        ensures
            r@ == words_at(self@, off as int, n as int),
    {
        let mut r: Vec<u64> = Vec::new();
        let mut k: usize = 0;
        let len = self.bytes.len();
        while k < n
            invariant
                k <= n,
                len == self.bytes@.len(),
                off + 8 * n <= self.bytes@.len(),
                r@ == words_at(self.bytes@, off as int, k as int),
            decreases n - k,
        {
            r.push(self.read_word(off + 8 * k));
            assert(r@ =~= words_at(self.bytes@, off as int, k + 1));
            k += 1;
        }
        r
    }

    /// Stores the bytes of `data` from byte offset `off` on.
    pub fn write_bytes(&mut self, off: usize, data: &[u8])
        requires
            off + data@.len() <= old(self)@.len(),
        ensures
            final(self).ppn == old(self).ppn,
            final(self)@ == with_bytes(old(self)@, off as int, data@),
    {
        let n = data.len();
        let len = self.bytes.len();
        let mut k: usize = 0;
        while k < n
            invariant
                k <= n,
                n == data@.len(),
                len == self.bytes@.len(),
                len == old(self).bytes@.len(),
                off + n <= len,
                self.ppn == old(self).ppn,
                forall|j: int|
                    0 <= j < len ==> self.bytes@[j] == if off <= j < off + k {
                        data@[j - off]
                    } else {
                        old(self).bytes@[j]
                    },
            decreases n - k,
        {
            self.bytes.set(off + k, data[k]);
            k += 1;
        }
        assert(self.bytes@ =~= with_bytes(old(self).bytes@, off as int, data@));
    }

    /// Overwrites the whole frame with the contents of `src`.
    pub fn copy_from(&mut self, src: &FrameTracker)
        requires
            old(self).wf(),
            src.wf(),
        ensures
            final(self).ppn == old(self).ppn,
            final(self)@ == src@,
    {
        let mut i: usize = 0;
        while i < FRAME_BYTES
            invariant
                i <= FRAME_BYTES,
                self.bytes@.len() == 4096,
                src.bytes@.len() == 4096,
                self.ppn == old(self).ppn,
                forall|j: int| 0 <= j < i ==> self.bytes@[j] == src.bytes@[j],
            decreases FRAME_BYTES - i,
        {
            self.bytes.set(i, src.bytes[i]);
            i += 1;
        }
        assert(self.bytes@ =~= src.bytes@);
    }
}

/// Stack-style allocator of the frames `[current, end)` that were never
/// handed out, plus a list of frames that came back.
pub struct StackFrameAllocator {
    /// First page number that was never handed out.
    pub current: u64,
    /// End of the allocator's range.
    pub end: u64,
    /// Page numbers that came back, in the order of their return.
    pub recycled: Vec<u64>,
}

impl StackFrameAllocator {
    /// The range is in order and below the 44-bit limit of a page
    /// number; every recycled frame was handed out before and is listed
    /// once.
    pub open spec fn wf(&self) -> bool {
        &&& self.current <= self.end
        &&& self.end <= 0x1000_0000_0000
        &&& forall|i: int| 0 <= i < self.recycled@.len() ==> self.recycled@[i] < self.current
        &&& self.recycled@.no_duplicates()
    }

    /// Whether `ppn` is handed out at present: it lies below `current` and
    /// has not come back.
    pub open spec fn is_allocated(&self, ppn: u64) -> bool {
        ppn < self.current && !self.recycled@.contains(ppn)
    }

    /// Whether `ppn` can still be handed out.
    pub open spec fn is_free(&self, ppn: u64) -> bool {
        self.recycled@.contains(ppn) || self.current <= ppn < self.end
    }

    /// Number of frames that can still be handed out.
    pub open spec fn free_count(&self) -> int {
        self.recycled@.len() + self.end - self.current
    }

    /// The frame that the next allocation returns, if any: the frame that
    /// came back last, else the lowest fresh one.
    pub open spec fn next_free(&self) -> Option<u64> {
        if self.recycled@.len() > 0 {
            Some(self.recycled@.last())
        } else if self.current < self.end {
            Some(self.current)
        } else {
            None
        }
    }

    /// An allocator with an empty range.
    pub fn new() -> (r: Self)
        ensures
            r.current == 0,
            r.end == 0,
            r.recycled@ =~= Seq::<u64>::empty(),
            r.wf(),
    {
        Self { current: 0, end: 0, recycled: Vec::new() }
    }

    /// Sets the range of fresh frames to `[l, r)`.
    pub fn init(&mut self, l: PhysPageNum, r: PhysPageNum)
        ensures
            final(self).current == l.0,
            final(self).end == r.0,
            final(self).recycled@ == old(self).recycled@,
    {
        self.current = l.0;
        self.end = r.0;
    }

    /// Hands out a frame number: the one that came back last, else the
    /// lowest fresh one, else nothing.
    pub fn allocate(&mut self) -> (r: Option<PhysPageNum>)
        requires
            old(self).wf(),
        ensures
            final(self).wf(),
            final(self).end == old(self).end,
            r == match old(self).next_free() {
                Some(p) => Some(PhysPageNum(p)),
                None => None,
            },
            old(self).recycled@.len() > 0 ==> final(self).recycled@ == old(self).recycled@.drop_last()
                && final(self).current == old(self).current,
            old(self).recycled@.len() == 0 ==> final(self).recycled@ == old(self).recycled@
                && final(self).current == if old(self).current < old(self).end {
                old(self).current + 1
            } else {
                old(self).current as int
            },
            r is Some ==> final(self).free_count() == old(self).free_count() - 1,
            r is None ==> old(self).free_count() == 0,
            forall|p: u64|
                final(self).is_allocated(p) == (old(self).is_allocated(p) || r == Some(
                    PhysPageNum(p),
                )),
            forall|p: u64| r == Some(PhysPageNum(p)) ==> old(self).is_free(p) && !old(self).is_allocated(p),
    {
        if let Some(ppn) = self.recycled.pop() {
            proof {
                lemma_masks(ppn);
                let old_r = old(self).recycled@;
                assert(old_r.drop_last() =~= self.recycled@);
                assert(old_r[old_r.len() - 1] == ppn);
                assert forall|p: u64|
                    self.is_allocated(p) == (old(self).is_allocated(p) || p == ppn) by {
                    if p == ppn {
                        if self.recycled@.contains(p) {
                            let i = choose|i: int| 0 <= i < self.recycled@.len() && self.recycled@[i] == p;
                            assert(old_r[i] == p);
                        }
                    } else if old_r.contains(p) {
                        let i = choose|i: int| 0 <= i < old_r.len() && old_r[i] == p;
                        assert(self.recycled@[i] == p);
                    } else if self.recycled@.contains(p) {
                        let i = choose|i: int| 0 <= i < self.recycled@.len() && self.recycled@[i] == p;
                        assert(old_r[i] == p);
                    }
                }
            }
            Some(PhysPageNum::from(ppn))
        } else {
            if self.current == self.end {
                None
            } else {
                self.current += 1;
                proof {
                    lemma_masks((self.current - 1) as u64);
                }
                Some(PhysPageNum::from(self.current - 1))
            }
        }
    }

    /// Takes frame `ppn` back.
    pub fn dealloc(&mut self, ppn: PhysPageNum)
        requires
            old(self).wf(),
            old(self).is_allocated(ppn.0),
        ensures
            final(self).wf(),
            final(self).current == old(self).current,
            final(self).end == old(self).end,
            final(self).recycled@ == old(self).recycled@.push(ppn.0),
            final(self).free_count() == old(self).free_count() + 1,
            forall|p: u64| final(self).is_allocated(p) == (old(self).is_allocated(p) && p != ppn.0),
    {
        self.recycled.push(ppn.0);
        proof {
            let old_r = old(self).recycled@;
            let new_r = self.recycled@;
            assert forall|p: u64| self.is_allocated(p) == (old(self).is_allocated(p) && p != ppn.0) by {
                if p == ppn.0 {
                    assert(new_r[new_r.len() - 1] == p);
                } else if old_r.contains(p) {
                    let i = choose|i: int| 0 <= i < old_r.len() && old_r[i] == p;
                    assert(new_r[i] == p);
                } else if new_r.contains(p) {
                    let i = choose|i: int| 0 <= i < new_r.len() && new_r[i] == p;
                    assert(old_r[i] == p);
                }
            }
        }
    }

    /// Whether `ppn` is handed out at present.
    pub fn allocated(&self, ppn: PhysPageNum) -> (r: bool)
        ensures
            r == self.is_allocated(ppn.0),
    {
        if ppn.0 >= self.current {
            return false;
        }
        let mut i: usize = 0;
        while i < self.recycled.len()
            invariant
                i <= self.recycled@.len(),
                forall|j: int| 0 <= j < i ==> self.recycled@[j] != ppn.0,
            decreases self.recycled@.len() - i,
        {
            if self.recycled[i] == ppn.0 {
                return false;
            }
            i += 1;
        }
        true
    }

    /// Whether at least `n` frames can still be handed out.
    pub fn has_free(&self, n: usize) -> (r: bool)
        requires
            self.wf(),
        ensures
            r == (self.free_count() >= n),
    {
        if self.recycled.len() >= n {
            true
        } else {
            let need: usize = n - self.recycled.len();
            self.end - self.current >= need as u64
        }
    }
}

/// Sets up `allocator` for the frames between the end of the kernel image
/// and the end of memory.
pub fn init_frame_allocator(allocator: &mut StackFrameAllocator, ekernel: u64, memory_end: u64)
    ensures
        final(allocator).current == (ekernel as int % 0x100_0000_0000_0000 + 4095) / 4096,
        final(allocator).end == (memory_end as int % 0x100_0000_0000_0000) / 4096,
        final(allocator).recycled@ == old(allocator).recycled@,
{
    allocator.init(PhysAddr::from(ekernel).ceil(), PhysAddr::from(memory_end).floor());
}

/// Hands out a cleared frame, or nothing when none is left. The frame
/// was not handed out at the time of the call.
pub fn frame_alloc(allocator: &mut StackFrameAllocator) -> (r: Option<FrameTracker>)
    requires
        old(allocator).wf(),
    ensures
        final(allocator).wf(),
        final(allocator).end == old(allocator).end,
        r is Some <==> old(allocator).free_count() > 0,
        r is Some ==> {
            let f = r->Some_0;
            &&& Some(f.ppn.0) == old(allocator).next_free()
            &&& f.wf()
            &&& f@ == zeros(4096)
            &&& f.ppn.0 < 0x1000_0000_0000
            &&& !old(allocator).is_allocated(f.ppn.0)
            &&& final(allocator).free_count() == old(allocator).free_count() - 1
            &&& forall|p: u64|
                final(allocator).is_allocated(p) == (old(allocator).is_allocated(p) || p == f.ppn.0)
        },
        r is Some && old(allocator).recycled@.len() > 0 ==> final(allocator).current == old(
            allocator,
        ).current && final(allocator).recycled@ == old(allocator).recycled@.drop_last(),
        r is Some && old(allocator).recycled@.len() == 0 ==> final(allocator).current == old(
            allocator,
        ).current + 1 && final(allocator).recycled@ == old(allocator).recycled@,
        r is None ==> final(allocator).current == old(allocator).current && final(allocator).recycled@
            == old(allocator).recycled@,
{
    match allocator.allocate() {
        Some(ppn) => Some(FrameTracker::new(ppn)),
        None => None,
    }
}

/// Gives a frame back to the allocator.
pub fn frame_dealloc(allocator: &mut StackFrameAllocator, frame: FrameTracker)
    requires
        old(allocator).wf(),
        old(allocator).is_allocated(frame.ppn.0),
    ensures
        final(allocator).wf(),
        final(allocator).current == old(allocator).current,
        final(allocator).end == old(allocator).end,
        final(allocator).recycled@ == old(allocator).recycled@.push(frame.ppn.0),
        final(allocator).free_count() == old(allocator).free_count() + 1,
        forall|p: u64|
            final(allocator).is_allocated(p) == (old(allocator).is_allocated(p) && p != frame.ppn.0),
{
    allocator.dealloc(frame.ppn);
}

/// The numbers of the frames `frames`, in order.
pub open spec fn numbers_of(frames: Seq<FrameTracker>) -> Seq<u64> {
    Seq::new(frames.len(), |k: int| frames[k].ppn.0)
}

/// Takes `n` frames from the allocator. They were not handed out before
/// and are different from each other: first the frames that had come
/// back, the last first, then fresh frames, the lowest first.
pub fn take_frames(allocator: &mut StackFrameAllocator, n: usize) -> (v: Vec<FrameTracker>)
    requires
        old(allocator).wf(),
        old(allocator).free_count() >= n,
    ensures
        final(allocator).wf(),
        final(allocator).end == old(allocator).end,
        final(allocator).free_count() == old(allocator).free_count() - n,
        v@.len() == n,
        forall|k: int| 0 <= k < n ==> !old(allocator).is_allocated(#[trigger] v@[k].ppn.0),
        forall|k: int, l: int| 0 <= k < l < n ==> v@[k].ppn.0 != v@[l].ppn.0,
        forall|p: u64| #[trigger]
            final(allocator).is_allocated(p) == (old(allocator).is_allocated(p) || numbers_of(
                v@,
            ).contains(p)),
        final(allocator).current == old(allocator).current + if n > old(allocator).recycled@.len() {
            n - old(allocator).recycled@.len()
        } else {
            0
        },
        final(allocator).recycled@ == old(allocator).recycled@.take(
            if old(allocator).recycled@.len() > n {
                old(allocator).recycled@.len() - n
            } else {
                0
            },
        ),
        forall|k: int|
            0 <= k < n ==> #[trigger] v@[k].ppn.0 == if k < old(allocator).recycled@.len() {
                old(allocator).recycled@[old(allocator).recycled@.len() - 1 - k] as int
            } else {
                old(allocator).current + (k - old(allocator).recycled@.len())
            },
{
    let mut v: Vec<FrameTracker> = Vec::new();
    assert(allocator.recycled@ =~= old(allocator).recycled@.take(
        old(allocator).recycled@.len() as int,
    ));
    let mut i: usize = 0;
    while i < n
        invariant
            i <= n,
            allocator.wf(),
            allocator.end == old(allocator).end,
            allocator.free_count() == old(allocator).free_count() - i,
            old(allocator).free_count() >= n,
            v@.len() == i,
            forall|k: int| 0 <= k < i ==> !old(allocator).is_allocated(#[trigger] v@[k].ppn.0),
            forall|k: int| 0 <= k < i ==> allocator.is_allocated(#[trigger] v@[k].ppn.0),
            forall|k: int, l: int| 0 <= k < l < i ==> v@[k].ppn.0 != v@[l].ppn.0,
            forall|p: u64| #[trigger]
                allocator.is_allocated(p) == (old(allocator).is_allocated(p) || numbers_of(
                    v@,
                ).contains(p)),
            allocator.current == old(allocator).current + if i > old(allocator).recycled@.len() {
                i - old(allocator).recycled@.len()
            } else {
                0
            },
            allocator.recycled@ == old(allocator).recycled@.take(
                if old(allocator).recycled@.len() > i {
                    old(allocator).recycled@.len() - i
                } else {
                    0
                },
            ),
            forall|k: int|
                0 <= k < i ==> #[trigger] v@[k].ppn.0 == if k < old(allocator).recycled@.len() {
                    old(allocator).recycled@[old(allocator).recycled@.len() - 1 - k] as int
                } else {
                    old(allocator).current + (k - old(allocator).recycled@.len())
                },
        decreases n - i,
    {
        let ghost before = *allocator;
        let ghost taken = v@;
        match frame_alloc(allocator) {
            Some(frame) => {
                let ghost number = frame.ppn.0;
                v.push(frame);
                proof {
                    assert forall|p: u64| #[trigger]
                        allocator.is_allocated(p) == (old(allocator).is_allocated(p) || numbers_of(
                            v@,
                        ).contains(p)) by {
                        if numbers_of(taken).contains(p) {
                            let k = choose|k: int| 0 <= k < taken.len() && numbers_of(taken)[k] == p;
                            assert(numbers_of(v@)[k] == p);
                        }
                        if p == number {
                            assert(numbers_of(v@)[i as int] == p);
                        }
                        if numbers_of(v@).contains(p) {
                            let k = choose|k: int| 0 <= k < v@.len() && numbers_of(v@)[k] == p;
                            if k < i {
                                assert(numbers_of(taken)[k] == p);
                            }
                        }
                    }
                    let r = old(allocator).recycled@.len() as int;
                    if i < r {
                        assert(before.recycled@.len() == r - i);
                        assert(allocator.recycled@ =~= old(allocator).recycled@.take(r - i - 1));
                        assert(number == old(allocator).recycled@[r - 1 - i]);
                    } else {
                        assert(before.recycled@.len() == 0);
                        assert(allocator.recycled@ =~= old(allocator).recycled@.take(0));
                        assert(number == old(allocator).current + (i - r));
                    }
                }
            },
            None => {},
        }
        i += 1;
    }
    v
}

/// Gives the frames `frames` back to the allocator, the first first.
pub fn give_frames(allocator: &mut StackFrameAllocator, frames: Vec<FrameTracker>)
    requires
        old(allocator).wf(),
        forall|k: int| 0 <= k < frames@.len() ==> old(allocator).is_allocated(
            #[trigger] frames@[k].ppn.0,
        ),
        forall|k: int, l: int| 0 <= k < l < frames@.len() ==> frames@[k].ppn.0 != frames@[l].ppn.0,
    ensures
        final(allocator).wf(),
        final(allocator).current == old(allocator).current,
        final(allocator).end == old(allocator).end,
        final(allocator).recycled@ == old(allocator).recycled@ + numbers_of(frames@),
        final(allocator).free_count() == old(allocator).free_count() + frames@.len(),
        forall|p: u64| #[trigger]
            final(allocator).is_allocated(p) == (old(allocator).is_allocated(p) && !numbers_of(
                frames@,
            ).contains(p)),
{
    let mut frames = frames;
    let ghost all = frames@;
    let n = frames.len();
    let mut i: usize = 0;
    assert(allocator.recycled@ =~= old(allocator).recycled@ + numbers_of(all).subrange(0, 0));
    while i < n
        invariant
            i <= n,
            n == all.len(),
            frames@ == all.subrange(i as int, n as int),
            allocator.wf(),
            allocator.current == old(allocator).current,
            allocator.end == old(allocator).end,
            allocator.recycled@ == old(allocator).recycled@ + numbers_of(all).subrange(0, i as int),
            forall|k: int| 0 <= k < all.len() ==> old(allocator).is_allocated(
                #[trigger] all[k].ppn.0,
            ),
            forall|k: int, l: int| 0 <= k < l < all.len() ==> all[k].ppn.0 != all[l].ppn.0,
            forall|p: u64| #[trigger]
                allocator.is_allocated(p) == (old(allocator).is_allocated(p) && !numbers_of(
                    all,
                ).subrange(0, i as int).contains(p)),
        decreases n - i,
    {
        let ghost before = *allocator;
        let frame = frames.remove(0);
        assert(frame == all[i as int]);
        proof {
            let done = numbers_of(all).subrange(0, i as int);
            if done.contains(frame.ppn.0) {
                let k = choose|k: int| 0 <= k < done.len() && done[k] == frame.ppn.0;
                assert(all[k].ppn.0 == all[i as int].ppn.0);
            }
        }
        frame_dealloc(allocator, frame);
        proof {
            let done = numbers_of(all).subrange(0, i as int);
            let more = numbers_of(all).subrange(0, i as int + 1);
            assert(more =~= done.push(all[i as int].ppn.0));
            assert(frames@ =~= all.subrange(i as int + 1, n as int));
            assert(allocator.recycled@ =~= old(allocator).recycled@ + more);
            assert forall|p: u64| #[trigger]
                allocator.is_allocated(p) == (old(allocator).is_allocated(p) && !more.contains(
                    p,
                )) by {
                if done.contains(p) {
                    let k = choose|k: int| 0 <= k < done.len() && done[k] == p;
                    assert(more[k] == p);
                }
                if p == all[i as int].ppn.0 {
                    assert(more[i as int] == p);
                }
                if more.contains(p) {
                    let k = choose|k: int| 0 <= k < more.len() && more[k] == p;
                    if k < i {
                        assert(done[k] == p);
                    }
                }
            }
        }
        i += 1;
    }
    assert(numbers_of(all).subrange(0, n as int) =~= numbers_of(all));
}

/// Exercises the allocator: takes five frames, gives them back, takes
/// five frames again and gives them back. Gives the numbers of the frames
/// of the two rounds: the second round takes the frames of the first, the
/// last first. The allocator hands out the same frames after as before;
/// the fresh frames that the first round took are no longer fresh, and the
/// frames of the second round are the last that came back, in the order of
/// their release.
pub fn frame_allocator_test(allocator: &mut StackFrameAllocator) -> (r: (Vec<u64>, Vec<u64>))
    requires
        old(allocator).wf(),
        old(allocator).free_count() >= 5,
    ensures
        final(allocator).wf(),
        final(allocator).end == old(allocator).end,
        final(allocator).free_count() == old(allocator).free_count(),
        forall|p: u64| #[trigger] final(allocator).is_allocated(p) == old(allocator).is_allocated(p),
        r.0@.len() == 5,
        r.1@.len() == 5,
        forall|k: int| 0 <= k < 5 ==> !old(allocator).is_allocated(#[trigger] r.0@[k]),
        forall|k: int, l: int| 0 <= k < l < 5 ==> r.0@[k] != r.0@[l],
        forall|k: int| 0 <= k < 5 ==> #[trigger] r.1@[k] == r.0@[4 - k],
        forall|k: int|
            0 <= k < 5 ==> #[trigger] r.0@[k] == if k < old(allocator).recycled@.len() {
                old(allocator).recycled@[old(allocator).recycled@.len() - 1 - k] as int
            } else {
                old(allocator).current + (k - old(allocator).recycled@.len())
            },
        final(allocator).current == old(allocator).current + if old(allocator).recycled@.len() < 5 {
            5 - old(allocator).recycled@.len()
        } else {
            0
        },
        final(allocator).recycled@ == old(allocator).recycled@.take(
            if old(allocator).recycled@.len() > 5 {
                old(allocator).recycled@.len() - 5
            } else {
                0
            },
        ) + r.1@,
{
    let first = take_frames(allocator, 5);
    let a = frame_numbers(&first);
    let ghost al1 = *allocator;
    proof {
        assert forall|k: int| 0 <= k < 5 implies al1.is_allocated(#[trigger] first@[k].ppn.0) by {
            assert(numbers_of(first@)[k] == first@[k].ppn.0);
        }
    }
    give_frames(allocator, first);
    let ghost al2 = *allocator;
    let second = take_frames(allocator, 5);
    let b = frame_numbers(&second);
    let ghost al3 = *allocator;
    proof {
        assert forall|k: int| 0 <= k < 5 implies #[trigger] b@[k] == a@[4 - k] by {
            assert(second@[k].ppn.0 == al2.recycled@[al2.recycled@.len() - 1 - k]);
        }
        assert forall|k: int| 0 <= k < 5 implies al3.is_allocated(#[trigger] second@[k].ppn.0) by {
            assert(numbers_of(second@)[k] == second@[k].ppn.0);
        }
    }
    give_frames(allocator, second);
    proof {
        assert forall|p: u64| #[trigger]
            allocator.is_allocated(p) == old(allocator).is_allocated(p) by {
            if old(allocator).is_allocated(p) {
                if numbers_of(first@).contains(p) {
                    let k = choose|k: int| 0 <= k < 5 && numbers_of(first@)[k] == p;
                    assert(!old(allocator).is_allocated(first@[k].ppn.0));
                }
                if numbers_of(second@).contains(p) {
                    let k = choose|k: int| 0 <= k < 5 && numbers_of(second@)[k] == p;
                    assert(!al2.is_allocated(second@[k].ppn.0));
                }
            }
        }
    }
    (a, b)
}

/// The numbers of the frames `frames`, in order.
pub fn frame_numbers(frames: &Vec<FrameTracker>) -> (r: Vec<u64>)
    ensures
        r@ == numbers_of(frames@),
{
    let mut r: Vec<u64> = Vec::new();
    let mut i: usize = 0;
    while i < frames.len()
        invariant
            i <= frames@.len(),
            r@ == numbers_of(frames@).subrange(0, i as int),
        decreases frames@.len() - i,
    {
        r.push(frames[i].ppn.0);
        assert(r@ =~= numbers_of(frames@).subrange(0, i as int + 1));
        i += 1;
    }
    assert(numbers_of(frames@).subrange(0, frames@.len() as int) =~= numbers_of(frames@));
    r
}

} // verus!
