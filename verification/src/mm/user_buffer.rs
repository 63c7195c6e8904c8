//! Buffers and strings of a user program, found through its page table.
use crate::mm::access::vpn_of;
use crate::mm::address::{lemma_masks, lemma_shift_page, PhysAddr, PhysPageNum, VirtAddr};
use crate::mm::memory_set::MemorySet;
use crate::mm::page_table::PageTable;
use vstd::prelude::*;

verus! {

/// The bytes `[start, end)` of frame `ppn`.
#[derive(Copy, Clone, Debug, PartialEq, Eq, Structural)]
pub struct PhysSlice {
    /// Number of the frame.
    pub ppn: PhysPageNum,
    /// Offset of the first byte in the frame.
    pub start: usize,
    /// Offset after the last byte in the frame.
    pub end: usize,
}

impl PhysSlice {
    /// Number of bytes in the slice.
    pub open spec fn spec_len(&self) -> int {
        self.end - self.start
    }

    /// The slice is not empty and lies in one frame.
    pub open spec fn wf(&self) -> bool {
        self.start < self.end <= 4096
    }

    /// Number of bytes in the slice.
    pub fn len(&self) -> (r: usize)
        requires
            self.start <= self.end,
        ensures
            r == self.spec_len(),
    {
        self.end - self.start
    }
}

/// Number of bytes in the first `n` slices of `slices`.
pub open spec fn covered(slices: Seq<PhysSlice>, n: int) -> int
    decreases n,
{
    if n <= 0 {
        0
    } else {
        covered(slices, n - 1) + slices[n - 1].spec_len()
    }
}

/// The part of the buffer `[va, end)` that lies in the page of `va`, as a
/// slice of the frame that `pt` gives for that page.
pub open spec fn slice_at(pt: &PageTable, va: u64, end: u64) -> PhysSlice {
    let page_end = (va / 4096 + 1) * 4096;
    PhysSlice {
        ppn: pt.walk(vpn_of(va))->Some_0.spec_ppn(),
        start: (va % 4096) as usize,
        end: if end < page_end {
            (end % 4096) as usize
        } else {
            4096usize
        },
    }
}

/// The slices of the buffer `[start, end)`, in order: the part in the
/// page of `start`, then the slices of what follows it.
pub open spec fn buffer_slices(pt: &PageTable, start: u64, end: u64) -> Seq<PhysSlice>
    decreases end - start,
{
    if start >= end {
        Seq::empty()
    } else {
        let s = slice_at(pt, start, end);
        if s.start < s.end {
            seq![s] + buffer_slices(pt, (start + s.spec_len()) as u64, end)
        } else {
            seq![s]
        }
    }
}

/// The slice of a buffer in the page of its start is not empty, lies in
/// one frame and ends within the buffer.
pub proof fn lemma_slice_at(pt: &PageTable, start: u64, end: u64)
    requires
        start < end,
    ensures
        slice_at(pt, start, end).wf(),
        start + slice_at(pt, start, end).spec_len() <= end,
        slice_at(pt, start, end).spec_len() == if end < (start / 4096 + 1) * 4096 {
            end - start
        } else {
            (start / 4096 + 1) * 4096 - start
        },
{
}

/// The slices of a buffer hold as many bytes as the buffer, and each is
/// a part of one frame that is not empty.
pub proof fn lemma_buffer_slices_cover(pt: &PageTable, start: u64, end: u64)
    requires
        start <= end,
    ensures
        covered(buffer_slices(pt, start, end), buffer_slices(pt, start, end).len() as int) == end
            - start,
        forall|i: int|
            0 <= i < buffer_slices(pt, start, end).len() ==> (#[trigger] buffer_slices(
                pt,
                start,
                end,
            )[i]).wf(),
    decreases end - start,
{
    if start < end {
        lemma_slice_at(pt, start, end);
        let s = slice_at(pt, start, end);
        let next = (start + s.spec_len()) as u64;
        let rest = buffer_slices(pt, next, end);
        lemma_buffer_slices_cover(pt, next, end);
        let all = buffer_slices(pt, start, end);
        assert(all =~= seq![s] + rest);
        lemma_covered_cons(s, rest, rest.len() as int);
        assert forall|i: int| 0 <= i < all.len() implies (#[trigger] all[i]).wf() by {
            if i > 0 {
                assert(all[i] == rest[i - 1]);
            }
        }
    }
}

/// A slice in front adds the bytes it holds to what is covered.
pub proof fn lemma_covered_cons(s: PhysSlice, rest: Seq<PhysSlice>, n: int)
    requires
        0 <= n <= rest.len(),
    ensures
        covered(seq![s] + rest, n + 1) == s.spec_len() + covered(rest, n),
    decreases n,
{
    let all = seq![s] + rest;
    if n > 0 {
        lemma_covered_cons(s, rest, n - 1);
        assert(all[n] == rest[n - 1]);
    } else {
        assert(all[0] == s);
        assert(covered(all, 0) == 0);
    }
}

/// The slices of a buffer that is not empty are the slice in the page of
/// its start and the slices of what follows.
pub proof fn lemma_buffer_slices_step(pt: &PageTable, start: u64, end: u64)
    requires
        start < end,
    ensures
        buffer_slices(pt, start, end) == seq![slice_at(pt, start, end)] + buffer_slices(
            pt,
            (start + slice_at(pt, start, end).spec_len()) as u64,
            end,
        ),
{
    lemma_slice_at(pt, start, end);
    let s = slice_at(pt, start, end);
    let next = (start + s.spec_len()) as u64;
    let rest = buffer_slices(pt, next, end);
    if next >= end {
        assert(rest =~= Seq::<PhysSlice>::empty());
    }
    assert(buffer_slices(pt, start, end) =~= seq![s] + rest);
}

/// A byte of the slice in the page of `start` lies in that page, at the
/// offset that follows from the offset of `start`.
pub proof fn lemma_byte_in_first_slice(start: u64, end: u64, k: int)
    requires
        start < end,
        0 <= k,
        k < end - start,
        start + k < (start / 4096 + 1) * 4096,
    ensures
        vpn_of((start + k) as u64) == vpn_of(start),
        (start + k) % 4096 == start % 4096 + k,
{
    let a = start as int;
    assert((a + k) / 4096 == a / 4096);
    assert((a + k) % 4096 == a % 4096 + k);
    let b = (start + k) as u64;
    assert(b as int == a + k);
    assert((b as int % 0x80_0000_0000) / 4096 == (a % 0x80_0000_0000) / 4096) by {
        assert(a / 4096 == (a / 0x80_0000_0000) * 0x800_0000 + (a % 0x80_0000_0000) / 4096);
        assert((a + k) / 4096 == ((a + k) / 0x80_0000_0000) * 0x800_0000 + ((a + k)
            % 0x80_0000_0000) / 4096);
        assert((a % 0x80_0000_0000) / 4096 < 0x800_0000);
        assert(((a + k) % 0x80_0000_0000) / 4096 < 0x800_0000);
    }
}

/// Where the slices of a buffer hold byte `k` of the buffer: in the
/// slice before which the slices hold at most `k` bytes and with which
/// they hold more, in the frame that `pt` gives for the page of the byte,
/// at the offset of the byte in its page. So the slices hold the bytes of
/// the buffer in order, each byte once.
pub proof fn lemma_buffer_byte(pt: &PageTable, start: u64, end: u64, k: int) -> (i: int)
    requires
        start <= end,
        0 <= k < end - start,
    ensures
        0 <= i < buffer_slices(pt, start, end).len(),
        covered(buffer_slices(pt, start, end), i) <= k < covered(
            buffer_slices(pt, start, end),
            i + 1,
        ),
        buffer_slices(pt, start, end)[i].ppn == pt.walk(
            vpn_of((start + k) as u64),
        )->Some_0.spec_ppn(),
        buffer_slices(pt, start, end)[i].start + (k - covered(buffer_slices(pt, start, end), i)) == (
        start + k) % 4096,
    decreases end - start,
{
    lemma_slice_at(pt, start, end);
    lemma_buffer_slices_step(pt, start, end);
    let s = slice_at(pt, start, end);
    let n = s.spec_len();
    let next = (start + n) as u64;
    let rest = buffer_slices(pt, next, end);
    let all = buffer_slices(pt, start, end);
    assert(all == seq![s] + rest);
    assert(all.len() == rest.len() + 1);
    assert(all[0] == s);
    lemma_covered_cons(s, rest, 0);
    assert(covered(rest, 0) == 0);
    assert(covered(all, 0) == 0);
    assert(covered(all, 1) == n);
    if k < n {
        lemma_byte_in_first_slice(start, end, k);
        assert(s.start == start % 4096);
        0
    } else {
        let j = lemma_buffer_byte(pt, next, end, k - n);
        lemma_covered_cons(s, rest, j);
        lemma_covered_cons(s, rest, j + 1);
        assert(all[j + 1] == rest[j]);
        assert((next + (k - n)) as u64 == (start + k) as u64);
        j + 1
    }
}

/// The slice of the buffer `[start, end)` that lies in the page of
/// `start`, and the address after it.
fn next_slice(page_table: &PageTable, start: u64, end: u64) -> (r: (PhysSlice, u64))
    requires
        page_table.readable(),
        start < end <= 0x40_0000_0000,
        page_table.walk(vpn_of(start)) is Some,
    ensures
        r.0 == slice_at(page_table, start, end),
        r.0.wf(),
        r.1 == start + r.0.spec_len(),
        r.1 <= end,
{
    proof {
        lemma_masks(start);
        lemma_masks(end);
    }
    let start_va = VirtAddr::from(start);
    let mut vpn = start_va.floor();
    assert(vpn == vpn_of(start));
    let ppn = match page_table.translate(vpn) {
        Some(pte) => pte.ppn(),
        None => PhysPageNum(0),
    };
    vpn.step();
    proof {
        lemma_shift_page(vpn.0);
    }
    let mut end_va: VirtAddr = VirtAddr::from(vpn);
    let end_masked = VirtAddr::from(end);
    if end_masked.0 < end_va.0 {
        end_va = end_masked;
    }
    let slice = if end_va.page_offset() == 0 {
        PhysSlice { ppn, start: start_va.page_offset() as usize, end: 4096 }
    } else {
        PhysSlice { ppn, start: start_va.page_offset() as usize, end: end_va.page_offset() as usize }
    };
    (slice, start + (slice.len() as u64))
}

/// The physical slices that hold the `len` bytes of a user buffer at
/// `ptr`, in order, one for each page that the buffer touches.
pub fn translated_byte_buffer(page_table: &PageTable, ptr: u64, len: usize) -> (r: Vec<PhysSlice>)
    requires
        page_table.readable(),
        ptr + len <= 0x40_0000_0000,
        forall|va: u64| ptr <= va < ptr + len ==> (#[trigger] page_table.walk(vpn_of(va))) is Some,
    ensures
        r@ == buffer_slices(page_table, ptr, (ptr + len) as u64),
{
    let mut start: u64 = ptr;
    let end: u64 = ptr + len as u64;
    let mut v: Vec<PhysSlice> = Vec::new();
    assert(v@ + buffer_slices(page_table, start, end) =~= buffer_slices(page_table, ptr, end));
    while start < end
        invariant
            page_table.readable(),
            ptr <= start <= end,
            end == ptr + len,
            end <= 0x40_0000_0000,
            forall|va: u64| ptr <= va < ptr + len ==> (#[trigger] page_table.walk(vpn_of(va))) is Some,
            v@ + buffer_slices(page_table, start, end) == buffer_slices(page_table, ptr, end),
        decreases end - start,
    {
        let (slice, next) = next_slice(page_table, start, end);
        proof {
            let rest = buffer_slices(page_table, next, end);
            assert(buffer_slices(page_table, start, end) == seq![slice] + rest);
            assert(v@.push(slice) + rest =~= v@ + (seq![slice] + rest));
        }
        v.push(slice);
        start = next;
    }
    assert(v@ + buffer_slices(page_table, start, end) =~= v@);
    v
}

/// The buffer of a user program as an array of slices of physical
/// frames.
pub struct UserBuffer {
    /// The slices, in the order of the bytes of the buffer.
    pub buffers: Vec<PhysSlice>,
}

impl UserBuffer {
    /// Every slice is in order.
    pub open spec fn wf(&self) -> bool {
        forall|i: int| 0 <= i < self.buffers@.len() ==> (#[trigger] self.buffers@[i]).wf()
    }

    /// A buffer made of `buffers`.
    pub fn new(buffers: Vec<PhysSlice>) -> (r: Self)
        ensures
            r.buffers == buffers,
    {
        Self { buffers }
    }

    /// Number of bytes in the buffer.
    pub fn len(&self) -> (r: usize)
        requires
            self.wf(),
            covered(self.buffers@, self.buffers@.len() as int) <= usize::MAX,
        ensures
            r == covered(self.buffers@, self.buffers@.len() as int),
    {
        let mut total: usize = 0;
        let mut i: usize = 0;
        proof {
            lemma_covered_mono(self.buffers@, 0, self.buffers@.len() as int);
        }
        while i < self.buffers.len()
            invariant
                i <= self.buffers@.len(),
                self.wf(),
                total == covered(self.buffers@, i as int),
                covered(self.buffers@, self.buffers@.len() as int) <= usize::MAX,
            decreases self.buffers@.len() - i,
        {
            proof {
                lemma_covered_mono(self.buffers@, i + 1, self.buffers@.len() as int);
            }
            total += self.buffers[i].len();
            i += 1;
        }
        total
    }

    /// Turns the buffer into a walk over the addresses of its bytes.
    pub fn into_iter(self) -> (r: UserBufferIterator)
        ensures
            r.buffers == self.buffers,
            r.current_buffer == 0,
            r.current_idx == 0,
    {
        UserBufferIterator { buffers: self.buffers, current_buffer: 0, current_idx: 0 }
    }
}

/// More slices cover no less.
pub proof fn lemma_covered_mono(slices: Seq<PhysSlice>, a: int, b: int)
    requires
        0 <= a <= b <= slices.len(),
        forall|i: int| 0 <= i < slices.len() ==> (#[trigger] slices[i]).wf(),
    ensures
        0 <= covered(slices, a) <= covered(slices, b),
    decreases b,
{
    if a < b {
        lemma_covered_mono(slices, a, b - 1);
    } else if a > 0 {
        lemma_covered_mono(slices, a - 1, a - 1);
    }
}

/// A walk over the addresses of the bytes of a user buffer.
pub struct UserBufferIterator {
    /// The slices of the buffer.
    pub buffers: Vec<PhysSlice>,
    /// Index of the slice of the next byte.
    pub current_buffer: usize,
    /// Index of the next byte in its slice.
    pub current_idx: usize,
}

impl UserBufferIterator {
    /// Every slice is in order and starts at an address of at most 56
    /// bits, and the position lies in a slice or after the last.
    pub open spec fn wf(&self) -> bool {
        &&& forall|i: int|
            0 <= i < self.buffers@.len() ==> (#[trigger] self.buffers@[i]).wf()
                && self.buffers@[i].ppn.0 < 0x1000_0000_0000
        &&& self.current_buffer < self.buffers@.len() ==> self.current_idx
            < self.buffers@[self.current_buffer as int].spec_len()
    }

    /// The physical address of the next byte, or nothing after the last
    /// byte; moves on by one byte.
    pub fn next(&mut self) -> (r: Option<PhysAddr>)
        requires
            old(self).wf(),
        ensures
            final(self).wf(),
            final(self).buffers == old(self).buffers,
            old(self).current_buffer >= old(self).buffers@.len() ==> r is None && final(self).current_buffer == old(self).current_buffer && final(self).current_idx == old(self).current_idx,
            old(self).current_buffer < old(self).buffers@.len() ==> {
                let b = old(self).buffers@[old(self).current_buffer as int];
                &&& r == Some(PhysAddr((b.ppn.0 * 4096 + b.start + old(self).current_idx) as u64))
                &&& if old(self).current_idx + 1 == b.spec_len() {
                    final(self).current_buffer == old(self).current_buffer + 1 && final(self).current_idx == 0
                } else {
                    final(self).current_buffer == old(self).current_buffer && final(self).current_idx == old(self).current_idx + 1
                }
            },
    {
        if self.current_buffer >= self.buffers.len() {
            None
        } else {
            let b = self.buffers[self.current_buffer];
            let r = PhysAddr(b.ppn.0 * 4096 + (b.start + self.current_idx) as u64);
            if self.current_idx + 1 == b.len() {
                self.current_idx = 0;
                self.current_buffer += 1;
            } else {
                self.current_idx += 1;
            }
            Some(r)
        }
    }
}

/// Whether byte `n` after `ptr` is the first zero byte there, and every
/// byte up to it has a frame in `space`.
pub open spec fn str_ends_at(space: &MemorySet, ptr: u64, n: int) -> bool {
    &&& 0 <= n
    &&& ptr + n <= u64::MAX
    &&& forall|k: int|
        0 <= k <= n ==> #[trigger] space.backed(vpn_of((ptr + k) as u64))
    &&& forall|k: int|
        0 <= k < n ==> #[trigger] space.page(vpn_of((ptr + k) as u64))[(ptr + k) % 4096] != 0
    &&& space.page(vpn_of((ptr + n) as u64))[(ptr + n) % 4096] == 0
}

/// The characters of the string at `ptr`, given its length.
pub open spec fn str_chars(space: &MemorySet, ptr: u64, n: int) -> Seq<char> {
    Seq::new(n as nat, |k: int| space.page(vpn_of((ptr + k) as u64))[(ptr + k) % 4096] as char)
}

/// Appends `c` to `s`. Wraps `String::push` of the standard library,
/// which adds the character at the end and changes nothing else.
#[verifier::external_body]
fn string_push(s: &mut String, c: char)
    ensures
        final(s)@ == old(s)@.push(c),
{
    s.push(c)
}

/// The string of a user program at `ptr`: its bytes up to the first zero
/// byte, each taken as one character.
pub fn translated_str(space: &MemorySet, ptr: u64) -> (r: String)
    requires
        space.wf(),
        exists|n: int| str_ends_at(space, ptr, n),
    ensures
        forall|n: int| str_ends_at(space, ptr, n) ==> r@ == str_chars(space, ptr, n),
{
    let mut string = String::new();
    let mut va: u64 = ptr;
    let ghost n = choose|n: int| str_ends_at(space, ptr, n);
    loop
        invariant
            space.wf(),
            str_ends_at(space, ptr, n),
            ptr <= va <= ptr + n,
            string@ == str_chars(space, ptr, va - ptr),
        ensures
            va == ptr + n,
            string@ == str_chars(space, ptr, n),
        decreases ptr + n - va,
    {
        assert(space.backed(vpn_of((ptr + (va - ptr)) as u64)));
        let ch: u8 = space.read_byte(va);
        if ch == 0 {
            proof {
                if va < ptr + n {
                    assert(space.page(vpn_of((ptr + (va - ptr)) as u64))[(ptr + (va - ptr)) % 4096]
                        != 0);
                }
            }
            break ;
        } else {
            string_push(&mut string, ch as char);
            proof {
                assert(va < ptr + n);
                assert(string@ =~= str_chars(space, ptr, va + 1 - ptr));
            }
            va += 1;
        }
    }
    proof {
        assert forall|m: int| str_ends_at(space, ptr, m) implies string@ == str_chars(space, ptr, m) by {
            if m < n {
                assert(space.page(vpn_of((ptr + m) as u64))[(ptr + m) % 4096] != 0);
            } else if n < m {
                assert(space.page(vpn_of((ptr + n) as u64))[(ptr + n) % 4096] != 0);
            }
        }
    }
    string
}

/// Length of the string of a user program at `ptr`: the number of its
/// bytes before the first zero byte, or nothing where a byte without a
/// frame comes before a zero byte.
pub fn user_str_len(space: &MemorySet, ptr: u64) -> (r: Option<u64>)
    requires
        space.wf(),
    ensures
        r matches Some(n) ==> str_ends_at(space, ptr, n as int),
        r is None ==> forall|n: int| !str_ends_at(space, ptr, n),
{
    let mut va: u64 = ptr;
    loop
        invariant
            space.wf(),
            ptr <= va,
            forall|k: int| 0 <= k < va - ptr ==> #[trigger] space.backed(vpn_of((ptr + k) as u64)),
            forall|k: int|
                0 <= k < va - ptr ==> #[trigger] space.page(vpn_of((ptr + k) as u64))[(ptr + k)
                    % 4096] != 0,
        decreases u64::MAX - va,
    {
        let ghost k = va - ptr;
        if !space.is_backed(va) {
            proof {
                assert forall|n: int| !str_ends_at(space, ptr, n) by {
                    if str_ends_at(space, ptr, n) {
                        if n < k {
                            assert(space.page(vpn_of((ptr + n) as u64))[(ptr + n) % 4096] != 0);
                        } else {
                            assert(space.backed(vpn_of((ptr + k) as u64)));
                        }
                    }
                }
            }
            return None;
        }
        if space.read_byte(va) == 0 {
            proof {
                assert forall|j: int| 0 <= j <= k implies #[trigger] space.backed(
                    vpn_of((ptr + j) as u64),
                ) by {
                    if j == k {
                        assert(space.backed(vpn_of(va)));
                    }
                }
            }
            return Some(va - ptr);
        }
        if va == u64::MAX {
            proof {
                assert forall|n: int| !str_ends_at(space, ptr, n) by {
                    if str_ends_at(space, ptr, n) {
                        assert(space.page(vpn_of((ptr + n) as u64))[(ptr + n) % 4096] != 0);
                    }
                }
            }
            return None;
        }
        va += 1;
    }
}

/// The string of a user program at `ptr`, or nothing where a byte
/// without a frame comes before the zero byte that ends it.
pub fn translated_str_checked(space: &MemorySet, ptr: u64) -> (r: Option<String>)
    requires
        space.wf(),
    ensures
        r is Some <==> exists|n: int| str_ends_at(space, ptr, n),
        r matches Some(s) ==> forall|n: int|
            str_ends_at(space, ptr, n) ==> s@ == str_chars(space, ptr, n),
{
    match user_str_len(space, ptr) {
        Some(n) => {
            assert(str_ends_at(space, ptr, n as int));
            Some(translated_str(space, ptr))
        },
        None => None,
    }
}

} // verus!
