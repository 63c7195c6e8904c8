//! The arguments of a program on its user stack.
use crate::mm::access::{same_shape, vpn_of};
use crate::mm::address::VirtPageNum;
use crate::mm::frame_allocator::{lemma_with_word, with_word, word_at};
use crate::mm::memory_set::MemorySet;
use vstd::prelude::*;
use vstd::utf8::encode_utf8;

verus! {

/// The arguments as byte strings.
pub open spec fn arg_seqs(args: Seq<String>) -> Seq<Seq<u8>> {
    Seq::new(args.len(), |i: int| encode_utf8(args[i]@))
}

/// Number of bytes that the first `i` arguments take on the stack, each
/// with the zero byte that ends it.
pub open spec fn args_size(args: Seq<Seq<u8>>, i: int) -> int
    decreases i,
{
    if i <= 0 {
        0
    } else {
        args_size(args, i - 1) + args[i - 1].len() + 1
    }
}

/// Offset in the stack of the array of pointers to `n` arguments: it
/// ends at the top of the stack and has one pointer more than there are
/// arguments.
pub open spec fn argv_off(n: int) -> int {
    8192 - 8 * (n + 1)
}

/// Offset in the stack of argument `i`: the arguments lie below the
/// array of pointers, the first highest.
pub open spec fn str_off(args: Seq<Seq<u8>>, i: int) -> int {
    argv_off(args.len() as int) - args_size(args, i + 1)
}

/// Pointer number `i` of the array of pointers to `n` arguments.
pub open spec fn argv_word(image: Seq<u8>, n: int, i: int) -> u64 {
    word_at(image, argv_off(n) + 8 * i)
}

/// Byte `k` of argument `i` on the stack.
pub open spec fn str_byte(image: Seq<u8>, args: Seq<Seq<u8>>, i: int, k: int) -> u8 {
    image[str_off(args, i) + k]
}

/// Whether the stack `image`, whose first byte has address `base`, holds
/// the first `i` arguments with their pointers, the pointer that ends the
/// array, and, where `k` is not negative, the pointer to argument `i` and
/// its first `k` bytes, the zero byte that ends it counted as one more.
pub open spec fn pushed(image: Seq<u8>, base: u64, args: Seq<Seq<u8>>, i: int, k: int) -> bool {
    let n = args.len() as int;
    &&& image.len() == 8192
    &&& argv_word(image, n, n) == 0
    &&& forall|j: int| 0 <= j < i ==> #[trigger] argv_word(image, n, j) == base + str_off(args, j)
    &&& forall|j: int, l: int|
        0 <= j < i && 0 <= l < args[j].len() ==> #[trigger] str_byte(image, args, j, l) == args[j][l]
    &&& forall|j: int|
        0 <= j < i ==> #[trigger] str_byte(image, args, j, args[j].len() as int) == 0
    &&& k >= 0 ==> {
        &&& argv_word(image, n, i) == base + str_off(args, i)
        &&& forall|l: int|
            0 <= l < k && l < args[i].len() ==> #[trigger] str_byte(image, args, i, l) == args[i][l]
        &&& k > args[i].len() ==> str_byte(image, args, i, args[i].len() as int) == 0
    }
}

/// Whether the stack `image`, whose first byte has address `base`, holds
/// the arguments `args`: each argument followed by a zero byte, the first
/// highest, and above them the array of the addresses of the arguments,
/// ended by a zero pointer at the top of the stack.
pub open spec fn args_on_stack(image: Seq<u8>, base: u64, args: Seq<Seq<u8>>) -> bool {
    pushed(image, base, args, args.len() as int, -1)
}

/// The stack pointer of a program with the arguments `args` on a stack
/// below `top`: the multiple of eight at or below the lowest argument.
pub open spec fn args_sp(top: u64, args: Seq<Seq<u8>>) -> u64 {
    let low = top - 8 * (args.len() + 1) - args_size(args, args.len() as int);
    (low - low % 8) as u64
}

/// The arguments fit on a stack of 8192 bytes.
pub open spec fn args_fit(args: Seq<Seq<u8>>) -> bool {
    8 * (args.len() + 1) + args_size(args, args.len() as int) <= 8192
}

/// Arguments take no negative number of bytes.
pub proof fn lemma_args_size_nonneg(args: Seq<Seq<u8>>, i: int)
    requires
        0 <= i <= args.len(),
    ensures
        0 <= args_size(args, i),
    decreases i,
{
    if i > 0 {
        lemma_args_size_nonneg(args, i - 1);
    }
}

/// The first arguments take no more bytes than all.
pub proof fn lemma_args_size(args: Seq<Seq<u8>>, i: int, n: int)
    requires
        0 <= i <= n <= args.len(),
    ensures
        0 <= args_size(args, i) <= args_size(args, n),
        i < n ==> args_size(args, i + 1) <= args_size(args, n),
    decreases n - i,
{
    lemma_args_size_nonneg(args, i);
    if i < n {
        lemma_args_size(args, i + 1, n);
    }
}

/// A byte stored outside a word leaves the word as it was.
pub proof fn lemma_word_after_byte(s: Seq<u8>, o: int, v: u8, w: int)
    requires
        0 <= w,
        w + 8 <= s.len(),
        0 <= o < s.len(),
        o < w || o >= w + 8,
    ensures
        word_at(s.update(o, v), w) == word_at(s, w),
{
    assert(s.update(o, v).subrange(w, w + 8) =~= s.subrange(w, w + 8));
}

/// Storing the pointer that ends the array of pointers.
pub proof fn lemma_push_end(image: Seq<u8>, base: u64, args: Seq<Seq<u8>>)
    requires
        image.len() == 8192,
        args_fit(args),
    ensures
        pushed(with_word(image, 8192 - 8, 0), base, args, 0, -1),
{
    lemma_with_word(image, 8192 - 8, 0);
}

/// Storing the pointer to argument `i`.
pub proof fn lemma_push_ptr(image: Seq<u8>, base: u64, args: Seq<Seq<u8>>, i: int)
    requires
        pushed(image, base, args, i, -1),
        0 <= i < args.len(),
        args_fit(args),
        base + 8192 <= u64::MAX,
    ensures
        pushed(
            with_word(
                image,
                argv_off(args.len() as int) + 8 * i,
                (base + str_off(args, i)) as u64,
            ),
            base,
            args,
            i,
            0,
        ),
        0 <= str_off(args, i),
        str_off(args, i) + args[i].len() < argv_off(args.len() as int),
{
    let n = args.len() as int;
    let off = argv_off(n) + 8 * i;
    let w = (base + str_off(args, i)) as u64;
    let after = with_word(image, off, w);
    lemma_args_size(args, i, n);
    lemma_with_word(image, off, w);
    assert(argv_word(after, n, n) == argv_word(image, n, n));
    assert forall|j: int| 0 <= j < i implies #[trigger] argv_word(after, n, j) == base + str_off(
        args,
        j,
    ) by {
        assert(argv_word(image, n, j) == base + str_off(args, j));
        assert(word_at(after, argv_off(n) + 8 * j) == word_at(image, argv_off(n) + 8 * j));
    }
    assert forall|j: int, l: int| 0 <= j < i && 0 <= l < args[j].len() implies #[trigger] str_byte(
        after,
        args,
        j,
        l,
    ) == args[j][l] by {
        lemma_args_size(args, j + 1, n);
        lemma_args_size(args, j, n);
        assert(str_byte(image, args, j, l) == args[j][l]);
    }
    assert forall|j: int| 0 <= j < i implies #[trigger] str_byte(
        after,
        args,
        j,
        args[j].len() as int,
    ) == 0 by {
        lemma_args_size(args, j + 1, n);
        lemma_args_size(args, j, n);
        assert(str_byte(image, args, j, args[j].len() as int) == 0);
    }
}

/// Storing byte `k` of argument `i`, or the zero byte that ends it where
/// `k` is its length.
pub proof fn lemma_push_byte(image: Seq<u8>, base: u64, args: Seq<Seq<u8>>, i: int, k: int, v: u8)
    requires
        pushed(image, base, args, i, k),
        0 <= i < args.len(),
        0 <= k <= args[i].len(),
        v == if k < args[i].len() {
            args[i][k]
        } else {
            0u8
        },
        args_fit(args),
    ensures
        pushed(image.update(str_off(args, i) + k, v), base, args, i, k + 1),
        0 <= str_off(args, i) + k < 8192,
{
    let n = args.len() as int;
    let o = str_off(args, i) + k;
    let after = image.update(o, v);
    lemma_args_size(args, i, n);
    assert(0 <= o < argv_off(n));
    lemma_word_after_byte(image, o, v, argv_off(n) + 8 * n);
    lemma_word_after_byte(image, o, v, argv_off(n) + 8 * i);
    assert forall|j: int| 0 <= j < i implies #[trigger] argv_word(after, n, j) == base + str_off(
        args,
        j,
    ) by {
        assert(argv_word(image, n, j) == base + str_off(args, j));
        lemma_word_after_byte(image, o, v, argv_off(n) + 8 * j);
    }
    assert forall|j: int, l: int| 0 <= j < i && 0 <= l < args[j].len() implies #[trigger] str_byte(
        after,
        args,
        j,
        l,
    ) == args[j][l] by {
        lemma_args_size(args, j + 1, i);
        lemma_args_size(args, j, n);
        assert(str_byte(image, args, j, l) == args[j][l]);
    }
    assert forall|j: int| 0 <= j < i implies #[trigger] str_byte(
        after,
        args,
        j,
        args[j].len() as int,
    ) == 0 by {
        lemma_args_size(args, j + 1, i);
        lemma_args_size(args, j, n);
        assert(str_byte(image, args, j, args[j].len() as int) == 0);
    }
    assert forall|l: int| 0 <= l < k + 1 && l < args[i].len() implies #[trigger] str_byte(
        after,
        args,
        i,
        l,
    ) == args[i][l] by {
        if l < k {
            assert(str_byte(image, args, i, l) == args[i][l]);
        }
    }
}

/// An argument that is stored with its pointer and its end is one of the
/// arguments that are stored.
pub proof fn lemma_push_done(image: Seq<u8>, base: u64, args: Seq<Seq<u8>>, i: int)
    requires
        0 <= i < args.len(),
        pushed(image, base, args, i, args[i].len() as int + 1),
    ensures
        pushed(image, base, args, i + 1, -1),
{
    let n = args.len() as int;
    assert forall|j: int| 0 <= j < i + 1 implies #[trigger] argv_word(image, n, j) == base + str_off(
        args,
        j,
    ) by {}
    assert forall|j: int, l: int|
        0 <= j < i + 1 && 0 <= l < args[j].len() implies #[trigger] str_byte(image, args, j, l)
        == args[j][l] by {}
    assert forall|j: int| 0 <= j < i + 1 implies #[trigger] str_byte(
        image,
        args,
        j,
        args[j].len() as int,
    ) == 0 by {}
}

/// Whether the 8192 bytes below the address `top` are two pages that
/// have frames in `space`.
pub open spec fn stack_at(space: &MemorySet, top: u64) -> bool {
    &&& top >= 8192
    &&& top % 4096 == 0
    &&& space.backed(vpn_of((top - 8192) as u64))
    &&& space.backed(vpn_of((top - 4096) as u64))
    &&& vpn_of((top - 8192) as u64) != vpn_of((top - 4096) as u64)
    &&& space.page(vpn_of((top - 8192) as u64)).len() == 4096
    &&& space.page(vpn_of((top - 4096) as u64)).len() == 4096
    &&& forall|va: u64|
        top - 8192 <= va < top ==> #[trigger] vpn_of(va) == if va < top - 4096 {
            vpn_of((top - 8192) as u64)
        } else {
            vpn_of((top - 4096) as u64)
        }
}

/// The 8192 bytes below the address `top`, lowest address first.
pub open spec fn stack_image(space: &MemorySet, top: u64) -> Seq<u8> {
    space.page(vpn_of((top - 8192) as u64)) + space.page(vpn_of((top - 4096) as u64))
}

/// Whether `after` is `before` but for the two pages below `top`.
pub open spec fn stack_changed(before: &MemorySet, after: &MemorySet, top: u64) -> bool {
    &&& same_shape(before, after)
    &&& forall|p: VirtPageNum| #[trigger] before.backed(p) ==> after.backed(p)
    &&& forall|p: VirtPageNum|
        before.backed(p) && p != vpn_of((top - 8192) as u64) && p != vpn_of((top - 4096) as u64)
            ==> #[trigger] after.page(p) == before.page(p)
}

/// An address of the stack below `top` lies in a page that has a frame;
/// a word at a multiple of eight lies in one page.
pub proof fn lemma_stack_va(space: &MemorySet, top: u64, va: u64)
    requires
        stack_at(space, top),
        top - 8192 <= va < top,
    ensures
        space.backed(vpn_of(va)),
        space.page(vpn_of(va)) == if va < top - 4096 {
            space.page(vpn_of((top - 8192) as u64))
        } else {
            space.page(vpn_of((top - 4096) as u64))
        },
        va % 4096 == (va - (top - 8192)) % 4096,
        va % 8 == 0 ==> va % 4096 <= 4088,
{
    let base = (top - 8192) as u64;
    assert(base % 4096 == 0 && base <= va ==> va % 4096 == (va - base) % 4096 && (va % 8 == 0 ==> va
        % 4096 <= 4088)) by (bit_vector);
    assert(top % 4096 == 0 && top >= 8192 && base == top - 8192 ==> base % 4096 == 0) by (bit_vector);
}

/// What a change of one page of the stack below `top` makes of the
/// stack.
pub proof fn lemma_stack_after_write(
    before: &MemorySet,
    after: &MemorySet,
    top: u64,
    va: u64,
    new_page: Seq<u8>,
)
    requires
        stack_at(before, top),
        top - 8192 <= va < top,
        new_page.len() == 4096,
        same_shape(before, after),
        forall|p: VirtPageNum| #[trigger] before.backed(p) ==> after.backed(p),
        forall|p: VirtPageNum|
            before.backed(p) ==> #[trigger] after.page(p) == if p == vpn_of(va) {
                new_page
            } else {
                before.page(p)
            },
    ensures
        stack_at(after, top),
        stack_changed(before, after, top),
        stack_image(after, top) == if top - va > 4096 {
            new_page + before.page(vpn_of((top - 4096) as u64))
        } else {
            before.page(vpn_of((top - 8192) as u64)) + new_page
        },
{
    let lo = vpn_of((top - 8192) as u64);
    let hi = vpn_of((top - 4096) as u64);
    assert(vpn_of(va) == if va < top - 4096 {
        lo
    } else {
        hi
    });
    assert(after.page(lo) == if lo == vpn_of(va) {
        new_page
    } else {
        before.page(lo)
    });
    assert(after.page(hi) == if hi == vpn_of(va) {
        new_page
    } else {
        before.page(hi)
    });
    assert(after.backed(lo) && after.backed(hi));
}

/// Stores `v` at the address `va` of the stack below `top`.
pub fn put_byte(space: &mut MemorySet, top: u64, va: u64, v: u8)
    requires
        old(space).wf(),
        stack_at(old(space), top),
        top - 8192 <= va < top,
    ensures
        final(space).wf(),
        stack_at(final(space), top),
        stack_changed(old(space), final(space), top),
        stack_image(final(space), top) == stack_image(old(space), top).update(
            va - (top - 8192),
            v,
        ),
{
    let ghost pg = old(space).page(vpn_of(va));
    proof {
        lemma_stack_va(old(space), top, va);
    }
    space.write_byte(va, v);
    proof {
        let newp = pg.update((va % 4096) as int, v);
        assert forall|p: VirtPageNum| old(space).backed(p) implies #[trigger] space.page(p) == if p
            == vpn_of(va) {
            newp
        } else {
            old(space).page(p)
        } by {}
        lemma_stack_after_write(old(space), space, top, va, newp);
        lemma_image_byte(
            old(space).page(vpn_of((top - 8192) as u64)),
            old(space).page(vpn_of((top - 4096) as u64)),
            va - (top - 8192),
            v,
        );
    }
}

/// A byte stored in one of two pages is a byte stored in the two pages
/// taken together.
pub proof fn lemma_image_byte(lo: Seq<u8>, hi: Seq<u8>, o: int, v: u8)
    requires
        lo.len() == 4096,
        hi.len() == 4096,
        0 <= o < 8192,
    ensures
        (lo + hi).update(o, v) == if o < 4096 {
            lo.update(o, v) + hi
        } else {
            lo + hi.update(o - 4096, v)
        },
{
    if o < 4096 {
        assert((lo + hi).update(o, v) =~= lo.update(o, v) + hi);
    } else {
        assert((lo + hi).update(o, v) =~= lo + hi.update(o - 4096, v));
    }
}

/// A word stored in one of two pages is a word stored in the two pages
/// taken together.
pub proof fn lemma_image_word(lo: Seq<u8>, hi: Seq<u8>, o: int, w: u64)
    requires
        lo.len() == 4096,
        hi.len() == 4096,
        0 <= o,
        o + 8 <= 8192,
        o % 8 == 0,
    ensures
        with_word(lo + hi, o, w) == if o < 4096 {
            with_word(lo, o, w) + hi
        } else {
            lo + with_word(hi, o - 4096, w)
        },
{
    if o < 4096 {
        assert(with_word(lo + hi, o, w) =~= with_word(lo, o, w) + hi);
    } else {
        assert(with_word(lo + hi, o, w) =~= lo + with_word(hi, o - 4096, w));
    }
}

/// Stores `w` as a little-endian word at the address `va` of the stack
/// below `top`.
pub fn put_word(space: &mut MemorySet, top: u64, va: u64, w: u64)
    requires
        old(space).wf(),
        stack_at(old(space), top),
        top - 8192 <= va,
        va + 8 <= top,
        va % 8 == 0,
    ensures
        final(space).wf(),
        stack_at(final(space), top),
        stack_changed(old(space), final(space), top),
        stack_image(final(space), top) == with_word(
            stack_image(old(space), top),
            va - (top - 8192),
            w,
        ),
{
    let ghost pg = old(space).page(vpn_of(va));
    let ghost lo = old(space).page(vpn_of((top - 8192) as u64));
    let ghost hi = old(space).page(vpn_of((top - 4096) as u64));
    let ghost off = va - (top - 8192);
    proof {
        lemma_stack_va(old(space), top, va);
        assert(old(space).word_backed(va));
    }
    space.write_word(va, w);
    proof {
        let newp = with_word(pg, (va % 4096) as int, w);
        lemma_with_word(pg, (va % 4096) as int, w);
        assert(newp.len() == 4096);
        assert forall|p: VirtPageNum| old(space).backed(p) implies #[trigger] space.page(p) == if p
            == vpn_of(va) {
            newp
        } else {
            old(space).page(p)
        } by {}
        lemma_stack_after_write(old(space), space, top, va, newp);
        lemma_image_word(lo, hi, off, w);
        assert(va % 4096 == off % 4096);
        if off < 4096 {
            assert(pg == lo);
            assert(va % 4096 == off);
        } else {
            assert(pg == hi);
            assert(va % 4096 == off - 4096);
        }
    }
}

/// Changes of the stack one after the other are a change of the stack.
pub proof fn lemma_stack_changed_trans(a: &MemorySet, b: &MemorySet, c: &MemorySet, top: u64)
    requires
        stack_changed(a, b, top),
        stack_changed(b, c, top),
    ensures
        stack_changed(a, c, top),
{
    reveal(same_shape);
    assert forall|p: VirtPageNum| #[trigger] a.backed(p) implies c.backed(p) by {
        assert(b.backed(p));
    }
    assert forall|p: VirtPageNum|
        a.backed(p) && p != vpn_of((top - 8192) as u64) && p != vpn_of(
            (top - 4096) as u64,
        ) implies #[trigger] c.page(p) == a.page(p) by {
        assert(b.backed(p));
        assert(b.page(p) == a.page(p));
    }
    assert forall|x: int| 0 <= x < a.areas.len() implies crate::mm::access::area_same_shape(
        &(#[trigger] a.areas[x]),
        &c.areas[x],
    ) by {
        assert(crate::mm::access::area_same_shape(&a.areas[x], &b.areas[x]));
        assert(crate::mm::access::area_same_shape(&b.areas[x], &c.areas[x]));
        assert forall|i: int| 0 <= i < a.areas[x].data_frames.len() implies (
        #[trigger] a.areas[x].data_frames[i]).ppn == c.areas[x].data_frames[i].ppn
            && a.areas[x].data_frames[i]@.len() == c.areas[x].data_frames[i]@.len() by {
            assert(a.areas[x].data_frames[i].ppn == b.areas[x].data_frames[i].ppn);
            assert(b.areas[x].data_frames[i].ppn == c.areas[x].data_frames[i].ppn);
        }
    }
}

/// Offset in the stack of the lowest byte that the arguments `args` and
/// the array of their addresses take.
pub open spec fn args_low(args: Seq<Seq<u8>>) -> int {
    argv_off(args.len() as int) - args_size(args, args.len() as int)
}

/// Whether the bytes of `after` below offset `low` are those of
/// `before`.
pub open spec fn below_kept(before: Seq<u8>, after: Seq<u8>, low: int) -> bool {
    forall|o: int| 0 <= o < low ==> #[trigger] after[o] == before[o]
}

/// Whether every byte of `image` below offset `low` is zero.
pub open spec fn clear_below(image: Seq<u8>, low: int) -> bool {
    forall|o: int| 0 <= o < low ==> #[trigger] image[o] == 0
}

/// A word stored at or above an offset keeps the bytes below it.
pub proof fn lemma_below_word(image: Seq<u8>, off: int, w: u64, low: int)
    requires
        0 <= low <= off,
        off + 8 <= image.len(),
    ensures
        below_kept(image, with_word(image, off, w), low),
{
}

/// Bytes that are kept twice are kept.
pub proof fn lemma_below_trans(a: Seq<u8>, b: Seq<u8>, c: Seq<u8>, low: int, lower: int)
    requires
        below_kept(a, b, low),
        below_kept(b, c, lower),
        lower <= low,
    ensures
        below_kept(a, c, lower),
{
    assert forall|o: int| 0 <= o < lower implies #[trigger] c[o] == a[o] by {
        assert(c[o] == b[o]);
        assert(b[o] == a[o]);
    }
}

/// Puts the arguments `args` on the stack below `top`: above them the
/// array of their addresses, ended by a zero pointer at the top of the
/// stack; below it the arguments, each followed by a zero byte, the first
/// highest. Gives the address of the array and the stack pointer below
/// the arguments, which is a multiple of eight.
pub fn push_args(space: &mut MemorySet, top: u64, args: &Vec<String>) -> (r: (u64, u64))
    requires
        old(space).wf(),
        stack_at(old(space), top),
        args_fit(arg_seqs(args@)),
    ensures
        final(space).wf(),
        stack_at(final(space), top),
        stack_changed(old(space), final(space), top),
        args_on_stack(stack_image(final(space), top), (top - 8192) as u64, arg_seqs(args@)),
        below_kept(
            stack_image(old(space), top),
            stack_image(final(space), top),
            args_low(arg_seqs(args@)),
        ),
        r.0 == top - 8 * (args@.len() + 1),
        r.1 == args_sp(top, arg_seqs(args@)),
{
    let n = args.len();
    let ghost a = arg_seqs(args@);
    let ghost base = (top - 8192) as u64;
    let ghost image0 = stack_image(space, top);
    proof {
        lemma_args_size(a, 0, n as int);
        lemma_push_end(stack_image(space, top), base, a);
    }
    let argv_base: u64 = top - ((n + 1) * 8) as u64;
    let mut user_sp: u64 = argv_base;
    put_word(space, top, argv_base + (n * 8) as u64, 0);
    proof {
        lemma_below_word(image0, 8192 - 8, 0, argv_base - base);
    }
    let mut i: usize = 0;
    while i < n
        invariant
            i <= n,
            n == args@.len(),
            a == arg_seqs(args@),
            base == top - 8192,
            args_fit(a),
            argv_base == top - 8 * (n + 1),
            user_sp == argv_base - args_size(a, i as int),
            space.wf(),
            stack_at(space, top),
            stack_changed(old(space), space, top),
            pushed(stack_image(space, top), base, a, i as int, -1),
            image0 == stack_image(old(space), top),
            image0.len() == 8192,
            stack_image(space, top).len() == 8192,
            below_kept(image0, stack_image(space, top), user_sp - base),
        decreases n - i,
    {
        let bytes = args[i].as_str().as_bytes();
        let len = bytes.len();
        proof {
            assert(bytes@ == a[i as int]);
            lemma_args_size(a, i as int, n as int);
            lemma_push_ptr(stack_image(space, top), base, a, i as int);
        }
        let ghost sp0 = user_sp;
        user_sp -= (len + 1) as u64;
        let ghost s1 = *space;
        put_word(space, top, argv_base + (i * 8) as u64, user_sp);
        proof {
            lemma_stack_changed_trans(old(space), &s1, space, top);
            lemma_below_word(
                stack_image(&s1, top),
                argv_base + i * 8 - base,
                user_sp,
                user_sp - base,
            );
            lemma_below_trans(
                image0,
                stack_image(&s1, top),
                stack_image(space, top),
                sp0 - base,
                user_sp - base,
            );
        }
        let mut p: u64 = user_sp;
        let mut k: usize = 0;
        while k < len
            invariant
                k <= len,
                i < n,
                n == args@.len(),
                a == arg_seqs(args@),
                bytes@ == a[i as int],
                len == bytes@.len(),
                base == top - 8192,
                args_fit(a),
                user_sp == base + str_off(a, i as int),
                p == user_sp + k,
                space.wf(),
                stack_at(space, top),
                stack_changed(old(space), space, top),
                pushed(stack_image(space, top), base, a, i as int, k as int),
                image0.len() == 8192,
                stack_image(space, top).len() == 8192,
                below_kept(image0, stack_image(space, top), user_sp - base),
            decreases len - k,
        {
            proof {
                lemma_push_byte(stack_image(space, top), base, a, i as int, k as int, bytes@[k as int]);
            }
            let ghost s2 = *space;
            put_byte(space, top, p, bytes[k]);
            proof {
                lemma_stack_changed_trans(old(space), &s2, space, top);
                lemma_below_trans(
                    image0,
                    stack_image(&s2, top),
                    stack_image(space, top),
                    user_sp - base,
                    user_sp - base,
                );
            }
            p += 1;
            k += 1;
        }
        proof {
            lemma_push_byte(stack_image(space, top), base, a, i as int, len as int, 0);
        }
        let ghost s3 = *space;
        put_byte(space, top, p, 0);
        proof {
            lemma_stack_changed_trans(old(space), &s3, space, top);
            lemma_below_trans(
                image0,
                stack_image(&s3, top),
                stack_image(space, top),
                user_sp - base,
                user_sp - base,
            );
            lemma_push_done(stack_image(space, top), base, a, i as int);
        }
        i += 1;
    }
    user_sp -= user_sp % 8;
    (argv_base, user_sp)
}

/// A change of pages that are not pages of the stack leaves the stack
/// as it is.
pub proof fn lemma_image_kept(before: &MemorySet, after: &MemorySet, top: u64)
    requires
        stack_at(before, top),
        forall|p: VirtPageNum| #[trigger] before.backed(p) ==> after.backed(p),
        forall|p: VirtPageNum|
            before.backed(p) && p.0 != crate::mm::memory_set::TRAP_CONTEXT_VPN ==> #[trigger] after.page(
                p,
            ) == before.page(p),
        vpn_of((top - 8192) as u64).0 != crate::mm::memory_set::TRAP_CONTEXT_VPN,
        vpn_of((top - 4096) as u64).0 != crate::mm::memory_set::TRAP_CONTEXT_VPN,
    ensures
        stack_image(after, top) == stack_image(before, top),
{
    let lo = vpn_of((top - 8192) as u64);
    let hi = vpn_of((top - 4096) as u64);
    assert(after.page(lo) == before.page(lo));
    assert(after.page(hi) == before.page(hi));
}

} // verus!
