//! What a program finds when it starts: the array of the addresses of its
//! arguments, and the arguments as strings that end with a zero byte.
use crate::mm::access::vpn_of;
use crate::mm::frame_allocator::word_at;
use crate::mm::memory_set::MemorySet;
use crate::mm::user_buffer::{str_ends_at, user_str_len};
use crate::task::args::{
    args_fit, args_on_stack, argv_off, argv_word, lemma_args_size, lemma_stack_va, stack_at,
    stack_image, str_byte, str_off,
};
use vstd::prelude::*;

verus! {

/// The bytes of the string at `ptr`, given its length.
pub open spec fn str_bytes(space: &MemorySet, ptr: u64, n: int) -> Seq<u8> {
    Seq::new(n as nat, |k: int| space.page(vpn_of((ptr + k) as u64))[(ptr + k) % 4096])
}

/// The address that entry `i` of the array of addresses at `argv` holds.
pub open spec fn arg_ptr(space: &MemorySet, argv: u64, i: int) -> u64 {
    word_at(space.page(vpn_of((argv + 8 * i) as u64)), (argv + 8 * i) % 4096)
}

/// Whether entry `i` of the array of addresses at `argv` can be read,
/// and the string that it points to as well: the entry lies in one page
/// that has a frame, and a zero byte ends the string before a byte without
/// a frame.
pub open spec fn arg_readable(space: &MemorySet, argv: u64, i: int) -> bool {
    &&& space.word_backed((argv + 8 * i) as u64)
    &&& exists|n: int| str_ends_at(space, arg_ptr(space, argv, i), n)
}

/// Whether the `argc` arguments whose addresses the array at `argv` holds
/// can be read.
pub open spec fn args_readable(space: &MemorySet, argc: int, argv: u64) -> bool {
    &&& argv + 8 * argc <= u64::MAX
    &&& forall|i: int| 0 <= i < argc ==> #[trigger] arg_readable(space, argv, i)
}

/// The bytes of the string at `ptr` up to the zero byte that ends it, or
/// nothing where a byte without a frame comes before a zero byte.
pub fn user_str_bytes(space: &MemorySet, ptr: u64) -> (r: Option<Vec<u8>>)
    requires
        space.wf(),
    ensures
        r is Some <==> exists|n: int| str_ends_at(space, ptr, n),
        r matches Some(v) ==> forall|n: int|
            str_ends_at(space, ptr, n) ==> v@ == str_bytes(space, ptr, n),
{
    let n = match user_str_len(space, ptr) {
        Some(n) => n,
        None => {
            return None;
        },
    };
    assert(str_ends_at(space, ptr, n as int));
    let mut v: Vec<u8> = Vec::new();
    let mut k: u64 = 0;
    while k < n
        invariant
            space.wf(),
            k <= n,
            str_ends_at(space, ptr, n as int),
            v@ == str_bytes(space, ptr, k as int),
        decreases n - k,
    {
        assert(space.backed(vpn_of((ptr + k) as u64)));
        let b = space.read_byte(ptr + k);
        v.push(b);
        assert(v@ =~= str_bytes(space, ptr, k + 1));
        k += 1;
    }
    proof {
        assert forall|m: int| str_ends_at(space, ptr, m) implies v@ == str_bytes(space, ptr, m) by {
            if m < n {
                assert(space.page(vpn_of((ptr + m) as u64))[(ptr + m) % 4096] != 0);
            } else if n < m {
                assert(space.page(vpn_of((ptr + n) as u64))[(ptr + n) % 4096] != 0);
            }
        }
    }
    Some(v)
}

/// The arguments of a program that starts with `argc` arguments whose
/// addresses the array at `argv` holds: the bytes of each argument up to
/// the zero byte that ends it, in the order of the array. Gives nothing
/// where an entry of the array or an argument cannot be read.
pub fn read_args(space: &MemorySet, argc: usize, argv: u64) -> (r: Option<Vec<Vec<u8>>>)
    requires
        space.wf(),
    ensures
        r is Some <==> args_readable(space, argc as int, argv),
        r matches Some(v) ==> v@.len() == argc && forall|i: int, n: int|
            0 <= i < argc && #[trigger] str_ends_at(space, arg_ptr(space, argv, i), n) ==> v@[i]@
                == str_bytes(space, arg_ptr(space, argv, i), n),
{
    if argc as u128 * 8 > (u64::MAX - argv) as u128 {
        return None;
    }
    let mut v: Vec<Vec<u8>> = Vec::new();
    let mut i: usize = 0;
    while i < argc
        invariant
            space.wf(),
            i <= argc,
            argv + 8 * argc <= u64::MAX,
            v@.len() == i,
            forall|j: int| 0 <= j < i ==> #[trigger] arg_readable(space, argv, j),
            forall|j: int, n: int|
                0 <= j < i && #[trigger] str_ends_at(space, arg_ptr(space, argv, j), n) ==> v@[j]@
                    == str_bytes(space, arg_ptr(space, argv, j), n),
        decreases argc - i,
    {
        let va: u64 = argv + 8 * (i as u64);
        if !space.is_backed(va) || va % 4096 > 4088 {
            assert(!arg_readable(space, argv, i as int));
            return None;
        }
        let ptr = space.read_word(va);
        assert(ptr == arg_ptr(space, argv, i as int));
        match user_str_bytes(space, ptr) {
            Some(bytes) => {
                let ghost before = v@;
                v.push(bytes);
                proof {
                    assert forall|j: int, n: int|
                        0 <= j < i + 1 && #[trigger] str_ends_at(
                            space,
                            arg_ptr(space, argv, j),
                            n,
                        ) implies v@[j]@ == str_bytes(space, arg_ptr(space, argv, j), n) by {
                        if j < i {
                            assert(v@[j] == before[j]);
                        }
                    }
                }
            },
            None => {
                assert(!arg_readable(space, argv, i as int));
                return None;
            },
        }
        i += 1;
    }
    Some(v)
}

/// A byte of the stack below `top`, as the address space holds it.
pub proof fn lemma_stack_byte(space: &MemorySet, top: u64, off: int)
    requires
        stack_at(space, top),
        0 <= off < 8192,
    ensures
        space.backed(vpn_of((top - 8192 + off) as u64)),
        space.page(vpn_of((top - 8192 + off) as u64))[(top - 8192 + off) % 4096] == stack_image(
            space,
            top,
        )[off],
{
    let va = (top - 8192 + off) as u64;
    lemma_stack_va(space, top, va);
    let lo = space.page(vpn_of((top - 8192) as u64));
    let hi = space.page(vpn_of((top - 4096) as u64));
    assert(va % 4096 == off % 4096);
    if off < 4096 {
        assert((lo + hi)[off] == lo[off]);
    } else {
        assert((lo + hi)[off] == hi[off - 4096]);
    }
}

/// A word of the stack below `top` at a multiple of eight, as the
/// address space holds it.
pub proof fn lemma_stack_word(space: &MemorySet, top: u64, off: int)
    requires
        stack_at(space, top),
        0 <= off,
        off + 8 <= 8192,
        off % 8 == 0,
    ensures
        space.word_backed((top - 8192 + off) as u64),
        word_at(space.page(vpn_of((top - 8192 + off) as u64)), (top - 8192 + off) % 4096) == word_at(
            stack_image(space, top),
            off,
        ),
{
    let va = (top - 8192 + off) as u64;
    lemma_stack_va(space, top, va);
    let lo = space.page(vpn_of((top - 8192) as u64));
    let hi = space.page(vpn_of((top - 4096) as u64));
    assert(va % 8 == 0);
    assert(va % 4096 == off % 4096);
    if off < 4096 {
        assert((lo + hi).subrange(off, off + 8) =~= lo.subrange(off, off + 8));
    } else {
        assert((lo + hi).subrange(off, off + 8) =~= hi.subrange(off - 4096, off - 4096 + 8));
    }
}

/// A program that starts finds the arguments that were put on its
/// stack: where the stack below `top` holds the arguments `args`, none of
/// which has a zero byte, the array of their addresses can be read at its
/// place `8 * (n + 1)` bytes below `top`, and the string at its entry `i`
/// is argument `i`.
pub proof fn lemma_args_round_trip(space: &MemorySet, top: u64, args: Seq<Seq<u8>>)
    requires
        stack_at(space, top),
        args_fit(args),
        args_on_stack(stack_image(space, top), (top - 8192) as u64, args),
        forall|i: int, k: int|
            0 <= i < args.len() && 0 <= k < args[i].len() ==> (#[trigger] args[i][k]) != 0,
    ensures
        args_readable(space, args.len() as int, (top - 8 * (args.len() + 1)) as u64),
        forall|i: int|
            0 <= i < args.len() ==> {
                let p = #[trigger] arg_ptr(space, (top - 8 * (args.len() + 1)) as u64, i);
                &&& p == top - 8192 + str_off(args, i)
                &&& str_ends_at(space, p, args[i].len() as int)
                &&& str_bytes(space, p, args[i].len() as int) == args[i]
            },
{
    let n = args.len() as int;
    let base = (top - 8192) as u64;
    let argv = (top - 8 * (n + 1)) as u64;
    let image = stack_image(space, top);
    lemma_args_size(args, 0, n);
    assert(argv == base + argv_off(n));
    assert forall|i: int| 0 <= i < n implies {
        let p = #[trigger] arg_ptr(space, argv, i);
        &&& space.word_backed((argv + 8 * i) as u64)
        &&& p == base + str_off(args, i)
        &&& str_ends_at(space, p, args[i].len() as int)
        &&& str_bytes(space, p, args[i].len() as int) == args[i]
    } by {
        let p = arg_ptr(space, argv, i);
        lemma_stack_word(space, top, argv_off(n) + 8 * i);
        assert((argv + 8 * i) as u64 == (top - 8192 + (argv_off(n) + 8 * i)) as u64);
        assert(p == argv_word(image, n, i));
        assert(p == base + str_off(args, i));
        lemma_args_size(args, i, n);
        let len = args[i].len() as int;
        let so = str_off(args, i);
        assert(0 <= so && so + len + 1 <= argv_off(n));
        assert forall|k: int| 0 <= k <= len implies #[trigger] space.backed(
            vpn_of((p + k) as u64),
        ) && space.page(vpn_of((p + k) as u64))[(p + k) % 4096] == image[so + k] by {
            lemma_stack_byte(space, top, so + k);
            assert((p + k) as u64 == (top - 8192 + (so + k)) as u64);
        }
        assert forall|k: int| 0 <= k < len implies #[trigger] space.page(
            vpn_of((p + k) as u64),
        )[(p + k) % 4096] != 0 by {
            assert(space.backed(vpn_of((p + k) as u64)));
            assert(str_byte(image, args, i, k) == args[i][k]);
        }
        assert(space.backed(vpn_of((p + len) as u64)));
        assert(str_byte(image, args, i, len) == 0);
        assert(str_ends_at(space, p, len));
        assert(str_bytes(space, p, len) =~= args[i]) by {
            assert forall|k: int| 0 <= k < len implies str_bytes(space, p, len)[k] == args[i][k] by {
                assert(space.backed(vpn_of((p + k) as u64)));
                assert(str_byte(image, args, i, k) == args[i][k]);
            }
        }
        assert(arg_readable(space, argv, i));
    }
    assert forall|i: int| 0 <= i < n implies #[trigger] arg_readable(space, argv, i) by {
        let p = arg_ptr(space, argv, i);
        assert(str_ends_at(space, p, args[i].len() as int));
    }
}

} // verus!
