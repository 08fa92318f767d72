//! The argument vector of a new program.
//!
//! The layout is the conventional one: the strings themselves at the top of the
//! stack, then a NULL-terminated array of pointers to them, with everything
//! 16-byte aligned because the RISC-V ABI requires it at function entry.

use vstd::prelude::*;
use crate::bits;
use crate::config::USER_MAX_ADDR;
use crate::mm::addr::VirtAddr;
use crate::mm::frame::Memory;
use crate::mm::page_table;
use crate::mm::space::{self, AddressSpace};

verus! {

/// Address of string `i` below stack pointer `sp`: below string `i - 1`, with
/// room for the NUL, on an 8-byte boundary.
pub open spec fn string_at(args: Seq<Vec<u8>>, sp: int, i: int) -> int
    decreases i + 1,
{
    if i < 0 {
        sp
    } else {
        let a = string_at(args, sp, i - 1) - (args[i]@.len() + 1);
        a - a % 8
    }
}

/// Address of the array of pointers: below the strings, on a 16-byte boundary.
pub open spec fn argv_at(args: Seq<Vec<u8>>, sp: int) -> int {
    let a = string_at(args, sp, args.len() - 1) - (args.len() + 1) * 8;
    a - a % 16
}

/// Word `j` of the array of pointers.
pub open spec fn pointer(args: Seq<Vec<u8>>, sp: int, j: int) -> u64 {
    if j < args.len() {
        string_at(args, sp, j) as u64
    } else {
        0
    }
}

/// More stack than the first `i` strings take.
pub open spec fn room(args: Seq<Vec<u8>>, i: int) -> int
    decreases i,
{
    if i <= 0 {
        0
    } else {
        room(args, i - 1) + args[i - 1]@.len() + 8
    }
}

/// The byte that the first `i` strings put at address `x`.
pub open spec fn strings(args: Seq<Vec<u8>>, sp: int, i: int, x: int) -> Option<u8>
    decreases i,
{
    if i <= 0 {
        None
    } else {
        let a = string_at(args, sp, i - 1);
        let s = args[i - 1]@;
        if a <= x < a + s.len() {
            Some(s[x - a])
        } else if x == a + s.len() {
            Some(0u8)
        } else {
            strings(args, sp, i - 1, x)
        }
    }
}

/// The byte that the strings and the first `j` words of the array put at `x`.
pub open spec fn vector(args: Seq<Vec<u8>>, sp: int, j: int, x: int) -> Option<u8> {
    let argv = argv_at(args, sp);
    if argv <= x < argv + 8 * j {
        Some(bits::byte_of(pointer(args, sp, (x - argv) / 8), ((x - argv) % 8) as u64))
    } else {
        strings(args, sp, args.len() as int, x)
    }
}

/// May user code of `s` write every byte of string `i`, the NUL with it?
pub open spec fn string_fits(s: AddressSpace, mem: Memory, args: Seq<Vec<u8>>, sp: int, i: int) -> bool {
    s.reach(mem, string_at(args, sp, i), args[i]@.len() as int + 1, 4) == args[i]@.len() + 1
}

/// May user code of `s` write word `j` of the array of pointers?
pub open spec fn pointer_fits(s: AddressSpace, mem: Memory, args: Seq<Vec<u8>>, sp: int, j: int) -> bool {
    s.reach(mem, argv_at(args, sp) + 8 * j, 8, 4) == 8
}

/// May user code of `s` write every byte of the strings and of the array?
pub open spec fn fits(s: AddressSpace, mem: Memory, args: Seq<Vec<u8>>, sp: int) -> bool {
    &&& forall|i: int| 0 <= i < args.len() ==> #[trigger] string_fits(s, mem, args, sp, i)
    &&& forall|j: int| 0 <= j <= args.len() ==> #[trigger] pointer_fits(s, mem, args, sp, j)
}

/// `mem` is `before` with the bytes that `f` gives stored in the user memory of
/// `s`.
pub open spec fn overlaid(s: AddressSpace, mem: Memory, before: Memory, f: spec_fn(int) -> Option<u8>) -> bool {
    forall|x: int|
        #![trigger s.ubyte(mem, x)]
        0 <= x < USER_MAX_ADDR && s.access(before, x, 0) ==> s.ubyte(mem, x) == (match f(x) {
            Some(b) => b,
            None => s.ubyte(before, x),
        })
}

/// One more piece is stored.
proof fn lemma_overlaid(
    s: AddressSpace,
    m2: Memory,
    m1: Memory,
    m0: Memory,
    f: spec_fn(int) -> Option<u8>,
    g: spec_fn(int) -> Option<u8>,
    va: int,
    data: Seq<u8>,
)
    requires
        0 <= va,
        va + data.len() <= USER_MAX_ADDR,
        space::unmoved(m1, m0, s.root()),
        overlaid(s, m1, m0, f),
        s.stored(m2, m1, va, data),
        forall|x: int|
            #[trigger] g(x) == (if va <= x < va + data.len() {
                Some(data[x - va])
            } else {
                f(x)
            }),
    ensures
        overlaid(s, m2, m0, g),
{
    assert forall|x: int|
        #![trigger s.ubyte(m2, x)]
        0 <= x < USER_MAX_ADDR && s.access(m0, x, 0) implies s.ubyte(m2, x) == (match g(x) {
        Some(b) => b,
        None => s.ubyte(m0, x),
    }) by {
        lemma_same_access(s, m1, m0, x, 0);
        assert(s.access(m1, x, 0));
        assert(s.ubyte(m1, x) == (match f(x) {
            Some(b) => b,
            None => s.ubyte(m0, x),
        }));
    }
}

/// Two layers are one.
proof fn lemma_overlaid_twice(
    s: AddressSpace,
    m2: Memory,
    m1: Memory,
    m0: Memory,
    f: spec_fn(int) -> Option<u8>,
    g: spec_fn(int) -> Option<u8>,
    h: spec_fn(int) -> Option<u8>,
)
    requires
        space::unmoved(m1, m0, s.root()),
        overlaid(s, m1, m0, f),
        overlaid(s, m2, m1, g),
        forall|x: int|
            #[trigger] h(x) == (match g(x) {
                Some(b) => Some(b),
                None => f(x),
            }),
    ensures
        overlaid(s, m2, m0, h),
{
    assert forall|x: int|
        #![trigger s.ubyte(m2, x)]
        0 <= x < USER_MAX_ADDR && s.access(m0, x, 0) implies s.ubyte(m2, x) == (match h(x) {
        Some(b) => b,
        None => s.ubyte(m0, x),
    }) by {
        lemma_same_access(s, m1, m0, x, 0);
        assert(s.ubyte(m1, x) == (match f(x) {
            Some(b) => b,
            None => s.ubyte(m0, x),
        }));
    }
}

/// Where no mapping moved, access is as it was.
proof fn lemma_same_access(s: AddressSpace, m1: Memory, m0: Memory, x: int, need: u64)
    requires
        space::unmoved(m1, m0, s.root()),
    ensures
        s.access(m1, x, need) == s.access(m0, x, need),
        0 <= x ==> s.page_entry(m1, x) == s.page_entry(m0, x),
{
    if 0 <= x {
        assert(page_table::walk(m1, s.root(), x / 4096) == page_table::walk(m0, s.root(), x / 4096));
    }
}

proof fn lemma_same_reach(s: AddressSpace, m1: Memory, m0: Memory, va: int, len: int, need: u64)
    requires
        space::unmoved(m1, m0, s.root()),
    ensures
        s.reach(m1, va, len, need) == s.reach(m0, va, len, need),
    decreases len,
{
    lemma_same_access(s, m1, m0, va, need);
    if len > 0 {
        lemma_same_reach(s, m1, m0, va + 1, len - 1, need);
    }
}

/// Mappings that did not move twice did not move.
proof fn lemma_unmoved_twice(s: AddressSpace, m2: Memory, m1: Memory, m0: Memory)
    requires
        space::unmoved(m1, m0, s.root()),
        space::unmoved(m2, m1, s.root()),
    ensures
        space::unmoved(m2, m0, s.root()),
{
    assert forall|w: int| 0 <= w implies #[trigger] page_table::walk(m2, s.root(), w) == page_table::walk(
        m0,
        s.root(),
        w,
    ) by {
        assert(page_table::walk(m1, s.root(), w) == page_table::walk(m0, s.root(), w));
    }
}

/// What storing in the user memory of `s` leaves alone.
pub open spec fn only_user_memory(s: AddressSpace, mem: Memory, before: Memory) -> bool {
    &&& mem.wf()
    &&& s.wf(mem)
    &&& mem.allocator() == before.allocator()
    &&& mem.same_but(before, space::frames_of(s.regions()))
    &&& space::unmoved(mem, before, s.root())
}

proof fn lemma_only_twice(s: AddressSpace, m2: Memory, m1: Memory, m0: Memory)
    requires
        only_user_memory(s, m1, m0),
        only_user_memory(s, m2, m1),
    ensures
        only_user_memory(s, m2, m0),
{
    lemma_unmoved_twice(s, m2, m1, m0);
    let fs = space::frames_of(s.regions());
    assert forall|f: int| m0.used(f) && m2.used(f) && !fs.contains(f) implies #[trigger] m2.same_frame(m0, f) by {
        assert(m1.used(f));
        assert(m1.same_frame(m0, f));
        assert(m2.same_frame(m1, f));
    }
}

/// Where strings are: on the way down, without passing below `sp - room`.
proof fn lemma_string_at(args: Seq<Vec<u8>>, sp: int, i: int)
    requires
        -1 <= i < args.len(),
        0 <= sp,
    ensures
        sp - room(args, i + 1) <= string_at(args, sp, i) <= sp,
        0 <= i ==> string_at(args, sp, i) + args[i]@.len() + 1 <= string_at(args, sp, i - 1),
        0 <= i ==> string_at(args, sp, i) % 8 == 0,
        room(args, i + 1) >= 0,
    decreases i + 1,
{
    if i >= 0 {
        lemma_string_at(args, sp, i - 1);
    }
}

proof fn lemma_room(args: Seq<Vec<u8>>, i: int, n: int)
    requires
        0 <= i <= n,
    ensures
        8 * i <= room(args, i) <= room(args, n),
    decreases n,
{
    if i < n {
        lemma_room(args, i, n - 1);
    } else if i > 0 {
        lemma_room(args, i - 1, n - 1);
    }
}

/// The strings and the array lie below the stack pointer, and not below zero.
pub proof fn lemma_layout(args: Seq<Vec<u8>>, sp: int)
    requires
        room(args, args.len() as int) + (args.len() + 1) * 8 + 16 <= sp,
    ensures
        0 <= argv_at(args, sp),
        argv_at(args, sp) + 8 * (args.len() + 1) <= sp,
        forall|i: int|
            0 <= i < args.len() ==> 0 <= #[trigger] string_at(args, sp, i) && string_at(args, sp, i)
                + args[i]@.len() + 1 <= sp,
{
    let n = args.len() as int;
    lemma_room(args, n, n);
    lemma_string_at(args, sp, n - 1);
    assert forall|i: int| 0 <= i < args.len() implies 0 <= #[trigger] string_at(args, sp, i) && string_at(
        args,
        sp,
        i,
    ) + args[i]@.len() + 1 <= sp by {
        lemma_room(args, i + 1, n);
        lemma_string_at(args, sp, i);
        lemma_string_at(args, sp, i - 1);
        lemma_room(args, i, n);
    }
}

/// The array does not lie lower than the room that all takes.
pub proof fn lemma_argv_at(args: Seq<Vec<u8>>, sp: int)
    requires
        0 <= sp,
    ensures
        argv_at(args, sp) >= sp - room(args, args.len() as int) - (args.len() + 1) * 8 - 16,
{
    lemma_string_at(args, sp, args.len() - 1);
}

/// No string is further down than the room that all of them take.
pub proof fn lemma_strings_within(args: Seq<Vec<u8>>, sp: int, i: int)
    requires
        0 <= sp,
        0 <= i < args.len(),
    ensures
        sp - room(args, args.len() as int) <= string_at(args, sp, i),
        string_at(args, sp, i) + args[i]@.len() + 1 <= sp,
{
    lemma_string_at(args, sp, i);
    lemma_string_at(args, sp, i - 1);
    lemma_room(args, i + 1, args.len() as int);
}

/// Below the vector there are no arguments.
pub proof fn lemma_below_arguments(args: Seq<Vec<u8>>, sp: int, x: int)
    requires
        room(args, args.len() as int) + (args.len() + 1) * 8 + 16 <= sp,
        x < argv_at(args, sp),
    ensures
        vector(args, sp, args.len() as int + 1, x) is None,
{
    lemma_room(args, 0, args.len() as int);
    lemma_string_at(args, sp, args.len() - 1);
    lemma_below_strings(args, sp, args.len() as int, x);
}

proof fn lemma_below_strings(args: Seq<Vec<u8>>, sp: int, n: int, x: int)
    requires
        0 <= n <= args.len(),
        0 <= sp,
        x < string_at(args, sp, n - 1),
    ensures
        strings(args, sp, n, x) is None,
    decreases n,
{
    if n > 0 {
        lemma_string_at(args, sp, n - 1);
        lemma_below_strings(args, sp, n - 1, x);
    }
}

/// Store a string and its NUL at `at`.
fn put_string(s: &AddressSpace, mem: &mut Memory, at: u64, arg: &Vec<u8>) -> (r: bool)
    requires
        old(mem).wf(),
        s.wf(*old(mem)),
        s.is_user(),
        at + arg@.len() + 1 <= USER_MAX_ADDR,
    ensures
        only_user_memory(*s, *final(mem), *old(mem)),
        r == (s.reach(*old(mem), at as int, arg@.len() as int + 1, 4) == arg@.len() + 1),
        r ==> overlaid(
            *s,
            *final(mem),
            *old(mem),
            |x: int|
                if at <= x < at + arg@.len() {
                    Some(arg@[x - at])
                } else if x == at + arg@.len() {
                    Some(0u8)
                } else {
                    None
                },
        ),
{
    let ghost m0 = *mem;
    let len: usize = arg.len();
    proof {
        let n = s.reach(m0, at as int, len + 1, 4);
        s.lemma_reach(m0, at as int, len + 1, 4);
        s.lemma_reach(m0, at as int, len as int, 4);
        if s.reach(m0, at as int, len as int, 4) == len {
            s.lemma_reach_over(m0, at as int, len + 1, 4, len as int);
        } else if n == len + 1 {
            let k = s.reach(m0, at as int, len as int, 4);
            assert(s.access(m0, at + k, 4));
        }
        assert(s.reach(m0, at + len, 1, 4) <= 1) by {
            s.lemma_reach(m0, at + len, 1, 4);
        }
    }
    if s.copy_to_user(mem, VirtAddr(at), arg.as_slice()).is_none() {
        return false;
    }
    let ghost m1 = *mem;
    proof {
        lemma_same_reach(*s, m1, m0, at + len, 1, 4);
    }
    let mut nul: Vec<u8> = Vec::new();
    nul.push(0);
    let ok: bool = s.copy_to_user(mem, VirtAddr(at + len as u64), nul.as_slice()).is_some();
    proof {
        lemma_only_twice(*s, *mem, m1, m0);
        let none = |x: int| Option::<u8>::None;
        let f = |x: int|
            if at <= x < at + arg@.len() {
                Some(arg@[x - at])
            } else {
                None
            };
        let g = |x: int|
            if at <= x < at + arg@.len() {
                Some(arg@[x - at])
            } else if x == at + arg@.len() {
                Some(0u8)
            } else {
                None
            };
        if ok {
            assert(arg@.take(arg@.len() as int) =~= arg@);
            assert(nul@.take(1) =~= nul@);
            lemma_unmoved_self(*s, m0);
            lemma_overlaid(*s, m1, m0, m0, none, f, at as int, arg@);
            lemma_overlaid(*s, *mem, m1, m0, f, g, at + len, nul@);
        }
    }
    ok
}

proof fn lemma_unmoved_self(s: AddressSpace, m: Memory)
    ensures
        space::unmoved(m, m, s.root()),
{
}

/// Store one word at `at`.
fn put_word(s: &AddressSpace, mem: &mut Memory, at: u64, w: u64) -> (r: bool)
    requires
        old(mem).wf(),
        s.wf(*old(mem)),
        s.is_user(),
        at + 8 <= USER_MAX_ADDR,
    ensures
        only_user_memory(*s, *final(mem), *old(mem)),
        r == (s.reach(*old(mem), at as int, 8, 4) == 8),
        r ==> s.stored(*final(mem), *old(mem), at as int, bits::word_bytes(w)),
{
    let bytes: Vec<u8> = bits::to_le_bytes(w);
    let r: bool = s.copy_to_user(mem, VirtAddr(at), bytes.as_slice()).is_some();
    proof {
        assert(bytes@.take(8) =~= bytes@);
    }
    r
}

/// Copy `args` onto the user stack and return `(new_sp, argc, argv_ptr)`. `None`
/// if the user could not have written there.
#[verifier::rlimit(40)]
pub fn push_args(s: &AddressSpace, mem: &mut Memory, sp: u64, args: &Vec<Vec<u8>>) -> (r: Option<
    (u64, u64, u64),
>)
    requires
        old(mem).wf(),
        s.wf(*old(mem)),
        s.is_user(),
        room(args@, args@.len() as int) + (args@.len() + 1) * 8 + 16 <= sp <= USER_MAX_ADDR,
    ensures
        only_user_memory(*s, *final(mem), *old(mem)),
        r is Some <==> fits(*s, *old(mem), args@, sp as int),
        r matches Some((top, argc, argv)) ==> {
            &&& top == argv
            &&& argc == args@.len()
            &&& argv == argv_at(args@, sp as int)
            &&& overlaid(
                *s,
                *final(mem),
                *old(mem),
                |x: int| vector(args@, sp as int, args@.len() as int + 1, x),
            )
        },
{
    let ghost m0 = *mem;
    let ghost sp0 = sp as int;
    let ghost a = args@;
    let count: usize = args.len();
    let mut low: u64 = sp;
    let mut pointers: Vec<u64> = Vec::new();
    proof {
        lemma_unmoved_self(*s, m0);
        assert(overlaid(*s, m0, m0, |x: int| strings(a, sp0, 0, x)));
    }
    let mut i: usize = 0;
    while i < count
        invariant
            i <= count == a.len(),
            a == args@,
            pointers@.len() == i,
            sp0 <= USER_MAX_ADDR,
            room(a, a.len() as int) + (a.len() + 1) * 8 + 16 <= sp0,
            m0.wf(),
            s.wf(m0),
            s.is_user(),
            m0 == *old(mem),
            only_user_memory(*s, *mem, m0),
            sp0 == sp,
            low == string_at(a, sp0, i - 1),
            forall|k: int| 0 <= k < i ==> #[trigger] pointers@[k] == string_at(a, sp0, k),
            forall|k: int| 0 <= k < i ==> #[trigger] string_fits(*s, m0, a, sp0, k),
            overlaid(*s, *mem, m0, |x: int| strings(a, sp0, i as int, x)),
        decreases count - i,
    {
        let ghost m1 = *mem;
        let len: usize = args[i].len();
        proof {
            lemma_room(a, i + 1, a.len() as int);
            lemma_room(a, i as int, a.len() as int);
            lemma_string_at(a, sp0, i as int);
            lemma_string_at(a, sp0, i - 1);
        }
        low = low - (len as u64 + 1);
        low = low - low % 8;
        proof {
            lemma_same_reach(*s, m1, m0, low as int, len + 1, 4);
        }
        if !put_string(s, mem, low, &args[i]) {
            proof {
                lemma_only_twice(*s, *mem, m1, m0);
                assert(!string_fits(*s, m0, a, sp0, i as int));
            }
            return None;
        }
        proof {
            lemma_only_twice(*s, *mem, m1, m0);
            assert(string_fits(*s, m0, a, sp0, i as int));
            let piece = |x: int|
                if low <= x < low + a[i as int]@.len() {
                    Some(a[i as int]@[x - low])
                } else if x == low + a[i as int]@.len() {
                    Some(0u8)
                } else {
                    None
                };
            lemma_overlaid_twice(
                *s,
                *mem,
                m1,
                m0,
                |x: int| strings(a, sp0, i as int, x),
                piece,
                |x: int| strings(a, sp0, i + 1, x),
            );
        }
        pointers.push(low);
        i = i + 1;
    }
    // The pointer array, NULL-terminated.
    proof {
        lemma_string_at(a, sp0, a.len() - 1);
        lemma_room(a, a.len() as int, a.len() as int);
    }
    low = low - (count as u64 + 1) * 8;
    let argv: u64 = low - low % 16;
    pointers.push(0);
    proof {
        assert forall|j: int| 0 <= j <= count implies #[trigger] pointers@[j] == pointer(a, sp0, j) by {
            if j < count {
                lemma_string_at(a, sp0, j);
                lemma_room(a, j + 1, a.len() as int);
            }
        }
        lemma_same_layer(
            *s,
            *mem,
            m0,
            |x: int| strings(a, sp0, a.len() as int, x),
            |x: int| vector(a, sp0, 0, x),
        );
    }
    let words: usize = pointers.len();
    let mut j: usize = 0;
    while j < words
        invariant
            sp0 == sp,
            j <= words == count + 1,
            count == a.len(),
            a == args@,
            pointers@.len() == count + 1,
            argv == argv_at(a, sp0),
            argv + (count + 1) * 8 <= USER_MAX_ADDR,
            m0.wf(),
            s.wf(m0),
            s.is_user(),
            m0 == *old(mem),
            only_user_memory(*s, *mem, m0),
            forall|k: int| 0 <= k <= count ==> #[trigger] pointers@[k] == pointer(a, sp0, k),
            forall|k: int| 0 <= k < count ==> #[trigger] string_fits(*s, m0, a, sp0, k),
            forall|k: int| 0 <= k < j ==> #[trigger] pointer_fits(*s, m0, a, sp0, k),
            overlaid(*s, *mem, m0, |x: int| vector(a, sp0, j as int, x)),
        decreases words - j,
    {
        let ghost m1 = *mem;
        let at: u64 = argv + j as u64 * 8;
        proof {
            lemma_same_reach(*s, m1, m0, at as int, 8, 4);
        }
        if !put_word(s, mem, at, pointers[j]) {
            proof {
                lemma_only_twice(*s, *mem, m1, m0);
                assert(!pointer_fits(*s, m0, a, sp0, j as int));
            }
            return None;
        }
        proof {
            lemma_only_twice(*s, *mem, m1, m0);
            assert(pointer_fits(*s, m0, a, sp0, j as int));
            let f = |x: int| vector(a, sp0, j as int, x);
            let g = |x: int| vector(a, sp0, j + 1, x);
            let data = bits::word_bytes(pointers@[j as int]);
            assert forall|x: int|
                #[trigger] g(x) == (if at <= x < at + data.len() {
                    Some(data[x - at])
                } else {
                    f(x)
                }) by {
                if at <= x < at + 8 {
                    assert((x - argv) / 8 == j && (x - argv) % 8 == x - at);
                }
            }
            lemma_overlaid(*s, *mem, m1, m0, f, g, at as int, data);
        }
        j = j + 1;
    }
    Some((argv, count as u64, argv))
}

/// The same layer, written otherwise.
proof fn lemma_same_layer(
    s: AddressSpace,
    mem: Memory,
    m0: Memory,
    f: spec_fn(int) -> Option<u8>,
    g: spec_fn(int) -> Option<u8>,
)
    requires
        overlaid(s, mem, m0, f),
        forall|x: int| #[trigger] g(x) == f(x),
    ensures
        overlaid(s, mem, m0, g),
{
    assert forall|x: int|
        #![trigger s.ubyte(mem, x)]
        0 <= x < USER_MAX_ADDR && s.access(m0, x, 0) implies s.ubyte(mem, x) == (match g(x) {
        Some(b) => b,
        None => s.ubyte(m0, x),
    }) by {
        assert(g(x) == f(x));
    }
}

/// The strings do not overlap: what was stored of string `i` stays.
proof fn lemma_strings(args: Seq<Vec<u8>>, sp: int, i: int, n: int, x: int)
    requires
        0 <= i < n <= args.len(),
        0 <= sp,
        string_at(args, sp, i) <= x <= string_at(args, sp, i) + args[i]@.len(),
    ensures
        strings(args, sp, n, x) == Some(
            if x < string_at(args, sp, i) + args[i]@.len() {
                args[i]@[x - string_at(args, sp, i)]
            } else {
                0
            },
        ),
        string_at(args, sp, n - 1) <= string_at(args, sp, i),
    decreases n - i,
{
    if i < n - 1 {
        lemma_strings(args, sp, i, n - 1, x);
        lemma_string_at(args, sp, n - 1);
        lemma_string_at(args, sp, n - 2);
    }
}

/// A string of user memory, byte by byte.
proof fn lemma_cstr(s: AddressSpace, mem: Memory, va: int, text: Seq<u8>, max: int)
    requires
        text.len() < max,
        forall|k: int| 0 <= k <= text.len() ==> s.access(mem, #[trigger] (va + k), 2),
        forall|k: int| 0 <= k < text.len() ==> s.ubyte(mem, #[trigger] (va + k)) == text[k] && text[k] != 0,
        s.ubyte(mem, va + text.len()) == 0,
    ensures
        s.cstr(mem, va, max) == Some(text),
    decreases text.len(),
{
    assert(s.access(mem, va + 0, 2));
    if text.len() == 0 {
        assert(text =~= Seq::empty());
    } else {
        let rest = text.skip(1);
        assert forall|k: int| 0 <= k <= rest.len() implies s.access(mem, #[trigger] (va + 1 + k), 2) by {
            assert(s.access(mem, va + (k + 1), 2));
        }
        assert forall|k: int| 0 <= k < rest.len() implies s.ubyte(mem, #[trigger] (va + 1 + k)) == rest[k]
            && rest[k] != 0 by {
            assert(s.ubyte(mem, va + (k + 1)) == text[k + 1]);
        }
        lemma_cstr(s, mem, va + 1, rest, max - 1);
        assert(s.ubyte(mem, va + 0) == text[0]);
        assert(seq![text[0]] + rest =~= text);
    }
}

/// A new program finds its arguments: word `i` of the array points at string `i`,
/// the array ends with NULL, and the array is 16-byte aligned.
#[verifier::spinoff_prover]
#[verifier::rlimit(40)]
pub proof fn law_arguments_arrive(
    s: AddressSpace,
    m0: Memory,
    m1: Memory,
    args: Seq<Vec<u8>>,
    sp: int,
    i: int,
    max: int,
)
    requires
        room(args, args.len() as int) + (args.len() + 1) * 8 + 16 <= sp <= USER_MAX_ADDR,
        fits(s, m0, args, sp),
        forall|x: int|
            argv_at(args, sp) <= x < sp && #[trigger] s.access(m0, x, 4) ==> s.access(m0, x, 2) && s.access(m0, x, 0),
        space::unmoved(m1, m0, s.root()),
        overlaid(s, m1, m0, |x: int| vector(args, sp, args.len() as int + 1, x)),
        0 <= i < args.len(),
        args[i]@.len() < max,
        forall|k: int| 0 <= k < args[i]@.len() ==> args[i]@[k] != 0,
    ensures
        argv_at(args, sp) % 16 == 0,
        s.reach(m1, argv_at(args, sp) + 8 * i, 8, 2) == 8,
        s.cstr(m1, s.uword(m1, argv_at(args, sp) + 8 * i), max) == Some(args[i]@),
        s.reach(m1, argv_at(args, sp) + 8 * args.len(), 8, 2) == 8,
        s.uword(m1, argv_at(args, sp) + 8 * args.len()) == 0,
{
    let n = args.len() as int;
    lemma_word(s, m0, m1, args, sp, i);
    lemma_word(s, m0, m1, args, sp, n);
    lemma_string(s, m0, m1, args, sp, i, max);
}

/// String `i`, as the program reads it.
#[verifier::spinoff_prover]
proof fn lemma_string(
    s: AddressSpace,
    m0: Memory,
    m1: Memory,
    args: Seq<Vec<u8>>,
    sp: int,
    i: int,
    max: int,
)
    requires
        room(args, args.len() as int) + (args.len() + 1) * 8 + 16 <= sp <= USER_MAX_ADDR,
        fits(s, m0, args, sp),
        forall|x: int|
            argv_at(args, sp) <= x < sp && #[trigger] s.access(m0, x, 4) ==> s.access(m0, x, 2) && s.access(m0, x, 0),
        space::unmoved(m1, m0, s.root()),
        overlaid(s, m1, m0, |x: int| vector(args, sp, args.len() as int + 1, x)),
        0 <= i < args.len(),
        args[i]@.len() < max,
        forall|k: int| 0 <= k < args[i]@.len() ==> args[i]@[k] != 0,
    ensures
        0 <= string_at(args, sp, i) <= u64::MAX,
        s.cstr(m1, string_at(args, sp, i), max) == Some(args[i]@),
{
    let a = string_at(args, sp, i);
    assert forall|k: int| 0 <= k <= args[i]@.len() implies s.access(m1, #[trigger] (a + k), 2) && s.ubyte(
        m1,
        a + k,
    ) == (if k < args[i]@.len() {
        args[i]@[k]
    } else {
        0
    }) by {
        lemma_text(s, m0, m1, args, sp, i, k);
    }
    lemma_text(s, m0, m1, args, sp, i, 0);
    lemma_cstr(s, m1, a, args[i]@, max);
}

/// Byte `k` of string `i`, as the program reads it.
proof fn lemma_text(s: AddressSpace, m0: Memory, m1: Memory, args: Seq<Vec<u8>>, sp: int, i: int, k: int)
    requires
        room(args, args.len() as int) + (args.len() + 1) * 8 + 16 <= sp <= USER_MAX_ADDR,
        fits(s, m0, args, sp),
        forall|x: int|
            argv_at(args, sp) <= x < sp && #[trigger] s.access(m0, x, 4) ==> s.access(m0, x, 2) && s.access(m0, x, 0),
        space::unmoved(m1, m0, s.root()),
        overlaid(s, m1, m0, |x: int| vector(args, sp, args.len() as int + 1, x)),
        0 <= i < args.len(),
        0 <= k <= args[i]@.len(),
    ensures
        0 <= string_at(args, sp, i) <= u64::MAX,
        s.access(m1, string_at(args, sp, i) + k, 2),
        s.ubyte(m1, string_at(args, sp, i) + k) == (if k < args[i]@.len() {
            args[i]@[k]
        } else {
            0
        }),
{
    let n = args.len() as int;
    let a = string_at(args, sp, i);
    lemma_room(args, n, n);
    lemma_room(args, i + 1, n);
    lemma_string_at(args, sp, n - 1);
    lemma_string_at(args, sp, i);
    lemma_string_at(args, sp, i - 1);
    assert(string_fits(s, m0, args, sp, i));
    s.lemma_reach(m0, a, args[i]@.len() as int + 1, 4);
    lemma_strings(args, sp, i, n, a + k);
    assert(s.access(m0, a + k, 4));
    lemma_same_access(s, m1, m0, a + k, 2);
}

/// Word `j` of the array, as the program reads it.
proof fn lemma_word(s: AddressSpace, m0: Memory, m1: Memory, args: Seq<Vec<u8>>, sp: int, j: int)
    requires
        room(args, args.len() as int) + (args.len() + 1) * 8 + 16 <= sp <= USER_MAX_ADDR,
        fits(s, m0, args, sp),
        forall|x: int|
            argv_at(args, sp) <= x < sp && #[trigger] s.access(m0, x, 4) ==> s.access(m0, x, 2) && s.access(m0, x, 0),
        space::unmoved(m1, m0, s.root()),
        overlaid(s, m1, m0, |x: int| vector(args, sp, args.len() as int + 1, x)),
        0 <= j <= args.len(),
    ensures
        s.reach(m1, argv_at(args, sp) + 8 * j, 8, 2) == 8,
        s.uword(m1, argv_at(args, sp) + 8 * j) == pointer(args, sp, j),
{
    let n = args.len() as int;
    let argv = argv_at(args, sp);
    let at = argv + 8 * j;
    let w = pointer(args, sp, j);
    lemma_room(args, n, n);
    lemma_string_at(args, sp, n - 1);
    assert(pointer_fits(s, m0, args, sp, j));
    s.lemma_reach(m0, at, 8, 4);
    assert forall|k: int| 0 <= k < 8 implies s.access(m1, #[trigger] (at + k), 2) && s.ubyte(m1, at + k)
        == bits::byte_of(w, k as u64) by {
        assert(s.access(m0, at + k, 4));
        lemma_same_access(s, m1, m0, at + k, 2);
        assert((at + k - argv) / 8 == j && (at + k - argv) % 8 == k);
    }
    s.lemma_reach_over(m1, at, 8, 2, 8);
    let bytes = Seq::new(8, |k: int| s.ubyte(m1, at + k));
    assert forall|k: u64| k < 8 implies bytes[0 + k] == #[trigger] bits::byte_of(w, k) by {
        assert(s.ubyte(m1, at + k as int) == bits::byte_of(w, k));
    }
    bits::lemma_word_bytes(w, bytes, 0);
}

} // verus!
