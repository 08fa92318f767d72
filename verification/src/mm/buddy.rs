//! A binary buddy system over physical frames.
//!
//! Two pieces of bookkeeping:
//!
//! * **Intrusive doubly-linked free lists.** A free frame's own contents are
//!   dead, so the list nodes live *inside* the frames. Zero external metadata,
//!   and removal from the middle of a list -- which merging needs -- is O(1).
//! * **A free bitmap, one bit per block per order.** Merging has to ask "is my
//!   buddy free *at this order*?", which the list alone cannot answer. The
//!   bitmap is carved off the front of the managed region.
//!
//! Buddy arithmetic runs on frame indices relative to the start of the managed
//! frames, which begin at a multiple of the largest block, so that a block of
//! order `k` is physically aligned to its own size.

use vstd::prelude::*;
use crate::bits;
use crate::config::{DIRECT_MAP_PAGES, PAGE_SIZE};
use crate::mm::addr::{self, PhysAddr, PhysPageNum};
use crate::mm::dram::{Dram, FRAME_WORDS};

verus! {

/// Largest block the allocator will serve: `2^MAX_ORDER` frames = 4 MiB.
pub const MAX_ORDER: usize = 10;

/// Number of orders.
pub const ORDERS: usize = 11;

/// Frames in the largest block.
pub const MAX_BLOCK: u64 = 1024;

/// Sentinel for "no frame", since index 0 is a legitimate block.
pub const NIL: u64 = 0xffff_ffff_ffff_ffff;

/// Frames in a block of the given order: `2^order`.
pub open spec fn size(order: int) -> int
    decreases order,
{
    if order <= 0 {
        1
    } else {
        2 * size(order - 1)
    }
}

/// Smallest order from `from` upwards whose block holds `count` frames.
pub open spec fn order_of(count: int, from: int) -> int
    decreases 64 - from,
{
    if from >= 64 || size(from) >= count {
        from
    } else {
        order_of(count, from + 1)
    }
}

/// The smallest order is the one that holds enough while the one below does not.
pub proof fn lemma_order_of(count: int, r: int, from: int)
    requires
        0 <= from <= r <= 64,
        count <= size(r),
        r > from ==> size(r - 1) < count,
    ensures
        order_of(count, from) == r,
    decreases r - from,
{
    if from < r {
        lemma_size_grows(from, r - 1);
        lemma_order_of(count, r, from + 1);
    }
}

/// Sizes grow with the order.
proof fn lemma_size_grows(j: int, k: int)
    requires
        0 <= j <= k,
    ensures
        0 < size(j) <= size(k),
    decreases k,
{
    if k > 0 {
        if j < k {
            lemma_size_grows(j, k - 1);
        } else {
            lemma_size_grows(j - 1, k - 1);
        }
    }
}

/// The sizes of all orders.
pub proof fn lemma_sizes()
    ensures
        size(0) == 1,
        size(1) == 2,
        size(2) == 4,
        size(3) == 8,
        size(4) == 16,
        size(5) == 32,
        size(6) == 64,
        size(7) == 128,
        size(8) == 256,
        size(9) == 512,
        size(10) == 1024,
{
    reveal_with_fuel(size, 11);
}

/// The bounds of a size.
pub proof fn lemma_size(k: int)
    requires
        0 <= k <= 10,
    ensures
        1 <= size(k) <= 1024,
        k < 10 ==> size(k + 1) == 2 * size(k),
{
    lemma_sizes();
}

proof fn lemma_shifts()
    by (bit_vector)
    ensures
        1u64 << 0 == 1,
        1u64 << 1 == 2,
        1u64 << 2 == 4,
        1u64 << 3 == 8,
        1u64 << 4 == 16,
        1u64 << 5 == 32,
        1u64 << 6 == 64,
        1u64 << 7 == 128,
        1u64 << 8 == 256,
        1u64 << 9 == 512,
        1u64 << 10 == 1024,
{
}

/// Frames in a block of the given order.
pub fn block_frames(order: usize) -> (r: u64)
    requires
        order <= MAX_ORDER,
    ensures
        r == size(order as int),
        1 <= r <= 1024,
{
    proof {
        lemma_sizes();
        lemma_shifts();
    }
    1u64 << order
}

/// Multiples of `n` alternate between multiples of `2 * n` and not.
proof fn lemma_mod_double(x: int, n: int)
    requires
        0 < n,
    ensures
        x % (2 * n) == 0 ==> x % n == 0 && (x + n) % n == 0 && (x + n) % (2 * n) == n,
        x % n == 0 && x % (2 * n) != 0 ==> (x - n) % (2 * n) == 0 && (x - n) % n == 0,
{
    if x % (2 * n) == 0 {
        let m = x / (2 * n);
        vstd::arithmetic::div_mod::lemma_fundamental_div_mod(x, 2 * n);
        assert(x == (2 * m) * n + 0) by (nonlinear_arith)
            requires
                x == (2 * n) * m;
        assert(x + n == (2 * m + 1) * n + 0) by (nonlinear_arith)
            requires
                x == (2 * n) * m;
        assert(x + n == m * (2 * n) + n) by (nonlinear_arith)
            requires
                x == (2 * n) * m;
        vstd::arithmetic::div_mod::lemma_fundamental_div_mod_converse(x, n, 2 * m, 0);
        vstd::arithmetic::div_mod::lemma_fundamental_div_mod_converse(x + n, n, 2 * m + 1, 0);
        vstd::arithmetic::div_mod::lemma_fundamental_div_mod_converse(x + n, 2 * n, m, n);
    }
    if x % n == 0 {
        let q = x / n;
        vstd::arithmetic::div_mod::lemma_fundamental_div_mod(x, n);
        let m = q / 2;
        if q % 2 == 0 {
            assert(x == m * (2 * n) + 0) by (nonlinear_arith)
                requires
                    x == n * q,
                    q == 2 * m;
            vstd::arithmetic::div_mod::lemma_fundamental_div_mod_converse(x, 2 * n, m, 0);
        } else {
            assert(x - n == m * (2 * n) + 0) by (nonlinear_arith)
                requires
                    x == n * q,
                    q == 2 * m + 1;
            vstd::arithmetic::div_mod::lemma_fundamental_div_mod_converse(x - n, 2 * n, m, 0);
            assert(x - n == (q - 1) * n + 0) by (nonlinear_arith)
                requires
                    x == n * q;
            vstd::arithmetic::div_mod::lemma_fundamental_div_mod_converse(x - n, n, q - 1, 0);
        }
    }
}

/// The block that a block of the given order merges with: the other half of
/// the block of the next order that contains it.
pub open spec fn buddy_of(idx: int, order: int) -> int {
    if idx % size(order + 1) == 0 {
        idx + size(order)
    } else {
        idx - size(order)
    }
}

/// Buddies are a block apart, each the other's buddy, and the lower one starts
/// their union.
pub proof fn lemma_buddy(idx: int, k: int)
    requires
        0 <= k < 10,
        0 <= idx,
        idx % size(k) == 0,
    ensures
        0 <= buddy_of(idx, k),
        buddy_of(idx, k) % size(k) == 0,
        buddy_of(buddy_of(idx, k), k) == idx,
        idx % size(k + 1) == 0 ==> buddy_of(idx, k) == idx + size(k),
        idx % size(k + 1) != 0 ==> buddy_of(idx, k) == idx - size(k),
        idx % size(k + 1) != 0 ==> (idx - size(k)) % size(k + 1) == 0,
        size(k + 1) == 2 * size(k),
{
    lemma_size(k);
    lemma_mod_double(idx, size(k));
    if idx < size(k) {
        vstd::arithmetic::div_mod::lemma_small_mod(idx as nat, size(k) as nat);
        vstd::arithmetic::div_mod::lemma_small_mod(0nat, size(k + 1) as nat);
    }
    lemma_mod_double(buddy_of(idx, k), size(k));
}

/// The halves of an aligned block are aligned.
pub proof fn lemma_halves(idx: int, k: int)
    requires
        0 <= k < 10,
        0 <= idx,
        idx % size(k + 1) == 0,
    ensures
        idx % size(k) == 0,
        (idx + size(k)) % size(k) == 0,
        (idx + size(k)) % size(k + 1) != 0,
        size(k + 1) == 2 * size(k),
{
    lemma_size(k);
    lemma_mod_double(idx, size(k));
    lemma_mod_double(idx + size(k), size(k));
}

/// A multiple of a large size is a multiple of every smaller one.
proof fn lemma_aligned_down(x: int, k: int, l: int)
    requires
        0 <= k <= l <= 10,
        x % size(l) == 0,
    ensures
        x % size(k) == 0,
    decreases l - k,
{
    if k < l {
        lemma_size(l - 1);
        lemma_mod_double(x, size(l - 1));
        lemma_aligned_down(x, k, l - 1);
    }
}

/// The sum of two multiples of a size is a multiple of it.
proof fn lemma_base_aligned(base: int, idx: int, k: int)
    requires
        0 <= k <= 10,
        base % 1024 == 0,
        idx % size(k) == 0,
    ensures
        (base + idx) % size(k) == 0,
{
    lemma_sizes();
    lemma_aligned_down(base, k, 10);
    lemma_size(k);
    vstd::arithmetic::div_mod::lemma_add_mod_noop(base, idx, size(k));
}

/// A run of frames with one fate: free and listed, or handed out.
pub struct Block {
    /// Relative index of the first frame.
    pub start: int,
    /// The block has `2^order` frames.
    pub order: int,
    /// Is the block on the free list of its order?
    pub free: bool,
}

/// The frames `[a, a + n)` belong to block `b`; the others are as before.
pub open spec fn retag(s: Seq<Block>, a: int, n: int, b: Block) -> Seq<Block> {
    Seq::new(s.len(), |f: int| if a <= f < a + n { b } else { s[f] })
}

/// Every frame belongs to an aligned block that lies inside the region, and all
/// frames of that block agree on it. So blocks are disjoint and leave no gap.
#[verifier::opaque]
pub open spec fn tags_ok(s: Seq<Block>) -> bool {
    &&& forall|f: int| 0 <= f < s.len() ==> {
        &&& 0 <= (#[trigger] s[f]).order <= 10
        &&& 0 <= s[f].start <= f
        &&& f < s[f].start + size(s[f].order)
        &&& s[f].start + size(s[f].order) <= s.len()
        &&& s[f].start % size(s[f].order) == 0
    }
    &&& forall|f: int, g: int|
        #![trigger s[f], s[g]]
        0 <= f < s.len() && s[f].start <= g < s[f].start + size(s[f].order) ==> s[g] == s[f]
}

/// Is the block of the given order at `i` on its free list?
pub open spec fn listed(s: Seq<Block>, i: int, order: int) -> bool {
    0 <= i < s.len() && s[i] == (Block { start: i, order, free: true })
}

/// Is the block of the given order at `i` handed out?
pub open spec fn held(s: Seq<Block>, i: int, order: int) -> bool {
    0 <= i < s.len() && s[i] == (Block { start: i, order, free: false })
}

/// No two buddies are both free: whatever could be merged has been.
pub open spec fn merged(s: Seq<Block>) -> bool {
    forall|i: int, k: int|
        0 <= k < 10 && #[trigger] listed(s, i, k) ==> !listed(s, buddy_of(i, k), k)
}

/// Number of frames that are handed out.
pub open spec fn held_count(s: Seq<Block>) -> int
    decreases s.len(),
{
    if s.len() == 0 {
        0
    } else {
        held_count(s.drop_last()) + (if s.last().free {
            0int
        } else {
            1int
        })
    }
}

proof fn lemma_held_count_bounds(s: Seq<Block>)
    ensures
        0 <= held_count(s) <= s.len(),
    decreases s.len(),
{
    if s.len() > 0 {
        lemma_held_count_bounds(s.drop_last());
    }
}

/// Everything is handed out exactly when no frame is free.
proof fn lemma_held_count_full(s: Seq<Block>)
    ensures
        held_count(s) == s.len() <==> (forall|f: int| 0 <= f < s.len() ==> !(#[trigger] s[f]).free),
    decreases s.len(),
{
    if s.len() > 0 {
        let t = s.drop_last();
        lemma_held_count_full(t);
        lemma_held_count_bounds(t);
        if held_count(s) == s.len() {
            assert forall|f: int| 0 <= f < s.len() implies !(#[trigger] s[f]).free by {
                if f < t.len() {
                    assert(t[f] == s[f]);
                }
            }
        }
        if forall|f: int| 0 <= f < s.len() ==> !(#[trigger] s[f]).free {
            assert forall|f: int| 0 <= f < t.len() implies !(#[trigger] t[f]).free by {
                assert(t[f] == s[f]);
            }
        }
    }
}

/// Nothing is handed out if every frame is free.
proof fn lemma_held_count_none(s: Seq<Block>)
    requires
        forall|f: int| 0 <= f < s.len() ==> (#[trigger] s[f]).free,
    ensures
        held_count(s) == 0,
    decreases s.len(),
{
    if s.len() > 0 {
        let t = s.drop_last();
        assert forall|f: int| 0 <= f < t.len() implies (#[trigger] t[f]).free by {
            assert(t[f] == s[f]);
        }
        lemma_held_count_none(t);
    }
}

proof fn lemma_held_count_update(s: Seq<Block>, f: int, b: Block)
    requires
        0 <= f < s.len(),
    ensures
        held_count(s.update(f, b)) == held_count(s) + (if s[f].free && !b.free {
            1int
        } else if !s[f].free && b.free {
            -1int
        } else {
            0int
        }),
    decreases s.len(),
{
    let u = s.update(f, b);
    if f == s.len() - 1 {
        assert(u.drop_last() =~= s.drop_last());
    } else {
        assert(u.drop_last() =~= s.drop_last().update(f, b));
        lemma_held_count_update(s.drop_last(), f, b);
    }
}

/// Retagging a run whose frames were all free (or all handed out) changes the
/// count by the length of the run, or not at all.
proof fn lemma_held_count_retag(s: Seq<Block>, a: int, n: int, b: Block, was: bool)
    requires
        0 <= a,
        0 <= n,
        a + n <= s.len(),
        forall|f: int| a <= f < a + n ==> (#[trigger] s[f]).free == was,
    ensures
        held_count(retag(s, a, n, b)) == held_count(s) + (if was && !b.free {
            n
        } else if !was && b.free {
            -n
        } else {
            0
        }),
    decreases n,
{
    if n == 0 {
        assert(retag(s, a, n, b) =~= s);
    } else {
        let t = retag(s, a, n - 1, b);
        lemma_held_count_retag(s, a, n - 1, b, was);
        assert(retag(s, a, n, b) =~= t.update(a + n - 1, b));
        lemma_held_count_update(t, a + n - 1, b);
    }
}

/// A block is aligned and lies inside the region.
pub proof fn lemma_block(s: Seq<Block>, f: int)
    requires
        tags_ok(s),
        0 <= f < s.len(),
    ensures
        0 <= s[f].order <= 10,
        0 <= s[f].start <= f,
        f < s[f].start + size(s[f].order),
        s[f].start + size(s[f].order) <= s.len(),
        s[f].start % size(s[f].order) == 0,
        forall|g: int| s[f].start <= g < s[f].start + size(s[f].order) ==> #[trigger] s[g] == s[f],
{
    reveal(tags_ok);
}

/// Retagging a run made of whole blocks as one aligned block keeps the tags
/// consistent.
proof fn lemma_retag(s: Seq<Block>, a: int, k: int, free: bool)
    requires
        tags_ok(s),
        0 <= k <= 10,
        0 <= a,
        a + size(k) <= s.len(),
        a % size(k) == 0,
        forall|f: int|
            a <= f < a + size(k) ==> a <= (#[trigger] s[f]).start && s[f].start + size(s[f].order) <= a
                + size(k),
    ensures
        tags_ok(retag(s, a, size(k), Block { start: a, order: k, free })),
{
    reveal(tags_ok);
    let b = Block { start: a, order: k, free };
    let t = retag(s, a, size(k), b);
    lemma_size(k);
    assert forall|f: int, g: int|
        #![trigger t[f], t[g]]
        0 <= f < t.len() && t[f].start <= g < t[f].start + size(t[f].order) implies t[g] == t[f] by {
        if !(a <= f < a + size(k)) {
            assert(t[f] == s[f]);
            assert(s[g] == s[f]);
            if a <= g < a + size(k) {
                assert(a <= s[g].start);
                assert(false);
            }
        }
    }
    assert forall|f: int| 0 <= f < t.len() implies {
        &&& 0 <= (#[trigger] t[f]).order <= 10
        &&& 0 <= t[f].start <= f
        &&& f < t[f].start + size(t[f].order)
        &&& t[f].start + size(t[f].order) <= t.len()
        &&& t[f].start % size(t[f].order) == 0
    } by {
        if !(a <= f < a + size(k)) {
            assert(t[f] == s[f]);
        }
    }
}

/// Listing or unlisting one block leaves the others.
proof fn lemma_mark(s: Seq<Block>, a: int, k: int, free: bool)
    requires
        tags_ok(s),
        0 <= k <= 10,
        0 <= a < s.len(),
        s[a] == (Block { start: a, order: k, free: !free }),
    ensures
        ({
            let t = retag(s, a, size(k), Block { start: a, order: k, free });
            &&& tags_ok(t)
            &&& t.len() == s.len()
            &&& a + size(k) <= s.len()
            &&& a % size(k) == 0
            &&& held_count(t) == held_count(s) + (if free {
                -size(k)
            } else {
                size(k)
            })
            &&& forall|f: int|
                0 <= f < s.len() ==> (#[trigger] t[f]).free == (if a <= f < a + size(k) {
                    free
                } else {
                    s[f].free
                })
            &&& forall|f: int| a <= f < a + size(k) ==> (#[trigger] s[f]).free == !free
            &&& forall|i: int, l: int|
                #[trigger] listed(t, i, l) <==> (if i == a && l == k {
                    free
                } else {
                    listed(s, i, l)
                })
            &&& forall|i: int, l: int|
                #[trigger] held(t, i, l) <==> (if i == a && l == k {
                    !free
                } else {
                    held(s, i, l)
                })
        }),
{
    reveal(tags_ok);
    let b = Block { start: a, order: k, free };
    let t = retag(s, a, size(k), b);
    lemma_size(k);
    assert forall|f: int| a <= f < a + size(k) implies #[trigger] s[f] == s[a] by {}
    lemma_retag(s, a, k, free);
    lemma_held_count_retag(s, a, size(k), b, !free);
    assert forall|i: int, l: int|
        #[trigger] listed(t, i, l) <==> (if i == a && l == k {
            free
        } else {
            listed(s, i, l)
        }) by {
        if a <= i < a + size(k) {
            assert(s[i] == s[a]);
        }
    }
    assert forall|i: int, l: int|
        #[trigger] held(t, i, l) <==> (if i == a && l == k {
            !free
        } else {
            held(s, i, l)
        }) by {
        if a <= i < a + size(k) {
            assert(s[i] == s[a]);
        }
    }
}

/// Cutting a block that is handed out into two halves.
pub open spec fn cut(s: Seq<Block>, a: int, k: int) -> Seq<Block> {
    retag(
        retag(s, a, size(k), Block { start: a, order: k, free: false }),
        a + size(k),
        size(k),
        Block { start: a + size(k), order: k, free: false },
    )
}

proof fn lemma_cut(s: Seq<Block>, a: int, k: int)
    requires
        tags_ok(s),
        0 <= k < 10,
        held(s, a, k + 1),
    ensures
        tags_ok(cut(s, a, k)),
        cut(s, a, k).len() == s.len(),
        held(cut(s, a, k), a, k),
        held(cut(s, a, k), a + size(k), k),
        held_count(cut(s, a, k)) == held_count(s),
        forall|f: int| 0 <= f < s.len() ==> (#[trigger] cut(s, a, k)[f]).free == s[f].free,
        forall|i: int, l: int| #[trigger] listed(cut(s, a, k), i, l) <==> listed(s, i, l),
        forall|i: int, l: int|
            #[trigger] held(cut(s, a, k), i, l) <==> {
                ||| held(s, i, l) && !(i == a && l == k + 1)
                ||| l == k && (i == a || i == a + size(k))
            },
{
    reveal(tags_ok);
    lemma_size(k);
    lemma_halves(a, k);
    let t = cut(s, a, k);
    let lo = Block { start: a, order: k, free: false };
    let hi = Block { start: a + size(k), order: k, free: false };
    assert(s[a].start == a && s[a].order == k + 1);
    assert forall|f: int| a <= f < a + 2 * size(k) implies s[f] == s[a] by {}
    let m = retag(s, a, size(k), lo);
    lemma_held_count_retag(s, a, size(k), lo, false);
    assert forall|f: int| a + size(k) <= f < a + 2 * size(k) implies (#[trigger] m[f]).free == false by {
        assert(m[f] == s[f]);
    }
    lemma_held_count_retag(m, a + size(k), size(k), hi, false);
    assert forall|f: int| 0 <= f < t.len() implies {
        &&& 0 <= (#[trigger] t[f]).order <= 10
        &&& 0 <= t[f].start <= f
        &&& f < t[f].start + size(t[f].order)
        &&& t[f].start + size(t[f].order) <= t.len()
        &&& t[f].start % size(t[f].order) == 0
    } by {
        if !(a <= f < a + 2 * size(k)) {
            assert(t[f] == s[f]);
        }
    }
    assert forall|f: int, g: int|
        #![trigger t[f], t[g]]
        0 <= f < t.len() && t[f].start <= g < t[f].start + size(t[f].order) implies t[g] == t[f] by {
        if !(a <= f < a + 2 * size(k)) {
            assert(t[f] == s[f]);
            assert(s[g] == s[f]);
            if a <= g < a + 2 * size(k) {
                assert(s[g] == s[a]);
                assert(false);
            }
            assert(t[g] == s[g]);
        }
    }
}

/// Joining two buddies that are handed out.
pub open spec fn join(s: Seq<Block>, a: int, k: int) -> Seq<Block> {
    retag(s, a, size(k + 1), Block { start: a, order: k + 1, free: false })
}

proof fn lemma_join(s: Seq<Block>, a: int, k: int)
    requires
        tags_ok(s),
        0 <= k < 10,
        a % size(k + 1) == 0,
        held(s, a, k),
        held(s, a + size(k), k),
    ensures
        tags_ok(join(s, a, k)),
        held(join(s, a, k), a, k + 1),
        held_count(join(s, a, k)) == held_count(s),
        forall|f: int| 0 <= f < s.len() ==> (#[trigger] join(s, a, k)[f]).free == s[f].free,
        join(s, a, k).len() == s.len(),
        forall|i: int, l: int| #[trigger] listed(join(s, a, k), i, l) <==> listed(s, i, l),
        forall|i: int, l: int|
            #[trigger] held(join(s, a, k), i, l) <==> {
                ||| held(s, i, l) && !(l == k && (i == a || i == a + size(k)))
                ||| i == a && l == k + 1
            },
{
    reveal(tags_ok);
    lemma_size(k);
    lemma_halves(a, k);
    assert forall|f: int| a <= f < a + size(k) implies s[f] == s[a] by {}
    assert forall|f: int| a + size(k) <= f < a + 2 * size(k) implies #[trigger] s[f] == s[a + size(k)] by {}
    assert(s[a + size(k)].start + size(s[a + size(k)].order) <= s.len());
    assert forall|f: int| a <= f < a + size(k + 1) implies a <= (#[trigger] s[f]).start && s[f].start
        + size(s[f].order) <= a + size(k + 1) by {
        if f < a + size(k) {
            assert(s[f] == s[a]);
        } else {
            assert(s[f] == s[a + size(k)]);
        }
    }
    lemma_retag(s, a, k + 1, false);
    assert forall|f: int| a <= f < a + size(k + 1) implies (#[trigger] s[f]).free == false by {
        if f < a + size(k) {
            assert(s[f] == s[a]);
        } else {
            assert(s[f] == s[a + size(k)]);
        }
    }
    lemma_held_count_retag(s, a, size(k + 1), Block { start: a, order: k + 1, free: false }, false);
}

/// Bits in the bitmap below the region of the given order: one for each
/// possible block of each lower order.
pub open spec fn bit_base(frames: int, order: int) -> int
    decreases order,
{
    if order <= 0 {
        0
    } else {
        bit_base(frames, order - 1) + (frames + size(order - 1) - 1) / size(order - 1)
    }
}

proof fn lemma_bit_base_mono(frames: int, j: int, k: int)
    requires
        0 <= frames,
        0 <= j <= k <= 11,
    ensures
        0 <= bit_base(frames, j) <= bit_base(frames, k),
        bit_base(frames, k) <= 11 * frames,
    decreases k,
{
    if k > 0 {
        lemma_size(k - 1);
        let n = size(k - 1);
        let c = (frames + n - 1) / n;
        assert(0 <= c <= frames) by (nonlinear_arith)
            requires
                c == (frames + n - 1) / n,
                n >= 1,
                frames >= 0;
        if j == k {
            lemma_bit_base_mono(frames, k - 1, k - 1);
        } else {
            lemma_bit_base_mono(frames, j, k - 1);
        }
        assert(bit_base(frames, k) <= k * frames) by {
            lemma_bit_base_linear(frames, k);
        }
        assert(k * frames <= 11 * frames) by (nonlinear_arith)
            requires
                k <= 11,
                frames >= 0;
    } else {
        assert(bit_base(frames, 0) == 0);
    }
}

proof fn lemma_bit_base_linear(frames: int, k: int)
    requires
        0 <= frames,
        0 <= k <= 11,
    ensures
        bit_base(frames, k) <= k * frames,
    decreases k,
{
    if k > 0 {
        lemma_bit_base_linear(frames, k - 1);
        lemma_size(k - 1);
        let n = size(k - 1);
        let c = (frames + n - 1) / n;
        assert(c <= frames) by (nonlinear_arith)
            requires
                c == (frames + n - 1) / n,
                n >= 1,
                frames >= 0;
        assert((k - 1) * frames + frames == k * frames) by (nonlinear_arith);
    } else {
        assert(k * frames == 0) by (nonlinear_arith)
            requires
                k == 0;
    }
}

/// A smaller region needs no more bits.
proof fn lemma_bit_base_shrink(a: int, b: int, k: int)
    requires
        0 <= a <= b,
        0 <= k <= 11,
    ensures
        bit_base(a, k) <= bit_base(b, k),
    decreases k,
{
    if k > 0 {
        lemma_bit_base_shrink(a, b, k - 1);
        lemma_size(k - 1);
        vstd::arithmetic::div_mod::lemma_div_is_ordered(
            a + size(k - 1) - 1,
            b + size(k - 1) - 1,
            size(k - 1),
        );
    }
}

/// Frames that the bitmap of a region of `total` frames takes.
pub open spec fn bitmap_frames(total: int) -> int {
    (bit_base(total, 11) + 32767) / 32768
}

/// First managed frame of a region that starts at frame `first` and has
/// `total` frames: the next multiple of the largest block above the bitmap.
pub open spec fn managed_base(first: int, total: int) -> int {
    (first + bitmap_frames(total) + 1023) / 1024 * 1024
}

/// Bit that stands for the block of the given order at `idx`.
pub open spec fn bit_number(frames: int, order: int, idx: int) -> int {
    bit_base(frames, order) + idx / size(order)
}

proof fn lemma_bit_number(frames: int, k: int, idx: int)
    requires
        0 <= k <= 10,
        0 <= idx < frames,
    ensures
        0 <= idx / size(k),
        bit_base(frames, k) <= bit_number(frames, k, idx) < bit_base(frames, k + 1),
        0 <= bit_number(frames, k, idx) < bit_base(frames, 11),
{
    lemma_size(k);
    let n = size(k);
    let q = idx / n;
    let c = (frames + n - 1) / n;
    assert(0 <= q < c) by (nonlinear_arith)
        requires
            q == idx / n,
            c == (frames + n - 1) / n,
            n >= 1,
            0 <= idx < frames;
    lemma_bit_base_mono(frames, 0, k);
    lemma_bit_base_mono(frames, k + 1, 11);
}

/// Distinct blocks have distinct bits.
proof fn lemma_bit_number_injective(frames: int, k: int, i: int, l: int, j: int)
    requires
        0 <= k <= 10,
        0 <= l <= 10,
        0 <= i < frames,
        0 <= j < frames,
        i % size(k) == 0,
        j % size(l) == 0,
        bit_number(frames, k, i) == bit_number(frames, l, j),
    ensures
        k == l,
        i == j,
{
    lemma_bit_number(frames, k, i);
    lemma_bit_number(frames, l, j);
    lemma_size(k);
    lemma_size(l);
    if k < l {
        lemma_bit_base_mono(frames, k + 1, l);
    } else if l < k {
        lemma_bit_base_mono(frames, l + 1, k);
    }
    vstd::arithmetic::div_mod::lemma_fundamental_div_mod(i, size(k));
    vstd::arithmetic::div_mod::lemma_fundamental_div_mod(j, size(l));
}

/// The node after position `j` of a free list, as stored.
pub open spec fn next_of(l: Seq<int>, j: int) -> u64 {
    if j + 1 < l.len() {
        l[j + 1] as u64
    } else {
        NIL
    }
}

/// The node before position `j` of a free list, as stored.
pub open spec fn prev_of(l: Seq<int>, j: int) -> u64 {
    if 0 < j {
        l[j - 1] as u64
    } else {
        NIL
    }
}

/// The frames of `l`, counted from `base`, hold the links of a doubly linked
/// list, and `head` names its first element.
pub open spec fn linked(dram: Dram, base: int, l: Seq<int>, head: u64) -> bool {
    &&& head == (if l.len() == 0 {
        NIL
    } else {
        l[0] as u64
    })
    &&& forall|j: int|
        0 <= j < l.len() ==> {
            &&& dram.word(base + #[trigger] l[j], 0) == next_of(l, j)
            &&& dram.word(base + l[j], 1) == prev_of(l, j)
        }
}

/// List `l` without its element `x`.
pub open spec fn without(l: Seq<int>, x: int) -> Seq<int> {
    l.remove(l.index_of(x))
}

/// Taking an element out of a list without repetitions leaves the others.
proof fn lemma_without(l: Seq<int>, x: int)
    requires
        l.no_duplicates(),
        l.contains(x),
    ensures
        0 <= l.index_of(x) < l.len(),
        l[l.index_of(x)] == x,
        without(l, x).len() == l.len() - 1,
        without(l, x).no_duplicates(),
        forall|y: int| #[trigger] without(l, x).contains(y) <==> l.contains(y) && y != x,
{
    let pos = l.index_of(x);
    let n = l.remove(pos);
    assert forall|j: int| 0 <= j < n.len() implies #[trigger] n[j] == l[if j < pos {
        j
    } else {
        j + 1
    }] by {}
    assert forall|y: int| #[trigger] n.contains(y) <==> l.contains(y) && y != x by {
        if n.contains(y) {
            let j = choose|j: int| 0 <= j < n.len() && n[j] == y;
            let o = if j < pos {
                j
            } else {
                j + 1
            };
            assert(l[o] == y);
        }
        if l.contains(y) && y != x {
            let o = choose|o: int| 0 <= o < l.len() && l[o] == y;
            if o < pos {
                assert(n[o] == y);
            } else {
                assert(n[o - 1] == y);
            }
        }
    }
}

/// Pointing the neighbours of an element at each other takes it out of a linked
/// list.
proof fn lemma_unlinked(d0: Dram, d2: Dram, base: int, l: Seq<int>, pos: int, head: u64)
    requires
        linked(d0, base, l, head),
        l.no_duplicates(),
        0 <= pos < l.len(),
        forall|j: int| 0 <= j < l.len() ==> 0 <= #[trigger] l[j] < NIL,
        forall|j: int|
            0 <= j < l.len() && j != pos ==> {
                &&& d2.word(base + #[trigger] l[j], 0) == (if j == pos - 1 {
                    next_of(l, pos)
                } else {
                    d0.word(base + l[j], 0)
                })
                &&& d2.word(base + l[j], 1) == (if j == pos + 1 {
                    prev_of(l, pos)
                } else {
                    d0.word(base + l[j], 1)
                })
            },
    ensures
        linked(
            d2,
            base,
            l.remove(pos),
            if pos == 0 {
                next_of(l, pos)
            } else {
                head
            },
        ),
{
    let n = l.remove(pos);
    if n.len() > 0 {
        assert(n[0] == (if pos == 0 {
            l[1]
        } else {
            l[0]
        }));
    }
    assert forall|j: int| 0 <= j < n.len() implies {
        &&& d2.word(base + #[trigger] n[j], 0) == next_of(n, j)
        &&& d2.word(base + n[j], 1) == prev_of(n, j)
    } by {
        let o = if j >= pos {
            j + 1
        } else {
            j
        };
        assert(n[j] == l[o]);
        assert(d0.word(base + l[o], 0) == next_of(l, o));
        assert(d0.word(base + l[o], 1) == prev_of(l, o));
        if j + 1 < n.len() {
            assert(n[j + 1] == (if j + 1 >= pos {
                l[j + 2]
            } else {
                l[j + 1]
            }));
        }
        if j > 0 {
            assert(n[j - 1] == (if j - 1 >= pos {
                l[j]
            } else {
                l[j - 1]
            }));
        }
    }
}

/// Smallest order from `order` upwards with a free block, or one past the
/// largest if there is none.
pub open spec fn donor(lists: Seq<Seq<int>>, order: int) -> int
    decreases 11 - order,
{
    if order > 10 {
        11
    } else if lists[order].len() > 0 {
        order
    } else {
        donor(lists, order + 1)
    }
}

/// The free lists once block `idx`, first of order `d`, was split down to
/// `order`: it is gone from its list, and of each order below the upper half
/// that the split left over is listed.
pub open spec fn split_lists(lists: Seq<Seq<int>>, idx: int, d: int, order: int) -> Seq<Seq<int>> {
    Seq::new(
        11,
        |l: int|
            if l == d {
                lists[l].drop_first()
            } else if order <= l < d {
                seq![idx + size(l)]
            } else {
                lists[l]
            },
    )
}

/// The free lists after a request of `order` was served from its donor.
pub open spec fn served(lists: Seq<Seq<int>>, order: int) -> Seq<Seq<int>> {
    let d = donor(lists, order);
    split_lists(lists, lists[d][0], d, order)
}

/// The free lists after the block of order `order` at `idx` came back: it is
/// joined with its buddy as long as that one is free, and what results is
/// listed first of its order.
pub open spec fn returned(lists: Seq<Seq<int>>, idx: int, order: int) -> Seq<Seq<int>>
    decreases 10 - order,
{
    let b = buddy_of(idx, order);
    if order < 10 && lists[order].contains(b) {
        returned(
            lists.update(order, without(lists[order], b)),
            if b < idx {
                b
            } else {
                idx
            },
            order + 1,
        )
    } else {
        lists.update(order, seq![idx] + lists[order])
    }
}

/// The multiples of the largest block size below `m` of them, last to first.
pub open spec fn count_down(m: int) -> Seq<int> {
    Seq::new(m as nat, |j: int| 1024 * (m - 1 - j))
}

/// The free lists of a region of `frames` frames that are all free: as many
/// blocks of the largest order as fit, then one block for each bit that is set
/// in the number of frames left over.
pub open spec fn seeded(frames: int) -> Seq<Seq<int>> {
    Seq::new(
        11,
        |k: int|
            if k == 10 {
                count_down(frames / 1024)
            } else if frames % size(k + 1) >= size(k) {
                seq![frames / size(k + 1) * size(k + 1)]
            } else {
                Seq::empty()
            },
    )
}

/// The lists of [`seeded`] down to order `q`, and nothing below.
spec fn seeded_from(frames: int, q: int) -> Seq<Seq<int>> {
    Seq::new(
        11,
        |k: int|
            if k >= q {
                seeded(frames)[k]
            } else {
                Seq::empty()
            },
    )
}

/// Only `m` blocks of the largest order are listed.
spec fn seeded_top(m: int) -> Seq<Seq<int>> {
    Seq::new(
        11,
        |k: int|
            if k == 10 {
                count_down(m)
            } else {
                Seq::empty()
            },
    )
}

/// If `idx` is a multiple of `n` and less than `n` below `frames`, it is the
/// last multiple of `n` up to `frames`.
proof fn lemma_last_multiple(frames: int, idx: int, n: int)
    requires
        0 < n,
        idx % n == 0,
        0 <= frames - idx < n,
    ensures
        frames % n == frames - idx,
        frames / n * n == idx,
{
    vstd::arithmetic::div_mod::lemma_fundamental_div_mod(idx, n);
    let m = idx / n;
    assert(frames == m * n + (frames - idx)) by (nonlinear_arith)
        requires
            idx == n * m;
    vstd::arithmetic::div_mod::lemma_fundamental_div_mod_converse(frames, n, m, frames - idx);
    assert(m * n == n * m) by (nonlinear_arith);
}

/// Nothing is listed between the order last listed and the next one.
proof fn lemma_seeded_skip(frames: int, idx: int, q: int, k: int)
    requires
        0 <= k <= q <= 10,
        idx % size(q) == 0,
        0 <= frames - idx < size(k),
    ensures
        seeded_from(frames, q) == seeded_from(frames, k),
        idx % size(k) == 0,
{
    lemma_aligned_down(idx, k, q);
    assert forall|j: int| k <= j < q implies seeded(frames)[j] == Seq::<int>::empty() by {
        lemma_size(j);
        lemma_size_mono(k, j);
        lemma_aligned_down(idx, j + 1, q);
        lemma_last_multiple(frames, idx, size(j + 1));
    }
    assert(seeded_from(frames, q) =~= seeded_from(frames, k));
}

/// Listing the next block adds the next order.
proof fn lemma_seeded_step(frames: int, idx: int, k: int)
    requires
        0 <= k < 10,
        idx % size(k + 1) == 0,
        size(k) <= frames - idx < size(k + 1),
    ensures
        seeded_from(frames, k) == seeded_from(frames, k + 1).update(
            k,
            seq![idx] + seeded_from(frames, k + 1)[k],
        ),
        (idx + size(k)) % size(k) == 0,
        frames - (idx + size(k)) < size(k),
{
    lemma_size(k);
    lemma_mod_double(idx, size(k));
    lemma_last_multiple(frames, idx, size(k + 1));
    assert(seq![idx] + seeded_from(frames, k + 1)[k] =~= seq![idx]);
    assert(seeded_from(frames, k) =~= seeded_from(frames, k + 1).update(k, seq![idx]));
}

/// Sizes grow with the order.
proof fn lemma_size_mono(j: int, k: int)
    requires
        0 <= j <= k <= 10,
    ensures
        size(j) <= size(k),
    decreases k - j,
{
    if j < k {
        lemma_size(k - 1);
        lemma_size_mono(j, k - 1);
    }
}

/// Listing a block whose buddy is not free leaves no two buddies free.
proof fn lemma_list_merged(s: Seq<Block>, t: Seq<Block>, idx: int, level: int)
    requires
        tags_ok(t),
        merged(s),
        0 <= level <= 10,
        level < 10 ==> !listed(t, buddy_of(idx, level), level),
        forall|i: int, l: int|
            #[trigger] listed(t, i, l) ==> listed(s, i, l) || (i == idx && l == level),
    ensures
        merged(t),
{
    assert forall|i: int, k: int| 0 <= k < 10 && #[trigger] listed(t, i, k) implies !listed(
        t,
        buddy_of(i, k),
        k,
    ) by {
        lemma_block(t, i);
        lemma_buddy(i, k);
        let b = buddy_of(i, k);
        if listed(t, b, k) {
            assert(buddy_of(b, k) == i);
            assert(listed(s, i, k) && listed(s, b, k));
        }
    }
}

/// Splitting a free block leaves no two buddies free.
proof fn lemma_split_merged(s: Seq<Block>, t: Seq<Block>, idx: int, d: int, order: int)
    requires
        tags_ok(s),
        tags_ok(t),
        merged(s),
        0 <= order <= d <= 10,
        listed(s, idx, d),
        held(t, idx, order),
        forall|i: int, l: int|
            #[trigger] listed(t, i, l) <==> {
                ||| listed(s, i, l) && !(i == idx && l == d)
                ||| order <= l < d && i == idx + size(l)
            },
    ensures
        merged(t),
{
    lemma_block(s, idx);
    assert forall|i: int, k: int| 0 <= k < 10 && #[trigger] listed(t, i, k) implies !listed(
        t,
        buddy_of(i, k),
        k,
    ) by {
        lemma_block(t, i);
        lemma_buddy(i, k);
        let b = buddy_of(i, k);
        if listed(t, b, k) {
            if order <= k < d {
                lemma_aligned_down(idx, k + 1, d);
                lemma_halves(idx, k);
                lemma_buddy(idx, k);
                assert(!listed(s, idx, k));
                assert(!listed(t, idx, k));
                if i == idx + size(k) {
                    assert(b == idx);
                } else if b == idx + size(k) {
                    assert(i == idx);
                } else {
                    assert(listed(s, i, k) && listed(s, b, k));
                }
            } else {
                assert(listed(s, i, k) && listed(s, b, k));
            }
        }
    }
}

/// Bit `b` of a bitmap that starts at frame `bitmap`.
pub open spec fn bitmap_bit(dram: Dram, bitmap: int, b: int) -> bool {
    bits::bit_of(dram.word(bitmap + b / 32768, (b / 64) % 512), (b % 64) as u64)
}

/// A binary buddy allocator over a contiguous range of physical frames.
pub struct BuddyAllocator {
    /// Frame number of relative index 0.
    base: PhysPageNum,
    /// Number of frames under management.
    frames: u64,
    /// Head of each order's free list, as a relative index.
    free_lists: [u64; 11],
    /// First frame of the bitmap. Bit *i* of order *k*'s region is set when the
    /// block at relative index `i * 2^k` is free and linked into
    /// `free_lists[k]`.
    bitmap: PhysPageNum,
    /// Bit offset at which each order's region starts within the bitmap.
    order_bit_base: [u64; 11],
    /// Frames currently handed out.
    allocated: u64,
    /// High-water mark of `allocated`.
    peak: u64,
    /// The free list of each order, first to last.
    lists: Ghost<Seq<Seq<int>>>,
    /// The block that each frame belongs to.
    state: Ghost<Seq<Block>>,
}

impl BuddyAllocator {
    /// Frame number of the first managed frame.
    pub closed spec fn spec_base(&self) -> int {
        self.base.0 as int
    }

    /// Number of managed frames.
    pub closed spec fn spec_frames(&self) -> int {
        self.frames as int
    }

    /// First frame of the bitmap.
    pub closed spec fn spec_bitmap(&self) -> int {
        self.bitmap.0 as int
    }

    /// Frames handed out, as counted.
    pub closed spec fn spec_used(&self) -> int {
        self.allocated as int
    }

    /// High-water mark.
    pub closed spec fn spec_peak(&self) -> int {
        self.peak as int
    }

    /// The free list of each order, first to last, as relative indices.
    pub closed spec fn lists(&self) -> Seq<Seq<int>> {
        self.lists@
    }

    /// The block that each managed frame belongs to.
    pub closed spec fn state(&self) -> Seq<Block> {
        self.state@
    }

    spec fn shape_ok(&self, dram: Dram) -> bool {
        &&& dram.wf()
        &&& self.state@.len() == self.frames
        &&& self.lists@.len() == 11
        &&& self.base.0 % MAX_BLOCK == 0
        &&& self.bitmap.0 <= self.base.0
        &&& self.base.0 + self.frames <= DIRECT_MAP_PAGES
        &&& self.frames > 0 ==> dram.first() <= self.bitmap.0 && self.base.0 + self.frames
            <= dram.first() + dram.len()
        &&& bit_base(self.frames as int, 11) <= (self.base.0 - self.bitmap.0) * 32768
        &&& forall|k: int|
            0 <= k < 11 ==> #[trigger] self.order_bit_base@[k] == bit_base(self.frames as int, k)
    }

    spec fn lists_ok(&self) -> bool {
        &&& forall|k: int, j: int|
            0 <= k < 11 && 0 <= j < self.lists@[k].len() ==> listed(
                self.state@,
                #[trigger] self.lists@[k][j],
                k,
            )
        &&& forall|k: int, i: int|
            0 <= k < 11 && #[trigger] listed(self.state@, i, k) ==> self.lists@[k].contains(i)
        &&& forall|k: int| 0 <= k < 11 ==> (#[trigger] self.lists@[k]).no_duplicates()
    }

    #[verifier::opaque]
    spec fn links_ok(&self, dram: Dram) -> bool {
        forall|k: int|
            0 <= k < 11 ==> linked(dram, self.base.0 as int, #[trigger] self.lists@[k], self.free_lists@[k])
    }

    #[verifier::opaque]
    spec fn bits_ok(&self, dram: Dram) -> bool {
        forall|k: int, i: int|
            0 <= k < 11 && 0 <= i < self.frames && i % size(k) == 0 ==> bitmap_bit(
                dram,
                self.bitmap.0 as int,
                #[trigger] bit_number(self.frames as int, k, i),
            ) == listed(self.state@, i, k)
    }

    /// The two allocators manage the same frames, with the bitmap in the same
    /// place.
    pub closed spec fn same_region(&self, other: BuddyAllocator) -> bool {
        &&& self.base == other.base
        &&& self.frames == other.frames
        &&& self.bitmap == other.bitmap
        &&& self.order_bit_base == other.order_bit_base
    }

    /// The lists, the links in the free frames, the bitmap and the blocks all
    /// tell the same story.
    spec fn inv(&self, dram: Dram) -> bool {
        &&& self.shape_ok(dram)
        &&& tags_ok(self.state@)
        &&& self.lists_ok()
        &&& self.links_ok(dram)
        &&& self.bits_ok(dram)
    }

    /// The allocator's bookkeeping, in its own fields and in `dram`, is
    /// consistent: the free lists, their links inside the free frames and the
    /// bitmap describe the same blocks, blocks partition the region, whatever
    /// can be merged is merged, and the counters count.
    pub closed spec fn wf(&self, dram: Dram) -> bool {
        &&& self.inv(dram)
        &&& merged(self.state@)
        &&& self.allocated == held_count(self.state@)
        &&& self.allocated <= self.peak <= self.frames
    }

    /// An allocator managing nothing.
    pub fn empty() -> (r: BuddyAllocator)
        ensures
            r.spec_frames() == 0,
            r.spec_used() == 0,
            r.spec_peak() == 0,
            forall|dram: Dram| dram.wf() ==> #[trigger] r.wf(dram),
    {
        let r = BuddyAllocator {
            base: PhysPageNum(0),
            frames: 0,
            free_lists: [NIL; 11],
            bitmap: PhysPageNum(0),
            order_bit_base: [0; 11],
            allocated: 0,
            peak: 0,
            lists: Ghost(Seq::new(11, |k: int| Seq::<int>::empty())),
            state: Ghost(Seq::<Block>::empty()),
        };
        proof {
            reveal(tags_ok);
            reveal(BuddyAllocator::links_ok);
            reveal(BuddyAllocator::bits_ok);
            lemma_bit_base_mono(0, 0, 11);
            assert forall|k: int| 0 <= k < 11 implies #[trigger] r.order_bit_base@[k] == bit_base(0, k) by {
                lemma_bit_base_mono(0, k, 11);
            }
        }
        r
    }

    /// Bit of the bitmap that stands for the block at `idx`.
    fn bit_index(&self, order: usize, idx: u64) -> (r: u64)
        requires
            order <= MAX_ORDER,
            idx < self.frames,
            self.frames <= DIRECT_MAP_PAGES,
            forall|k: int|
                0 <= k < 11 ==> #[trigger] self.order_bit_base@[k] == bit_base(self.frames as int, k),
        ensures
            r == bit_number(self.frames as int, order as int, idx as int),
            r < bit_base(self.frames as int, 11),
    {
        proof {
            lemma_bit_number(self.frames as int, order as int, idx as int);
            lemma_bit_base_mono(self.frames as int, order as int, 11);
            lemma_bit_base_mono(self.frames as int, 11, 11);
        }
        let n: u64 = block_frames(order);
        let q: u64 = idx / n;
        self.order_bit_base[order] + q
    }

    /// Is the block of the given order at `idx` on its free list?
    fn is_free(&self, dram: &Dram, order: usize, idx: u64) -> (r: bool)
        requires
            self.inv(*dram),
            order <= MAX_ORDER,
            idx < self.frames,
            idx as int % size(order as int) == 0,
        ensures
            r == listed(self.state@, idx as int, order as int),
    {
        proof {
            reveal(BuddyAllocator::bits_ok);
        }
        let bit: u64 = self.bit_index(order, idx);
        let w: u64 = dram.read(PhysPageNum(self.bitmap.0 + bit / 32768), (bit / 64) % FRAME_WORDS);
        (w >> (bit % 64)) & 1 != 0
    }

    /// Record in the bitmap whether the block of the given order at `idx` is
    /// free.
    fn set_free(&self, dram: &mut Dram, order: usize, idx: u64, free: bool)
        requires
            self.shape_ok(*old(dram)),
            order <= MAX_ORDER,
            idx < self.frames,
            idx as int % size(order as int) == 0,
        ensures
            final(dram).wf(),
            final(dram).same_shape(*old(dram)),
            forall|k: int, i: int|
                0 <= k < 11 && 0 <= i < self.frames && i % size(k) == 0 ==> bitmap_bit(
                    *final(dram),
                    self.bitmap.0 as int,
                    #[trigger] bit_number(self.frames as int, k, i),
                ) == (if k == order && i == idx {
                    free
                } else {
                    bitmap_bit(*old(dram), self.bitmap.0 as int, bit_number(self.frames as int, k, i))
                }),
            forall|p: int, i: int|
                old(dram).has(p) && !(self.bitmap.0 <= p < self.base.0) && 0 <= i < 512
                    ==> #[trigger] final(dram).word(p, i) == old(dram).word(p, i),
    {
        let ghost before = *dram;
        let bit: u64 = self.bit_index(order, idx);
        let p: PhysPageNum = PhysPageNum(self.bitmap.0 + bit / 32768);
        let at: u64 = (bit / 64) % FRAME_WORDS;
        let w: u64 = dram.read(p, at);
        let v: u64 = if free {
            w | (1u64 << (bit % 64))
        } else {
            w & !(1u64 << (bit % 64))
        };
        dram.write(p, at, v);
        proof {
            let fr = self.frames as int;
            assert forall|k: int, i: int|
                0 <= k < 11 && 0 <= i < self.frames && i % size(k) == 0 implies bitmap_bit(
                *dram,
                self.bitmap.0 as int,
                #[trigger] bit_number(fr, k, i),
            ) == (if k == order && i == idx {
                free
            } else {
                bitmap_bit(before, self.bitmap.0 as int, bit_number(fr, k, i))
            }) by {
                let b = bit_number(fr, k, i);
                lemma_bit_number(fr, k, i);
                bits::lemma_bit_update(w, bit % 64, (b % 64) as u64);
                if b == bit {
                    lemma_bit_number_injective(fr, k, i, order as int, idx as int);
                }
                assert(before.has(self.bitmap.0 as int + b / 32768));
            }
        }
    }

    /// Linking a block at the head of its list keeps the books consistent.
    proof fn lemma_pushed(
        self,
        a0: BuddyAllocator,
        d0: Dram,
        d1: Dram,
        d2: Dram,
        order: usize,
        idx: u64,
        head: u64,
    )
        requires
            a0.inv(d0),
            order <= MAX_ORDER,
            held(a0.state@, idx as int, order as int),
            head == a0.free_lists@[order as int],
            self.same_region(a0),
            self.state@ == retag(
                a0.state@,
                idx as int,
                size(order as int),
                Block { start: idx as int, order: order as int, free: true },
            ),
            tags_ok(self.state@),
            self.lists@ == a0.lists@.update(
                order as int,
                seq![idx as int] + a0.lists@[order as int],
            ),
            self.free_lists@ == a0.free_lists@.update(order as int, idx),
            d1.same_shape(d0),
            d2.same_shape(d0),
            d2.wf(),
            forall|p: int, i: int|
                d0.has(p) && 0 <= i < 512 ==> #[trigger] d1.word(p, i) == (if p == a0.base.0 + idx && i == 0 {
                    head
                } else if p == a0.base.0 + idx && i == 1 {
                    NIL
                } else if head != NIL && p == a0.base.0 + head && i == 1 {
                    idx
                } else {
                    d0.word(p, i)
                }),
            forall|k: int, i: int|
                0 <= k < 11 && 0 <= i < a0.frames && i % size(k) == 0 ==> bitmap_bit(
                    d2,
                    a0.bitmap.0 as int,
                    #[trigger] bit_number(a0.frames as int, k, i),
                ) == (if k == order && i == idx {
                    true
                } else {
                    bitmap_bit(d1, a0.bitmap.0 as int, bit_number(a0.frames as int, k, i))
                }),
            forall|p: int, i: int|
                d1.has(p) && !(a0.bitmap.0 <= p < a0.base.0) && 0 <= i < 512 ==> #[trigger] d2.word(p, i)
                    == d1.word(p, i),
        ensures
            self.inv(d2),
            forall|p: int|
                d0.has(p) && self.foreign(p) ==> #[trigger] d2.same_frame(d0, p),
    {
        let k = order as int;
        let s = a0.state@;
        let t = self.state@;
        let l0 = a0.lists@[k];
        let base = a0.base.0 as int;
        lemma_size(k);
        lemma_mark(s, idx as int, k, true);
        reveal(BuddyAllocator::links_ok);
        reveal(BuddyAllocator::bits_ok);
        assert(linked(d0, base, l0, head));
        if l0.len() > 0 {
            assert(listed(s, l0[0], k));
        }
        assert forall|l: int, j: int| 0 <= l < 11 && 0 <= j < self.lists@[l].len() implies listed(
            t,
            #[trigger] self.lists@[l][j],
            l,
        ) by {
            if l == k {
                if j > 0 {
                    assert(self.lists@[l][j] == l0[j - 1]);
                }
            } else {
                assert(self.lists@[l][j] == a0.lists@[l][j]);
            }
        }
        assert forall|l: int, i: int| 0 <= l < 11 && #[trigger] listed(t, i, l) implies self.lists@[l].contains(i) by {
            if l == k && i == idx {
                assert(self.lists@[l][0] == i);
            } else {
                assert(a0.lists@[l].contains(i));
                if l == k {
                    let j = choose|j: int| 0 <= j < l0.len() && l0[j] == i;
                    assert(self.lists@[l][j + 1] == i);
                }
            }
        }
        assert forall|l: int| 0 <= l < 11 implies (#[trigger] self.lists@[l]).no_duplicates() by {
            assert(a0.lists@[l].no_duplicates());
            if l == k {
                let n = self.lists@[l];
                assert forall|x: int, y: int| 0 <= x < n.len() && 0 <= y < n.len() && x != y implies n[x] != n[y] by {
                    if x > 0 {
                        assert(n[x] == l0[x - 1]);
                        assert(listed(s, l0[x - 1], k));
                    }
                    if y > 0 {
                        assert(n[y] == l0[y - 1]);
                        assert(listed(s, l0[y - 1], k));
                    }
                }
            }
        }
        assert forall|l: int| 0 <= l < 11 implies linked(
            d2,
            base,
            #[trigger] self.lists@[l],
            self.free_lists@[l],
        ) by {
            let n = self.lists@[l];
            let m = a0.lists@[l];
            assert(linked(d0, base, m, a0.free_lists@[l]));
            assert(m.no_duplicates());
            assert forall|j: int| 0 <= j < n.len() implies {
                &&& d2.word(base + #[trigger] n[j], 0) == next_of(n, j)
                &&& d2.word(base + n[j], 1) == prev_of(n, j)
            } by {
                assert(listed(t, n[j], l));
                assert(d0.has(base + n[j]));
                if l == k {
                    if j > 0 {
                        assert(n[j] == m[j - 1]);
                        assert(listed(s, m[j - 1], k));
                        assert(d0.word(base + m[j - 1], 0) == next_of(m, j - 1));
                        if j + 1 < n.len() {
                            assert(n[j + 1] == m[j]);
                        }
                        if j > 1 {
                            assert(n[j - 1] == m[j - 2]);
                        }
                    }
                } else {
                    assert(n[j] == m[j]);
                    assert(listed(s, m[j], l));
                    assert(d0.word(base + m[j], 0) == next_of(m, j));
                }
            }
        }
        assert forall|l: int, i: int| 0 <= l < 11 && 0 <= i < a0.frames && i % size(l) == 0 implies bitmap_bit(
            d2,
            a0.bitmap.0 as int,
            #[trigger] bit_number(a0.frames as int, l, i),
        ) == listed(t, i, l) by {
            lemma_bit_number(a0.frames as int, l, i);
            let bn = bit_number(a0.frames as int, l, i);
            assert(d0.has(a0.bitmap.0 + bn / 32768));
            assert(bitmap_bit(d0, a0.bitmap.0 as int, bn) == listed(s, i, l));
        }
        assert forall|p: int| d0.has(p) && self.foreign(p) implies #[trigger] d2.same_frame(d0, p) by {
            assert forall|i: int| 0 <= i < 512 implies #[trigger] d2.word(p, i) == d0.word(p, i) by {
                assert(d1.has(p));
                if head != NIL {
                    assert(listed(t, head as int, k));
                    assert(t[head as int].free);
                }
                assert(t[idx as int].free);
            }
        }
    }

    /// Does frame `p` belong to someone other than the allocator? Everything
    /// but the bitmap and the free frames does.
    pub closed spec fn foreign(&self, p: int) -> bool {
        &&& !(self.bitmap.0 <= p < self.base.0)
        &&& !(self.base.0 <= p < self.base.0 + self.frames && self.state@[p - self.base.0].free)
    }

    /// Link a block into its order's free list and mark it free.
    fn push(&mut self, dram: &mut Dram, order: usize, idx: u64)
        requires
            old(self).inv(*old(dram)),
            order <= MAX_ORDER,
            held(old(self).state@, idx as int, order as int),
        ensures
            final(self).inv(*final(dram)),
            final(self).state@ == retag(
                old(self).state@,
                idx as int,
                size(order as int),
                Block { start: idx as int, order: order as int, free: true },
            ),
            final(self).lists@ == old(self).lists@.update(
                order as int,
                seq![idx as int] + old(self).lists@[order as int],
            ),
            final(self).same_region(*old(self)),
            final(self).allocated == old(self).allocated,
            final(self).peak == old(self).peak,
            final(dram).same_shape(*old(dram)),
            forall|p: int|
                old(dram).has(p) && final(self).foreign(p) ==> #[trigger] final(dram).same_frame(
                    *old(dram),
                    p,
                ),
    {
        let ghost d0 = *dram;
        let ghost a0 = *self;
        let ghost k = order as int;
        let ghost b = Block { start: idx as int, order: k, free: true };
        let ghost t = retag(self.state@, idx as int, size(k), b);
        let ghost l0 = self.lists@[k];
        proof {
            lemma_size(k);
            lemma_mark(a0.state@, idx as int, k, true);
            reveal(BuddyAllocator::links_ok);
            if l0.len() > 0 {
                assert(listed(a0.state@, l0[0], k));
            }
        }
        let head: u64 = self.free_lists[order];
        dram.write(PhysPageNum(self.base.0 + idx), 0, head);
        dram.write(PhysPageNum(self.base.0 + idx), 1, NIL);
        if head != NIL {
            assert(linked(d0, self.base.0 as int, l0, head));
            dram.write(PhysPageNum(self.base.0 + head), 1, idx);
        }
        let ghost d1 = *dram;
        self.set_free(dram, order, idx, true);
        self.free_lists[order] = idx;
        self.lists = Ghost(a0.lists@.update(k, seq![idx as int] + l0));
        self.state = Ghost(t);
        proof {
            self.lemma_pushed(a0, d0, d1, *dram, order, idx, head);
        }
    }

    /// Taking a block out of its list keeps lists and blocks in step.
    proof fn lemma_removed_lists(self, a0: BuddyAllocator, order: usize, idx: u64)
        requires
            a0.lists_ok(),
            a0.lists@.len() == 11,
            tags_ok(a0.state@),
            order <= MAX_ORDER,
            listed(a0.state@, idx as int, order as int),
            self.state@ == retag(
                a0.state@,
                idx as int,
                size(order as int),
                Block { start: idx as int, order: order as int, free: false },
            ),
            self.lists@ == a0.lists@.update(
                order as int,
                without(a0.lists@[order as int], idx as int),
            ),
        ensures
            self.lists_ok(),
            forall|i: int, l: int|
                #[trigger] listed(self.state@, i, l) <==> (listed(a0.state@, i, l) && !(i == idx && l == order)),
    {
        let k = order as int;
        let s = a0.state@;
        let t = self.state@;
        let l0 = a0.lists@[k];
        lemma_size(k);
        assert(l0.no_duplicates() && l0.contains(idx as int));
        lemma_without(l0, idx as int);
        lemma_mark(s, idx as int, k, false);
        assert forall|l: int, j: int| 0 <= l < 11 && 0 <= j < self.lists@[l].len() implies listed(
            t,
            #[trigger] self.lists@[l][j],
            l,
        ) by {
            let y = self.lists@[l][j];
            if l == k {
                assert(without(l0, idx as int).contains(y));
                let o = choose|o: int| 0 <= o < l0.len() && l0[o] == y;
                assert(listed(s, l0[o], k));
            } else {
                assert(a0.lists@[l][j] == y);
            }
        }
        assert forall|l: int, i: int| 0 <= l < 11 && #[trigger] listed(t, i, l) implies self.lists@[l].contains(i) by {
            assert(listed(s, i, l));
            assert(a0.lists@[l].contains(i));
        }
    }

    /// Unlinking a block from its list keeps the books consistent.
    proof fn lemma_removed(
        self,
        a0: BuddyAllocator,
        d0: Dram,
        d1: Dram,
        d2: Dram,
        order: usize,
        idx: u64,
        next: u64,
        prev: u64,
    )
        requires
            a0.inv(d0),
            order <= MAX_ORDER,
            listed(a0.state@, idx as int, order as int),
            next == d0.word(a0.base.0 + idx, 0),
            prev == d0.word(a0.base.0 + idx, 1),
            self.same_region(a0),
            self.state@ == retag(
                a0.state@,
                idx as int,
                size(order as int),
                Block { start: idx as int, order: order as int, free: false },
            ),
            tags_ok(self.state@),
            self.lists@ == a0.lists@.update(
                order as int,
                without(a0.lists@[order as int], idx as int),
            ),
            self.free_lists@ == (if prev == NIL {
                a0.free_lists@.update(order as int, next)
            } else {
                a0.free_lists@
            }),
            d1.same_shape(d0),
            d2.same_shape(d0),
            d2.wf(),
            forall|p: int, i: int|
                d0.has(p) && 0 <= i < 512 ==> #[trigger] d1.word(p, i) == (if prev != NIL && p == a0.base.0
                    + prev && i == 0 {
                    next
                } else if next != NIL && p == a0.base.0 + next && i == 1 {
                    prev
                } else {
                    d0.word(p, i)
                }),
            forall|k: int, i: int|
                0 <= k < 11 && 0 <= i < a0.frames && i % size(k) == 0 ==> bitmap_bit(
                    d2,
                    a0.bitmap.0 as int,
                    #[trigger] bit_number(a0.frames as int, k, i),
                ) == (if k == order && i == idx {
                    false
                } else {
                    bitmap_bit(d1, a0.bitmap.0 as int, bit_number(a0.frames as int, k, i))
                }),
            forall|p: int, i: int|
                d1.has(p) && !(a0.bitmap.0 <= p < a0.base.0) && 0 <= i < 512 ==> #[trigger] d2.word(p, i)
                    == d1.word(p, i),
        ensures
            self.inv(d2),
            forall|p: int| d0.has(p) && a0.foreign(p) ==> #[trigger] d2.same_frame(d0, p),
    {
        let k = order as int;
        let s = a0.state@;
        let t = self.state@;
        let l0 = a0.lists@[k];
        let base = a0.base.0 as int;
        let pos = l0.index_of(idx as int);
        lemma_size(k);
        assert(l0.no_duplicates() && l0.contains(idx as int));
        lemma_without(l0, idx as int);
        self.lemma_removed_lists(a0, order, idx);
        lemma_mark(s, idx as int, k, false);
        assert(self.links_ok(d2)) by {
            reveal(BuddyAllocator::links_ok);
            assert(linked(d0, base, l0, a0.free_lists@[k]));
            assert(next == next_of(l0, pos) && prev == prev_of(l0, pos)) by {
                assert(d0.word(base + l0[pos], 0) == next_of(l0, pos));
            }
            if pos > 0 {
                assert(listed(s, l0[pos - 1], k));
            }
            if pos + 1 < l0.len() {
                assert(listed(s, l0[pos + 1], k));
            }
            assert forall|l: int| 0 <= l < 11 implies linked(
                d2,
                base,
                #[trigger] self.lists@[l],
                self.free_lists@[l],
            ) by {
                let m = a0.lists@[l];
                assert(linked(d0, base, m, a0.free_lists@[l]));
                assert(m.no_duplicates());
                assert forall|j: int| 0 <= j < m.len() implies 0 <= #[trigger] m[j] < a0.frames && (l != k ==> m[j]
                    != next && m[j] != prev) by {
                    assert(listed(s, m[j], l));
                }
                assert forall|j: int, i: int| 0 <= j < m.len() && 0 <= i < 2 implies d2.word(
                    base + #[trigger] m[j],
                    i,
                ) == #[trigger] d1.word(base + m[j], i) by {
                    assert(d1.has(base + m[j]));
                }
                if l == k {
                    lemma_unlinked(d0, d2, base, m, pos, a0.free_lists@[k]);
                } else {
                    assert forall|j: int| 0 <= j < m.len() implies {
                        &&& d2.word(base + #[trigger] m[j], 0) == next_of(m, j)
                        &&& d2.word(base + m[j], 1) == prev_of(m, j)
                    } by {
                        assert(d2.word(base + m[j], 0) == d1.word(base + m[j], 0));
                        assert(d2.word(base + m[j], 1) == d1.word(base + m[j], 1));
                    }
                }
            }
        }
        assert(self.bits_ok(d2)) by {
            reveal(BuddyAllocator::bits_ok);
            assert forall|l: int, i: int| 0 <= l < 11 && 0 <= i < a0.frames && i % size(l) == 0 implies bitmap_bit(
                d2,
                a0.bitmap.0 as int,
                #[trigger] bit_number(a0.frames as int, l, i),
            ) == listed(t, i, l) by {
                lemma_bit_number(a0.frames as int, l, i);
                let bn = bit_number(a0.frames as int, l, i);
                assert(d0.has(a0.bitmap.0 + bn / 32768));
                assert(d1.word(a0.bitmap.0 + bn / 32768, (bn / 64) % 512) == d0.word(
                    a0.bitmap.0 + bn / 32768,
                    (bn / 64) % 512,
                ));
                assert(bitmap_bit(d0, a0.bitmap.0 as int, bn) == listed(s, i, l));
            }
        }
        assert forall|p: int| d0.has(p) && a0.foreign(p) implies #[trigger] d2.same_frame(d0, p) by {
            reveal(BuddyAllocator::links_ok);
            assert(linked(d0, base, l0, a0.free_lists@[k]));
            assert(d0.word(base + l0[pos], 0) == next_of(l0, pos));
            if pos > 0 {
                assert(listed(s, l0[pos - 1], k));
            }
            if pos + 1 < l0.len() {
                assert(listed(s, l0[pos + 1], k));
            }
            assert forall|i: int| 0 <= i < 512 implies #[trigger] d2.word(p, i) == d0.word(p, i) by {
                assert(d1.has(p));
            }
        }
    }

    /// Unlink a block from its order's free list and mark it used.
    fn remove(&mut self, dram: &mut Dram, order: usize, idx: u64)
        requires
            old(self).inv(*old(dram)),
            order <= MAX_ORDER,
            listed(old(self).state@, idx as int, order as int),
        ensures
            final(self).inv(*final(dram)),
            final(self).state@ == retag(
                old(self).state@,
                idx as int,
                size(order as int),
                Block { start: idx as int, order: order as int, free: false },
            ),
            final(self).lists@ == old(self).lists@.update(
                order as int,
                without(old(self).lists@[order as int], idx as int),
            ),
            final(self).same_region(*old(self)),
            final(self).allocated == old(self).allocated,
            final(self).peak == old(self).peak,
            final(dram).same_shape(*old(dram)),
            forall|p: int|
                old(dram).has(p) && old(self).foreign(p) ==> #[trigger] final(dram).same_frame(
                    *old(dram),
                    p,
                ),
    {
        let ghost d0 = *dram;
        let ghost a0 = *self;
        let ghost k = order as int;
        let ghost b = Block { start: idx as int, order: k, free: false };
        let ghost t = retag(self.state@, idx as int, size(k), b);
        let ghost l0 = self.lists@[k];
        proof {
            lemma_size(k);
            lemma_mark(a0.state@, idx as int, k, false);
            reveal(BuddyAllocator::links_ok);
            let pos = l0.index_of(idx as int);
            assert(l0.contains(idx as int));
            assert(linked(d0, self.base.0 as int, l0, self.free_lists@[k]));
            assert(d0.word(self.base.0 + l0[pos], 0) == next_of(l0, pos));
            if pos > 0 {
                assert(listed(a0.state@, l0[pos - 1], k));
            }
            if pos + 1 < l0.len() {
                assert(listed(a0.state@, l0[pos + 1], k));
            }
        }
        let at: PhysPageNum = PhysPageNum(self.base.0 + idx);
        let next: u64 = dram.read(at, 0);
        let prev: u64 = dram.read(at, 1);
        if prev != NIL {
            dram.write(PhysPageNum(self.base.0 + prev), 0, next);
        } else {
            self.free_lists[order] = next;
        }
        if next != NIL {
            dram.write(PhysPageNum(self.base.0 + next), 1, prev);
        }
        let ghost d1 = *dram;
        self.set_free(dram, order, idx, false);
        self.lists = Ghost(a0.lists@.update(k, without(l0, idx as int)));
        self.state = Ghost(t);
        proof {
            self.lemma_removed(a0, d0, d1, *dram, order, idx, next, prev);
        }
    }

    /// Cutting a block in hand changes nothing the books say of free blocks.
    proof fn lemma_recut(self, a0: BuddyAllocator, dram: Dram)
        requires
            a0.inv(dram),
            tags_ok(self.state@),
            self.state@.len() == a0.state@.len(),
            self.same_region(a0),
            self.lists@ == a0.lists@,
            self.free_lists == a0.free_lists,
            forall|i: int, l: int| #[trigger] listed(self.state@, i, l) <==> listed(a0.state@, i, l),
        ensures
            self.inv(dram),
    {
        reveal(BuddyAllocator::links_ok);
        reveal(BuddyAllocator::bits_ok);
    }

    /// Allocate `2^order` contiguous frames.
    ///
    /// The first block of the smallest order that has one is taken and split
    /// down, its lower half at each step, until it has the size asked for.
    /// `None` if no order from `order` up has a free block.
    #[verifier::rlimit(60)]
    pub fn allocate(&mut self, dram: &mut Dram, order: usize) -> (r: Option<PhysPageNum>)
        requires
            old(self).wf(*old(dram)),
        ensures
            final(self).wf(*final(dram)),
            final(self).same_region(*old(self)),
            final(dram).same_shape(*old(dram)),
            r is None <==> order > MAX_ORDER || donor(old(self).lists(), order as int) > MAX_ORDER,
            r is None ==> *final(self) == *old(self) && *final(dram) == *old(dram),
            r matches Some(p) ==> {
                let idx = p.0 - old(self).spec_base();
                &&& p.0 == old(self).spec_base() + old(self).lists()[donor(
                    old(self).lists(),
                    order as int,
                )][0]
                &&& 0 <= idx
                &&& idx + size(order as int) <= old(self).spec_frames()
                &&& p.0 as int % size(order as int) == 0
                &&& final(self).lists() == served(old(self).lists(), order as int)
                &&& final(self).spec_used() == old(self).spec_used() + size(order as int)
                &&& final(self).spec_peak() == (if final(self).spec_used() > old(self).spec_peak() {
                    final(self).spec_used()
                } else {
                    old(self).spec_peak()
                })
                &&& final(self).state().len() == old(self).state().len()
                &&& forall|f: int|
                    idx <= f < idx + size(order as int) ==> (#[trigger] old(self).state()[f]).free
                &&& forall|f: int|
                    0 <= f < old(self).spec_frames() ==> (#[trigger] final(self).state()[f]).free == (
                    old(self).state()[f].free && !(idx <= f < idx + size(order as int)))
                &&& forall|i: int, l: int|
                    #[trigger] held(final(self).state(), i, l) <==> held(old(self).state(), i, l) || (i == idx
                        && l == order)
                &&& forall|q: int|
                    old(dram).has(q) && old(self).foreign(q) ==> #[trigger] final(dram).same_frame(
                        *old(dram),
                        q,
                    )
            },
    {
        if order > MAX_ORDER {
            return None;
        }
        let ghost a0 = *self;
        let ghost d0 = *dram;
        let ghost s0 = self.state@;
        let ghost w = order as int;
        let mut donor: usize = order;
        while donor <= MAX_ORDER && self.free_lists[donor] == NIL
            invariant
                *self == a0,
                a0.inv(d0),
                order <= donor <= 11,
                self::donor(a0.lists@, order as int) == self::donor(a0.lists@, donor as int),
                forall|l: int| order <= l < donor ==> (#[trigger] a0.lists@[l]).len() == 0,
            decreases 11 - donor,
        {
            proof {
                reveal(BuddyAllocator::links_ok);
                assert(linked(d0, a0.base.0 as int, a0.lists@[donor as int], a0.free_lists@[donor as int]));
                if a0.lists@[donor as int].len() > 0 {
                    assert(listed(s0, a0.lists@[donor as int][0], donor as int));
                }
            }
            donor = donor + 1;
        }
        if donor > MAX_ORDER {
            return None;
        }
        let idx: u64 = self.free_lists[donor];
        let ghost dn = donor as int;
        proof {
            assert(a0.lists@[dn].len() > 0 && a0.lists@[dn][0] == idx) by {
                reveal(BuddyAllocator::links_ok);
                assert(linked(d0, a0.base.0 as int, a0.lists@[dn], a0.free_lists@[dn]));
                if a0.lists@[dn].len() > 0 {
                    assert(listed(s0, a0.lists@[dn][0], dn));
                }
            }
            assert(listed(s0, a0.lists@[dn][0], dn));
            lemma_mark(s0, idx as int, dn, false);
            lemma_size(dn);
            lemma_size(w);
            assert(a0.lists@[dn].no_duplicates());
            lemma_without(a0.lists@[dn], idx as int);
            assert(without(a0.lists@[dn], idx as int) =~= a0.lists@[dn].drop_first());
        }
        self.remove(dram, donor, idx);
        assert(self.lists@ =~= split_lists(a0.lists@, idx as int, dn, dn));
        let mut level: usize = donor;
        while level > order
            invariant
                order <= level <= donor <= MAX_ORDER,
                dn == donor,
                a0.inv(d0),
                s0 == a0.state@,
                listed(s0, idx as int, dn),
                forall|f: int| idx <= f < idx + size(dn) ==> (#[trigger] s0[f]).free,
                size(level as int) <= size(dn),
                forall|l: int| order <= l < donor ==> (#[trigger] a0.lists@[l]).len() == 0,
                self.inv(*dram),
                self.same_region(a0),
                self.allocated == a0.allocated,
                self.peak == a0.peak,
                dram.same_shape(d0),
                held(self.state@, idx as int, level as int),
                held_count(self.state@) == held_count(s0) + size(level as int),
                self.lists@ == split_lists(a0.lists@, idx as int, dn, level as int),
                forall|f: int|
                    0 <= f < a0.frames ==> (#[trigger] self.state@[f]).free == (s0[f].free && !(idx <= f < idx
                        + size(level as int))),
                forall|i: int, l: int|
                    #[trigger] listed(self.state@, i, l) <==> {
                        ||| listed(s0, i, l) && !(i == idx && l == dn)
                        ||| level <= l < donor && i == idx + size(l)
                    },
                forall|i: int, l: int|
                    #[trigger] held(self.state@, i, l) <==> held(s0, i, l) || (i == idx && l == level),
                forall|q: int| d0.has(q) && a0.foreign(q) ==> #[trigger] dram.same_frame(d0, q),
            decreases level,
        {
            let ghost a1 = *self;
            let ghost d1 = *dram;
            level = level - 1;
            let ghost k = level as int;
            let half: u64 = block_frames(level);
            proof {
                lemma_size(k);
                lemma_cut(a1.state@, idx as int, k);
                assert(!listed(s0, idx as int, k));
            }
            let buddy: u64 = idx + half;
            self.state = Ghost(cut(a1.state@, idx as int, k));
            proof {
                self.lemma_recut(a1, *dram);
                lemma_mark(self.state@, buddy as int, k, true);
            }
            let ghost a2 = *self;
            self.push(dram, level, buddy);
            proof {
                assert(a2.lists@[k].len() == 0);
                assert(seq![buddy as int] + a2.lists@[k] =~= seq![idx + size(k)]);
                assert(self.lists@ =~= split_lists(a0.lists@, idx as int, dn, k));
                assert forall|f: int| 0 <= f < a0.frames implies (#[trigger] self.state@[f]).free == (s0[f].free
                    && !(idx <= f < idx + size(k))) by {
                    assert(a1.state@[f].free == a2.state@[f].free);
                }
                assert forall|q: int| d0.has(q) && a0.foreign(q) implies #[trigger] dram.same_frame(d0, q) by {
                    assert(d1.has(q));
                    assert(self.foreign(q));
                    assert(dram.same_frame(d1, q));
                    assert(d1.same_frame(d0, q));
                }
            }
        }
        proof {
            lemma_held_count_bounds(self.state@);
            lemma_split_merged(s0, self.state@, idx as int, dn, w);
            lemma_block(s0, idx as int);
            lemma_block(self.state@, idx as int);
            lemma_aligned_down(idx as int, w, dn);
            lemma_base_aligned(self.base.0 as int, idx as int, w);
        }
        let n: u64 = block_frames(order);
        let ghost a3 = *self;
        self.allocated = self.allocated + n;
        if self.allocated > self.peak {
            self.peak = self.allocated;
        }
        proof {
            self.lemma_recut(a3, *dram);
        }
        Some(PhysPageNum(self.base.0 + idx))
    }

    /// Return `2^order` frames starting at `ppn`, merging with free buddies.
    ///
    /// The block must be one that is handed out.
    #[verifier::rlimit(60)]
    pub fn free(&mut self, dram: &mut Dram, ppn: PhysPageNum, order: usize)
        requires
            old(self).wf(*old(dram)),
            order <= MAX_ORDER,
            held(old(self).state(), ppn.0 - old(self).spec_base(), order as int),
        ensures
            final(self).wf(*final(dram)),
            final(self).same_region(*old(self)),
            final(dram).same_shape(*old(dram)),
            final(self).lists() == returned(
                old(self).lists(),
                ppn.0 - old(self).spec_base(),
                order as int,
            ),
            final(self).spec_used() == old(self).spec_used() - size(order as int),
            final(self).spec_peak() == old(self).spec_peak(),
            final(self).state().len() == old(self).state().len(),
            forall|f: int|
                0 <= f < old(self).spec_frames() ==> (#[trigger] final(self).state()[f]).free == (old(
                    self,
                ).state()[f].free || 0 <= f - (ppn.0 - old(self).spec_base()) < size(order as int)),
            forall|i: int, l: int|
                #[trigger] held(final(self).state(), i, l) <==> held(old(self).state(), i, l) && !(i == ppn.0
                    - old(self).spec_base() && l == order),
            forall|q: int|
                old(dram).has(q) && final(self).foreign(q) ==> #[trigger] final(dram).same_frame(
                    *old(dram),
                    q,
                ),
    {
        let ghost a0 = *self;
        let ghost d0 = *dram;
        let ghost s0 = self.state@;
        let ghost w = order as int;
        let n: u64 = block_frames(order);
        let mut idx: u64 = ppn.0 - self.base.0;
        let ghost i0 = idx as int;
        proof {
            lemma_mark(s0, i0, w, true);
            lemma_held_count_bounds(
                retag(s0, i0, size(w), Block { start: i0, order: w, free: true }),
            );
        }
        self.allocated = self.allocated - n;
        proof {
            self.lemma_recut(a0, *dram);
        }
        let mut level: usize = order;
        while level < MAX_ORDER
            invariant_except_break
                held(self.state@, idx as int, level as int),
            invariant
                order <= level <= MAX_ORDER,
                w == order,
                s0 == a0.state@,
                a0.inv(d0),
                held(s0, i0, w),
                self.inv(*dram),
                self.same_region(a0),
                self.allocated == a0.allocated - size(w),
                self.peak == a0.peak,
                dram.same_shape(d0),
                returned(a0.lists@, i0, w) == returned(self.lists@, idx as int, level as int),
                held_count(self.state@) == held_count(s0) - size(w) + size(level as int),
                idx <= i0,
                i0 + size(w) <= idx + size(level as int),
                forall|f: int|
                    idx <= f < idx + size(level as int) && !(i0 <= f < i0 + size(w)) ==> (
                    #[trigger] s0[f]).free,
                forall|f: int|
                    0 <= f < a0.frames ==> (#[trigger] self.state@[f]).free == (s0[f].free && !(idx <= f < idx
                        + size(level as int))),
                forall|i: int, l: int| #[trigger] listed(self.state@, i, l) ==> listed(s0, i, l),
                forall|i: int, l: int|
                    #[trigger] held(self.state@, i, l) <==> {
                        ||| held(s0, i, l) && !(i == i0 && l == w)
                        ||| i == idx && l == level
                    },
                forall|q: int| d0.has(q) && a0.foreign(q) ==> #[trigger] dram.same_frame(d0, q),
            ensures
                held(self.state@, idx as int, level as int),
                level < MAX_ORDER ==> !listed(
                    self.state@,
                    buddy_of(idx as int, level as int),
                    level as int,
                ),
            decreases MAX_ORDER - level,
        {
            let ghost k = level as int;
            let ghost a1 = *self;
            let ghost d1 = *dram;
            let half: u64 = block_frames(level);
            proof {
                lemma_size(k);
                lemma_block(self.state@, idx as int);
                lemma_buddy(idx as int, k);
            }
            let buddy: u64 = if idx % (2 * half) == 0 {
                idx + half
            } else {
                idx - half
            };
            assert(buddy == buddy_of(idx as int, k));
            if buddy + half > self.frames {
                proof {
                    if listed(self.state@, buddy as int, k) {
                        lemma_block(self.state@, buddy as int);
                    }
                }
                break;
            }
            if !self.is_free(dram, level, buddy) {
                break;
            }
            proof {
                assert(self.lists@[k].contains(buddy as int));
                lemma_mark(self.state@, buddy as int, k, false);
                lemma_block(s0, buddy as int);
                if idx < i0 {
                    assert(s0[idx as int].free);
                }
                assert(!held(s0, idx as int, k) || (idx == i0 && k == w));
                assert(!held(s0, buddy as int, k));
            }
            self.remove(dram, level, buddy);
            let ghost a2 = *self;
            let ghost low = if buddy < idx {
                buddy as int
            } else {
                idx as int
            };
            proof {
                lemma_buddy(buddy as int, k);
                lemma_join(a2.state@, low, k);
            }
            self.state = Ghost(join(a2.state@, low, k));
            proof {
                self.lemma_recut(a2, *dram);
                assert forall|f: int| 0 <= f < a0.frames implies (#[trigger] self.state@[f]).free == (s0[f].free
                    && !(low <= f < low + size(k + 1))) by {
                    assert(a2.state@[f].free == self.state@[f].free);
                    assert(a1.state@[f].free == (s0[f].free && !(idx <= f < idx + size(k))));
                }
                assert forall|f: int| low <= f < low + size(k + 1) && !(i0 <= f < i0 + size(w)) implies (
                #[trigger] s0[f]).free by {
                    if buddy <= f < buddy + half {
                        assert(s0[f] == s0[buddy as int]);
                    }
                }
                assert forall|q: int| d0.has(q) && a0.foreign(q) implies #[trigger] dram.same_frame(d0, q) by {
                    assert(d1.has(q));
                    assert(a1.foreign(q));
                    assert(dram.same_frame(d1, q));
                    assert(d1.same_frame(d0, q));
                }
            }
            if buddy < idx {
                idx = buddy;
            }
            level = level + 1;
        }
        let ghost a3 = *self;
        let ghost d3 = *dram;
        let ghost k = level as int;
        proof {
            lemma_block(self.state@, idx as int);
            lemma_mark(self.state@, idx as int, k, true);
            if k < 10 {
                lemma_buddy(idx as int, k);
                if self.lists@[k].contains(buddy_of(idx as int, k)) {
                    let j = choose|j: int|
                        0 <= j < self.lists@[k].len() && self.lists@[k][j] == buddy_of(idx as int, k);
                    assert(listed(self.state@, self.lists@[k][j], k));
                }
            }
        }
        self.push(dram, level, idx);
        proof {
            lemma_list_merged(s0, self.state@, idx as int, k);
            assert forall|f: int| 0 <= f < a0.frames implies (#[trigger] self.state@[f]).free == (s0[f].free
                || i0 <= f < i0 + size(w)) by {
                assert(a3.state@[f].free == (s0[f].free && !(idx <= f < idx + size(k))));
            }
            assert forall|q: int| d0.has(q) && self.foreign(q) implies #[trigger] dram.same_frame(d0, q) by {
                assert(d3.has(q));
                assert(a0.foreign(q));
                assert(dram.same_frame(d3, q));
                assert(d3.same_frame(d0, q));
            }
        }
    }

    /// Take ownership of the physical frames in `[start, end)`.
    ///
    /// The bitmap is reserved off the front; everything from the next multiple
    /// of the largest block on is free.
    #[verifier::spinoff_prover]
    #[verifier::rlimit(100)]
    pub fn init(&mut self, dram: &mut Dram, start: PhysAddr, end: PhysAddr)
        requires
            old(dram).wf(),
            start.0 + PAGE_SIZE - 1 <= u64::MAX,
            addr::page_ceil(start.0 as int) < addr::page_floor(end.0 as int),
            old(dram).first() * PAGE_SIZE <= start.0,
            end.0 <= (old(dram).first() + old(dram).len()) * PAGE_SIZE,
        ensures
            final(self).wf(*final(dram)),
            final(dram).same_shape(*old(dram)),
            ({
                let first = addr::page_ceil(start.0 as int) / 4096;
                let last = addr::page_floor(end.0 as int) / 4096;
                let base = managed_base(first, last - first);
                &&& final(self).spec_bitmap() == first
                &&& final(self).spec_base() == base
                &&& final(self).spec_frames() == (if base < last {
                    last - base
                } else {
                    0
                })
                &&& final(self).lists() == seeded(final(self).spec_frames())
                &&& final(self).spec_used() == 0
                &&& final(self).spec_peak() == 0
                &&& forall|f: int| 0 <= f < final(self).spec_frames() ==> (#[trigger] final(self).state()[f]).free
                &&& forall|q: int|
                    old(dram).has(q) && !(first <= q < last) ==> #[trigger] final(dram).same_frame(
                        *old(dram),
                        q,
                    )
            }),
    {
        let ghost d0 = *dram;
        let first: PhysPageNum = start.align_up().ppn();
        let last: PhysPageNum = end.align_down().ppn();
        let total: u64 = last.0 - first.0;
        proof {
            d0.lemma_bounds();
            assert(d0.first() <= first.0 && last.0 <= d0.first() + d0.len());
        }
        // Sizing the bitmap needs the frame count, which shrinks once the bitmap
        // is deducted, so compute from `total` and accept over-allocating.
        let mut bits: u64 = 0;
        let mut k: usize = 0;
        while k <= MAX_ORDER
            invariant
                k <= 11,
                total <= DIRECT_MAP_PAGES,
                bits == bit_base(total as int, k as int),
            decreases 11 - k,
        {
            proof {
                lemma_bit_base_mono(total as int, k as int, k as int);
                lemma_bit_base_mono(total as int, k as int + 1, k as int + 1);
            }
            let n: u64 = block_frames(k);
            bits = bits + (total + (n - 1)) / n;
            k = k + 1;
        }
        proof {
            lemma_bit_base_mono(total as int, 11, 11);
            lemma_bit_base_mono(total as int, 1, 11);
        }
        let bitmap_bytes: u64 = (bits + 63) / 64 * 8;
        let bitmap_frames: u64 = (bitmap_bytes + (PAGE_SIZE - 1)) / PAGE_SIZE;
        assert(bitmap_frames == self::bitmap_frames(total as int));
        let mut i: u64 = 0;
        while i < bitmap_frames
            invariant
                i <= bitmap_frames <= total,
                first.0 + total == last.0,
                d0.wf(),
                dram.wf(),
                dram.same_shape(d0),
                d0.first() <= first.0,
                last.0 <= d0.first() + d0.len(),
                d0.first() + d0.len() <= DIRECT_MAP_PAGES,
                forall|q: int, j: int|
                    d0.has(q) && 0 <= j < 512 ==> #[trigger] dram.word(q, j) == (if first.0 <= q < first.0 + i {
                        0
                    } else {
                        d0.word(q, j)
                    }),
            decreases bitmap_frames - i,
        {
            dram.zero(PhysPageNum(first.0 + i));
            i = i + 1;
        }
        let ghost d1 = *dram;
        self.bitmap = first;
        self.base = PhysPageNum((first.0 + bitmap_frames + (MAX_BLOCK - 1)) / MAX_BLOCK * MAX_BLOCK);
        self.frames = if self.base.0 < last.0 {
            last.0 - self.base.0
        } else {
            0
        };
        self.free_lists = [NIL; 11];
        self.allocated = 0;
        self.peak = 0;
        let ghost fr = self.frames as int;
        let mut bit: u64 = 0;
        let mut k: usize = 0;
        let ghost a1 = *self;
        while k <= MAX_ORDER
            invariant
                k <= 11,
                fr <= DIRECT_MAP_PAGES,
                fr == self.frames,
                bit == bit_base(fr, k as int),
                self.base == a1.base,
                self.frames == a1.frames,
                self.bitmap == a1.bitmap,
                self.free_lists == a1.free_lists,
                self.allocated == 0,
                self.peak == 0,
                forall|l: int| 0 <= l < k ==> #[trigger] self.order_bit_base@[l] == bit_base(fr, l),
            decreases 11 - k,
        {
            proof {
                lemma_bit_base_mono(fr, k as int, k as int);
                lemma_bit_base_mono(fr, k as int + 1, k as int + 1);
            }
            let n: u64 = block_frames(k);
            self.order_bit_base[k] = bit;
            bit = bit + (self.frames + (n - 1)) / n;
            k = k + 1;
        }
        self.state = Ghost(Seq::new(fr as nat, |f: int| Block { start: f, order: 0, free: false }));
        self.lists = Ghost(seeded_top(0));
        proof {
            lemma_sizes();
            lemma_bit_base_shrink(fr, total as int, 11);
            reveal(tags_ok);
            reveal(BuddyAllocator::links_ok);
            assert(count_down(0) =~= Seq::<int>::empty());
            assert(self.bits_ok(d1)) by {
                reveal(BuddyAllocator::bits_ok);
                assert forall|l: int, j: int| 0 <= l < 11 && 0 <= j < fr && j % size(l) == 0 implies bitmap_bit(
                    d1,
                    first.0 as int,
                    #[trigger] bit_number(fr, l, j),
                ) == listed(self.state@, j, l) by {
                    lemma_bit_number(fr, l, j);
                    let b = bit_number(fr, l, j);
                    assert(d1.word(first.0 + b / 32768, (b / 64) % 512) == 0);
                    bits::lemma_bit_update(0, 0, (b % 64) as u64);
                }
            }
            assert(self.inv(d1));
        }
        let mut idx: u64 = 0;
        let ghost mut q: int = 11;
        while idx < self.frames
            invariant
                self.inv(*dram),
                fr == self.frames,
                idx <= fr,
                self.base == a1.base,
                self.frames == a1.frames,
                self.bitmap == a1.bitmap,
                self.allocated == 0,
                self.peak == 0,
                first == a1.bitmap,
                fr > 0 ==> a1.base.0 + fr == last.0,
                dram.same_shape(d0),
                forall|p: int|
                    d0.has(p) && !(first.0 <= p < last.0) ==> #[trigger] dram.same_frame(d0, p),
                forall|f: int| 0 <= f < idx ==> (#[trigger] self.state@[f]).free,
                forall|f: int|
                    idx <= f < fr ==> #[trigger] self.state@[f] == (Block { start: f, order: 0, free: false }),
                ({
                    ||| q == 11 && idx as int % 1024 == 0 && self.lists@ == seeded_top(idx as int / 1024)
                    ||| 0 <= q <= 10 && idx as int % size(q) == 0 && fr - idx < size(q) && self.lists@
                        == seeded_from(fr, q)
                }),
            decreases fr - idx,
        {
            let ghost a2 = *self;
            let ghost d2 = *dram;
            proof {
                lemma_sizes();
                if q == 11 && idx + 1024 > fr {
                    q = 10;
                    assert(self.lists@ =~= seeded_from(fr, 10));
                }
            }
            let mut order: usize = MAX_ORDER;
            let mut n: u64 = block_frames(order);
            while order > 0 && (idx % n != 0 || idx + n > self.frames)
                invariant
                    order <= MAX_ORDER,
                    n == size(order as int),
                    1 <= n <= 1024,
                    idx < fr <= DIRECT_MAP_PAGES,
                    fr == self.frames,
                    q == 11 ==> idx as int % 1024 == 0 && idx + 1024 <= fr && order == 10,
                    q != 11 ==> 0 <= q <= 10 && idx as int % size(q) == 0 && fr - idx < size(q),
                    q != 11 && order < 10 ==> fr - idx < size(order + 1),
                decreases order,
            {
                proof {
                    lemma_size(order as int);
                    lemma_sizes();
                    if q != 11 && idx as int % size(order as int) != 0 && fr - idx >= size(order as int) {
                        if order <= q {
                            lemma_aligned_down(idx as int, order as int, q);
                        } else {
                            lemma_size_mono(q, order as int);
                        }
                    }
                }
                order = order - 1;
                n = block_frames(order);
            }
            let ghost w = order as int;
            proof {
                lemma_size(w);
                lemma_sizes();
                if order == 0 {
                    assert(idx as int % 1 == 0);
                }
                reveal(tags_ok);
                lemma_retag(a2.state@, idx as int, w, false);
            }
            self.state = Ghost(
                retag(a2.state@, idx as int, size(w), Block { start: idx as int, order: w, free: false }),
            );
            proof {
                assert forall|j: int, l: int| #[trigger] listed(self.state@, j, l) <==> listed(a2.state@, j, l) by {}
                self.lemma_recut(a2, *dram);
                lemma_mark(self.state@, idx as int, w, true);
            }
            self.push(dram, order, idx);
            proof {
                assert forall|p: int| d0.has(p) && !(first.0 <= p < last.0) implies #[trigger] dram.same_frame(
                    d0,
                    p,
                ) by {
                    assert(d2.has(p));
                    assert(self.foreign(p));
                    assert(dram.same_frame(d2, p));
                    assert(d2.same_frame(d0, p));
                }
                if q == 11 {
                    assert(seq![idx as int] + count_down(idx as int / 1024) =~= count_down(
                        (idx + 1024) / 1024,
                    ));
                    assert(self.lists@ =~= seeded_top((idx + 1024) / 1024));
                } else {
                    assert(w < q) by {
                        if w >= q {
                            lemma_size_mono(q, w);
                        }
                    }
                    lemma_seeded_skip(fr, idx as int, q, w + 1);
                    lemma_seeded_step(fr, idx as int, w);
                    q = w;
                }
            }
            idx = idx + n;
        }
        proof {
            lemma_sizes();
            if q == 11 {
                assert(self.lists@ =~= seeded_from(fr, 10));
                q = 10;
            }
            lemma_seeded_skip(fr, idx as int, q, 0);
            assert(self.lists@ =~= seeded(fr));
            lemma_held_count_none(self.state@);
            assert forall|i: int, k: int| 0 <= k < 10 && #[trigger] listed(self.state@, i, k) implies !listed(
                self.state@,
                buddy_of(i, k),
                k,
            ) by {
                lemma_size(k);
                if listed(self.state@, buddy_of(i, k), k) {
                    assert(self.lists@[k].contains(i));
                    assert(self.lists@[k].contains(buddy_of(i, k)));
                    assert(self.lists@[k].len() <= 1);
                }
            }
        }
    }

    /// Frames currently allocated.
    pub fn used_frames(&self) -> (r: u64)
        ensures
            r == self.spec_used(),
    {
        self.allocated
    }

    /// Frames still available.
    pub fn free_frames(&self, dram: &Dram) -> (r: u64)
        requires
            self.wf(*dram),
        ensures
            r == self.spec_frames() - self.spec_used(),
    {
        self.frames - self.allocated
    }

    /// Total frames under management.
    pub fn total_frames(&self) -> (r: u64)
        ensures
            r == self.spec_frames(),
    {
        self.frames
    }

    /// Largest number of frames ever simultaneously allocated.
    pub fn peak_frames(&self) -> (r: u64)
        ensures
            r == self.spec_peak(),
    {
        self.peak
    }

    /// Is the run of `2^order` frames at frame `p` one that was handed out?
    pub closed spec fn owns(&self, p: int, order: int) -> bool {
        held(self.state@, p - self.base.0, order)
    }

    /// Is frame `p` part of a run that was handed out?
    pub closed spec fn used(&self, p: int) -> bool {
        self.base.0 <= p < self.base.0 + self.frames && !self.state@[p - self.base.0].free
    }

    /// A run that was handed out: its frames are in use, in the memory and in
    /// the direct map, and no other run shares one.
    pub proof fn lemma_owns(&self, dram: Dram, p: int, order: int)
        requires
            self.wf(dram),
            self.owns(p, order),
        ensures
            0 <= order <= 10,
            1 <= size(order) <= 1024,
            0 <= p,
            p % size(order) == 0,
            p + size(order) <= DIRECT_MAP_PAGES,
            forall|f: int| p <= f < p + size(order) ==> #[trigger] self.used(f),
            forall|q: int, l: int|
                #[trigger] self.owns(q, l) && q < p + size(order) && p < q + size(l) ==> q == p && l == order,
    {
        let s = self.state@;
        let i = p - self.base.0;
        lemma_block(s, i);
        lemma_size(order);
        lemma_base_aligned(self.base.0 as int, i, order);
        assert forall|f: int| p <= f < p + size(order) implies #[trigger] self.used(f) by {
            assert(s[f - self.base.0] == s[i]);
        }
        assert forall|q: int, l: int|
            #[trigger] self.owns(q, l) && q < p + size(order) && p < q + size(l) implies q == p && l == order by {
            let j = q - self.base.0;
            lemma_block(s, j);
            let f = if i < j {
                j
            } else {
                i
            };
            assert(s[f] == s[i]);
            assert(s[f] == s[j]);
        }
    }

    /// A frame in use is in the memory, and not the allocator's.
    pub proof fn lemma_used(&self, dram: Dram, p: int)
        requires
            self.wf(dram),
            self.used(p),
        ensures
            dram.has(p),
            self.foreign(p),
            0 <= p < DIRECT_MAP_PAGES,
    {
    }

    /// How the terms of [`BuddyAllocator::allocate`] and
    /// [`BuddyAllocator::free`] read for frames and runs.
    pub proof fn lemma_terms(&self, p: int, order: int)
        ensures
            self.owns(p, order) == held(self.state(), p - self.spec_base(), order),
            self.used(p) == (self.spec_base() <= p < self.spec_base() + self.spec_frames()
                && !self.state()[p - self.spec_base()].free),
    {
    }

    /// What well-formedness says of the parts that can be seen.
    pub proof fn lemma_wf(&self, dram: Dram)
        requires
            self.wf(dram),
        ensures
            dram.wf(),
            0 <= self.spec_bitmap() <= self.spec_base(),
            0 <= self.spec_frames(),
            self.spec_base() % 1024 == 0,
            self.spec_base() + self.spec_frames() <= DIRECT_MAP_PAGES,
            self.spec_frames() > 0 ==> dram.first() <= self.spec_bitmap() && self.spec_base()
                + self.spec_frames() <= dram.first() + dram.len(),
            self.state().len() == self.spec_frames(),
            self.lists().len() == 11,
            tags_ok(self.state()),
            merged(self.state()),
            self.spec_used() == held_count(self.state()),
            0 <= self.spec_used() <= self.spec_peak() <= self.spec_frames(),
            forall|k: int, i: int|
                0 <= k < 11 ==> (#[trigger] listed(self.state(), i, k) <==> self.lists()[k].contains(i)),
            forall|k: int| 0 <= k < 11 ==> (#[trigger] self.lists()[k]).no_duplicates(),
    {
        assert forall|k: int, i: int| 0 <= k < 11 implies (#[trigger] listed(self.state(), i, k)
            <==> self.lists()[k].contains(i)) by {
            if self.lists@[k].contains(i) {
                let j = choose|j: int| 0 <= j < self.lists@[k].len() && self.lists@[k][j] == i;
                assert(listed(self.state@, self.lists@[k][j], k));
            }
        }
    }

    /// What is done to frames that are not the allocator's does not disturb it.
    pub proof fn lemma_undisturbed(&self, before: Dram, after: Dram)
        requires
            self.wf(before),
            after.wf(),
            after.same_shape(before),
            forall|p: int| before.has(p) && !self.foreign(p) ==> #[trigger] after.same_frame(before, p),
        ensures
            self.wf(after),
    {
        reveal(BuddyAllocator::links_ok);
        reveal(BuddyAllocator::bits_ok);
        let base = self.base.0 as int;
        assert forall|k: int| 0 <= k < 11 implies linked(
            after,
            base,
            #[trigger] self.lists@[k],
            self.free_lists@[k],
        ) by {
            let l = self.lists@[k];
            assert(linked(before, base, l, self.free_lists@[k]));
            assert forall|j: int| 0 <= j < l.len() implies {
                &&& after.word(base + #[trigger] l[j], 0) == next_of(l, j)
                &&& after.word(base + l[j], 1) == prev_of(l, j)
            } by {
                assert(listed(self.state@, l[j], k));
                assert(!self.foreign(base + l[j]));
                assert(before.has(base + l[j]));
                assert(after.same_frame(before, base + l[j]));
                assert(before.word(base + l[j], 0) == next_of(l, j));
            }
        }
        assert forall|k: int, i: int| 0 <= k < 11 && 0 <= i < self.frames && i % size(k) == 0 implies bitmap_bit(
            after,
            self.bitmap.0 as int,
            #[trigger] bit_number(self.frames as int, k, i),
        ) == listed(self.state@, i, k) by {
            lemma_bit_number(self.frames as int, k, i);
            let p = self.bitmap.0 + bit_number(self.frames as int, k, i) / 32768;
            assert(before.has(p) && !self.foreign(p));
            assert(after.same_frame(before, p));
        }
    }

    /// Whether two allocators manage the same frames, in terms of what can be
    /// seen.
    pub proof fn lemma_same_region(&self, other: BuddyAllocator)
        requires
            self.same_region(other),
        ensures
            self.spec_base() == other.spec_base(),
            self.spec_frames() == other.spec_frames(),
            self.spec_bitmap() == other.spec_bitmap(),
    {
    }
}

/// A run of `2^k` frames made of blocks of lower orders holds a frame that is
/// not free: else two buddies would be.
proof fn lemma_run_splits(s: Seq<Block>, i: int, k: int)
    requires
        tags_ok(s),
        merged(s),
        0 <= k <= 10,
        0 <= i,
        i % size(k) == 0,
        i + size(k) <= s.len(),
        forall|f: int| i <= f < i + size(k) ==> (#[trigger] s[f]).order < k,
    ensures
        exists|f: int| i <= f < i + size(k) && !(#[trigger] s[f]).free,
    decreases k,
{
    lemma_size(k);
    lemma_block(s, i);
    if k > 0 {
        let h = k - 1;
        lemma_size(h);
        lemma_halves(i, h);
        let m = i + size(h);
        assert(s[i].order < k && s[m].order < k);
        lemma_block(s, m);
        lemma_half_whole(s, i, h);
        lemma_half_whole(s, m, h);
        if s[i].order < h {
            lemma_run_splits(s, i, h);
        } else if s[m].order < h {
            lemma_run_splits(s, m, h);
        } else {
            lemma_buddy(i, h);
            assert(!listed(s, i, h) || !listed(s, m, h));
        }
    }
}

/// A run aligned to its size, all of whose blocks are no larger, is one block
/// or made of smaller ones.
proof fn lemma_half_whole(s: Seq<Block>, i: int, h: int)
    requires
        tags_ok(s),
        0 <= h < 10,
        0 <= i,
        i % size(h) == 0,
        i + size(h) <= s.len(),
        forall|f: int| i <= f < i + size(h) ==> (#[trigger] s[f]).order <= h,
    ensures
        s[i].order == h ==> s[i].start == i,
        s[i].order < h ==> forall|f: int| i <= f < i + size(h) ==> (#[trigger] s[f]).order < h,
{
    lemma_size(h);
    lemma_block(s, i);
    if s[i].order == h {
        lemma_aligned_unique(s[i].start, i, i, h);
    }
    if s[i].order < h {
        assert forall|f: int| i <= f < i + size(h) implies (#[trigger] s[f]).order < h by {
            lemma_block(s, f);
            if s[f].order == h {
                lemma_aligned_unique(s[f].start, i, f, h);
                assert(s[i] == s[f]);
            }
        }
    }
}

/// Two aligned runs of one size that share a frame are the same.
proof fn lemma_aligned_unique(a: int, b: int, f: int, k: int)
    requires
        0 <= k <= 10,
        a % size(k) == 0,
        b % size(k) == 0,
        a <= f < a + size(k),
        b <= f < b + size(k),
    ensures
        a == b,
{
    lemma_size(k);
    lemma_last_multiple(f, a, size(k));
    lemma_last_multiple(f, b, size(k));
}

/// A request is refused only if no aligned run of that many frames is free.
pub proof fn law_allocation_is_complete(a: BuddyAllocator, dram: Dram, order: int, i: int)
    requires
        a.wf(dram),
        0 <= order <= 10,
        donor(a.lists(), order) > 10,
        0 <= i,
        i % size(order) == 0,
        i + size(order) <= a.spec_frames(),
    ensures
        exists|f: int| i <= f < i + size(order) && !(#[trigger] a.state()[f]).free,
{
    let s = a.state();
    a.lemma_wf(dram);
    if forall|f: int| i <= f < i + size(order) ==> (#[trigger] s[f]).free {
        assert forall|f: int| i <= f < i + size(order) implies (#[trigger] s[f]).order < order by {
            lemma_block(s, f);
            lemma_size(s[f].order);
            let b = s[f].start;
            let k = s[f].order;
            assert(s[b] == s[f]);
            assert(listed(s, b, k));
            assert(a.lists()[k].contains(b));
            if k >= order {
                lemma_donor(a.lists(), order);
            }
        }
        lemma_run_splits(s, i, order);
    }
}

/// What [`donor`] is.
pub proof fn lemma_donor(lists: Seq<Seq<int>>, order: int)
    requires
        0 <= order <= 11,
    ensures
        order <= donor(lists, order) <= 11,
        donor(lists, order) <= 10 ==> lists[donor(lists, order)].len() > 0,
        forall|l: int| order <= l < donor(lists, order) ==> (#[trigger] lists[l]).len() == 0,
    decreases 11 - order,
{
    if order <= 10 && lists[order].len() == 0 {
        lemma_donor(lists, order + 1);
    }
}

/// A single frame can be had exactly as long as not all are handed out.
pub proof fn law_single_frames_never_run_out_early(a: BuddyAllocator, dram: Dram)
    requires
        a.wf(dram),
    ensures
        donor(a.lists(), 0) <= 10 <==> a.spec_used() < a.spec_frames(),
{
    let s = a.state();
    a.lemma_wf(dram);
    lemma_donor(a.lists(), 0);
    lemma_held_count_full(s);
    lemma_held_count_bounds(s);
    lemma_sizes();
    let d = donor(a.lists(), 0);
    if d <= 10 {
        let i = a.lists()[d][0];
        assert(a.lists()[d].contains(i));
        assert(listed(s, i, d));
        assert(s[i].free);
    } else {
        assert forall|f: int| 0 <= f < s.len() implies !(#[trigger] s[f]).free by {
            law_allocation_is_complete(a, dram, 0, f);
        }
    }
}

/// Returning a block that was just handed out restores the free lists, and so
/// the next request of the same order gets the same block.
pub proof fn law_free_undoes_alloc(a: BuddyAllocator, dram: Dram, order: int)
    requires
        a.wf(dram),
        0 <= order <= 10,
        donor(a.lists(), order) <= 10,
    ensures
        returned(
            served(a.lists(), order),
            a.lists()[donor(a.lists(), order)][0],
            order,
        ) == a.lists(),
{
    a.lemma_wf(dram);
    lemma_donor(a.lists(), order);
    let d = donor(a.lists(), order);
    let idx = a.lists()[d][0];
    assert(a.lists()[d].contains(idx));
    assert(listed(a.state(), idx, d));
    lemma_block(a.state(), idx);
    lemma_rejoin(a, dram, idx, d, order);
}

proof fn lemma_rejoin(a: BuddyAllocator, dram: Dram, idx: int, d: int, order: int)
    requires
        a.wf(dram),
        0 <= order <= d <= 10,
        listed(a.state(), idx, d),
        a.lists()[d].len() > 0,
        a.lists()[d][0] == idx,
        forall|l: int| order <= l < d ==> (#[trigger] a.lists()[l]).len() == 0,
    ensures
        returned(split_lists(a.lists(), idx, d, order), idx, order) == a.lists(),
    decreases d - order,
{
    let lists = a.lists();
    let sp = split_lists(lists, idx, d, order);
    a.lemma_wf(dram);
    lemma_block(a.state(), idx);
    if order == d {
        let b = buddy_of(idx, d);
        if d < 10 {
            lemma_buddy(idx, d);
            if sp[d].contains(b) {
                let j = choose|j: int| 0 <= j < sp[d].len() && sp[d][j] == b;
                assert(lists[d][j + 1] == b);
                assert(lists[d].contains(b));
                assert(listed(a.state(), b, d));
            }
        }
        assert(seq![idx] + sp[d] =~= lists[d]);
        assert(sp.update(d, seq![idx] + sp[d]) =~= lists);
    } else {
        lemma_aligned_down(idx, order + 1, d);
        lemma_aligned_down(idx, order, d);
        lemma_buddy(idx, order);
        let b = buddy_of(idx, order);
        assert(sp[order] == seq![b]);
        assert(sp[order][0] == b);
        assert(sp[order].contains(b));
        lemma_without(sp[order], b);
        lemma_size(order);
        assert(without(sp[order], b) =~= lists[order]);
        assert(sp.update(order, without(sp[order], b)) =~= split_lists(lists, idx, d, order + 1));
        lemma_rejoin(a, dram, idx, d, order + 1);
    }
}

/// Two blocks that share a frame are the same block.
pub proof fn law_blocks_are_disjoint(a: BuddyAllocator, dram: Dram, i: int, k: int, j: int, l: int, f: int)
    requires
        a.wf(dram),
        held(a.state(), i, k) || listed(a.state(), i, k),
        held(a.state(), j, l) || listed(a.state(), j, l),
        i <= f < i + size(k),
        j <= f < j + size(l),
    ensures
        i == j,
        k == l,
        held(a.state(), i, k) == held(a.state(), j, l),
{
    a.lemma_wf(dram);
    lemma_block(a.state(), i);
    lemma_block(a.state(), j);
    assert(a.state()[f] == a.state()[i]);
    assert(a.state()[f] == a.state()[j]);
}

/// A request is served from the smallest block that is large enough, so that larger ones
/// stay whole as long as they can. The caller gets the front of it, and what is left is
/// free in blocks that each double the one before.
pub proof fn law_smallest_block_is_taken(lists: Seq<Seq<int>>, order: int, l: int)
    requires
        lists.len() == 11,
        0 <= order <= 10,
        0 <= l <= 10,
        exists|k: int| order <= k <= 10 && (#[trigger] lists[k]).len() > 0,
    ensures
        ({
            let d = donor(lists, order);
            let idx = lists[d][0];
            &&& order <= d <= 10
            &&& lists[d].len() > 0
            &&& order <= l < d ==> lists[l].len() == 0 && served(lists, order)[l] == seq![idx + size(l)]
            &&& l < order || l > d ==> served(lists, order)[l] == lists[l]
            &&& served(lists, order)[d] == lists[d].skip(1)
        }),
{
    let k = choose|k: int| order <= k <= 10 && (#[trigger] lists[k]).len() > 0;
    lemma_smallest(lists, order, k);
    let d = donor(lists, order);
    assert(lists[d].drop_first() =~= lists[d].skip(1));
}

/// Where there is a block there is one to take.
pub proof fn lemma_donor_found(lists: Seq<Seq<int>>, order: int, k: int)
    requires
        0 <= order <= k <= 10,
        lists[k].len() > 0,
    ensures
        donor(lists, order) <= k,
    decreases k - order,
{
    if lists[order].len() == 0 {
        lemma_donor_found(lists, order + 1, k);
    }
}

proof fn lemma_smallest(lists: Seq<Seq<int>>, order: int, k: int)
    requires
        lists.len() == 11,
        0 <= order <= k <= 10,
        lists[k].len() > 0,
    ensures
        order <= donor(lists, order) <= k,
        lists[donor(lists, order)].len() > 0,
        forall|l: int| order <= l < donor(lists, order) ==> (#[trigger] lists[l]).len() == 0,
    decreases k - order,
{
    if lists[order].len() == 0 {
        lemma_smallest(lists, order + 1, k);
    }
}

/// Free blocks are as large as can be: of two blocks that are halves of one, at most one
/// is free by itself.
pub proof fn law_free_halves_are_joined(a: BuddyAllocator, dram: Dram, i: int, k: int)
    requires
        a.wf(dram),
        0 <= k < 10,
        0 <= i,
        a.lists()[k].contains(i),
    ensures
        i % size(k) == 0,
        i % size(k + 1) == 0 ==> !a.lists()[k].contains(i + size(k)),
        i % size(k + 1) != 0 ==> !a.lists()[k].contains(i - size(k)),
{
    a.lemma_wf(dram);
    let s = a.state();
    assert(listed(s, i, k));
    lemma_block(s, i);
    let b = buddy_of(i, k);
    assert(!listed(s, b, k));
    if a.lists()[k].contains(b) {
        assert(listed(s, b, k));
    }
}

/// Little memory is given up to manage the rest: what is managed starts at a multiple of
/// the largest block, and before it there are no more frames than it takes to get there
/// and to keep one bit for each block of each order.
pub proof fn law_little_memory_is_given_up(first: int, total: int)
    requires
        0 <= first,
        0 < total,
    ensures
        managed_base(first, total) % 1024 == 0,
        managed_base(first, total) > first,
        managed_base(first, total) <= first + (2 * total + 11) / 32768 + 1024,
{
    lemma_sizes();
    reveal_with_fuel(bit_base, 12);
    assert(total <= bit_base(total, 11) <= 2 * total + 11);
}

} // verus!
