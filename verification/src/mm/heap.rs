//! Kernel heap: a segregated free-list (slab-style) allocator.
//!
//! * Requests up to 2 KiB round up to one of nine power-of-two size classes.
//!   Each class keeps a LIFO free list threaded through the free blocks
//!   themselves, with no per-block header and no search.
//! * A class that runs dry claims one frame from the buddy allocator and carves
//!   it into blocks. Since a frame is 4 KiB aligned and every class is a power of
//!   two no larger than that, block addresses are automatically aligned to their
//!   own size.
//! * Anything larger goes straight to the buddy allocator, rounded up to a whole
//!   number of frames.

use vstd::prelude::*;
use crate::config::{PAGE_SIZE, VIRT_OFFSET};
use crate::mm::addr::PhysPageNum;
use crate::mm::buddy;
use crate::mm::frame::{self, Memory, MAX_ORDER};

verus! {

/// Number of size classes: 8 through 2048 bytes.
pub const NUM_CLASSES: usize = 9;

/// Largest request served from a size class; above this we go to the buddy.
pub const MAX_CLASS_SIZE: u64 = 2048;

/// A request: how many bytes, at what alignment.
#[derive(Clone, Copy, PartialEq, Eq, Structural, Debug)]
pub struct Layout {
    /// Bytes.
    pub size: u64,
    /// Alignment, a power of two.
    pub align: u64,
}

impl Layout {
    /// The larger of size and alignment.
    pub open spec fn need(self) -> int {
        if self.size >= self.align {
            self.size as int
        } else {
            self.align as int
        }
    }
}

/// Bytes in a block of a class.
pub open spec fn class_bytes(class: int) -> int {
    buddy::size(class + 3)
}

/// Blocks in a frame of a class.
pub open spec fn class_count(class: int) -> int {
    buddy::size(9 - class)
}

/// The sizes of all classes.
pub proof fn lemma_classes()
    ensures
        class_bytes(0) == 8,
        class_bytes(1) == 16,
        class_bytes(2) == 32,
        class_bytes(3) == 64,
        class_bytes(4) == 128,
        class_bytes(5) == 256,
        class_bytes(6) == 512,
        class_bytes(7) == 1024,
        class_bytes(8) == 2048,
        class_count(0) == 512,
        class_count(1) == 256,
        class_count(2) == 128,
        class_count(3) == 64,
        class_count(4) == 32,
        class_count(5) == 16,
        class_count(6) == 8,
        class_count(7) == 4,
        class_count(8) == 2,
{
    buddy::lemma_sizes();
    assert(buddy::size(11) == 2 * buddy::size(10));
}

/// Blocks of a class fill a frame.
proof fn lemma_class(c: int)
    requires
        0 <= c < 9,
    ensures
        8 <= class_bytes(c) <= 2048,
        class_bytes(c) % 8 == 0,
        2 <= class_count(c) <= 512,
        class_count(c) * class_bytes(c) == 4096,
{
    lemma_classes();
}

/// Where block `j` of a frame starts.
proof fn lemma_block_at(j: int, c: int)
    requires
        0 <= c < 9,
        0 <= j < class_count(c),
    ensures
        0 <= j * class_bytes(c),
        j * class_bytes(c) + class_bytes(c) <= 4096,
        (j * class_bytes(c)) % 8 == 0,
        (j * class_bytes(c)) % class_bytes(c) == 0,
        (j + 1) * class_bytes(c) == j * class_bytes(c) + class_bytes(c),
{
    lemma_class(c);
    let s = class_bytes(c);
    let n = class_count(c);
    assert(0 <= j * s && j * s + s <= n * s && (j + 1) * s == j * s + s) by (nonlinear_arith)
        requires
            0 <= j < n,
            s >= 8;
    vstd::arithmetic::div_mod::lemma_mod_multiples_basic(j, s);
    let m = s / 8;
    assert(j * s == (j * m) * 8) by (nonlinear_arith)
        requires
            s == 8 * m;
    vstd::arithmetic::div_mod::lemma_mod_multiples_basic(j * m, 8);
}

/// The smallest class whose blocks hold `need` bytes, or one past the last.
pub open spec fn class_of(need: int, from: int) -> int
    decreases 9 - from,
{
    if from >= 9 || class_bytes(from) >= need {
        from
    } else {
        class_of(need, from + 1)
    }
}

/// Bytes in a block of a class.
pub fn class_size(class: usize) -> (r: u64)
    requires
        class < NUM_CLASSES,
    ensures
        r == class_bytes(class as int),
        8 <= r <= 2048,
{
    proof {
        lemma_classes();
        lemma_class_shifts();
    }
    8u64 << class
}

proof fn lemma_class_shifts()
    by (bit_vector)
    ensures
        8u64 << 0 == 8,
        8u64 << 1 == 16,
        8u64 << 2 == 32,
        8u64 << 3 == 64,
        8u64 << 4 == 128,
        8u64 << 5 == 256,
        8u64 << 6 == 512,
        8u64 << 7 == 1024,
        8u64 << 8 == 2048,
{
}

/// Smallest class index that satisfies `layout`, or `None` if the request
/// belongs to the large path.
///
/// Alignment folds into the size: because a class of size `s` only ever yields
/// `s`-aligned addresses, asking for a class at least as large as the requested
/// alignment satisfies it for free.
pub fn class_for(layout: Layout) -> (r: Option<usize>)
    ensures
        match r {
            Some(c) => c < NUM_CLASSES && c == class_of(layout.need(), 0) && layout.need() <= MAX_CLASS_SIZE,
            None => layout.need() > MAX_CLASS_SIZE,
        },
{
    let need: u64 = if layout.size >= layout.align {
        layout.size
    } else {
        layout.align
    };
    if need > MAX_CLASS_SIZE {
        return None;
    }
    let mut c: usize = 0;
    proof {
        lemma_classes();
    }
    while c < 8 && class_size(c) < need
        invariant
            c <= 8,
            class_of(need as int, 0) == class_of(need as int, c as int),
            need <= 2048,
        decreases 8 - c,
    {
        c = c + 1;
    }
    proof {
        lemma_classes();
    }
    Some(c)
}

/// The blocks of frame `p`, lowest first.
pub open spec fn carve(p: int, c: int) -> Seq<int> {
    Seq::new(class_count(c) as nat, |j: int| p * 4096 + j * class_bytes(c))
}

/// The link that a free block at position `j` of list `l` holds.
pub open spec fn link(l: Seq<int>, j: int) -> u64 {
    if 0 <= j < l.len() {
        (l[j] + VIRT_OFFSET) as u64
    } else {
        0
    }
}

/// Bytes of large runs.
pub open spec fn run_bytes(runs: Seq<(int, int)>) -> int
    decreases runs.len(),
{
    if runs.len() == 0 {
        0
    } else {
        run_bytes(runs.drop_last()) + buddy::size(runs.last().1) * 4096
    }
}

/// Bytes in blocks of the first `n` classes that are handed out.
pub open spec fn small_bytes(all: Seq<Seq<int>>, lists: Seq<Seq<int>>, n: int) -> int
    decreases n,
{
    if n <= 0 {
        0
    } else {
        small_bytes(all, lists, n - 1) + (all[n - 1].len() - lists[n - 1].len()) * class_bytes(n - 1)
    }
}

/// Bytes in blocks of the first `n` classes.
pub open spec fn claimed_bytes(all: Seq<Seq<int>>, n: int) -> int
    decreases n,
{
    if n <= 0 {
        0
    } else {
        claimed_bytes(all, n - 1) + all[n - 1].len() * class_bytes(n - 1)
    }
}

/// The kernel heap.
pub struct Heap {
    /// Head of each class's free list. Each free block's first word points at
    /// the next free block of the same class.
    free: [u64; 9],
    /// Bytes handed out.
    allocated: u64,
    /// Bytes claimed from the buddy allocator.
    reserved: u64,
    /// The free list of each class, as physical addresses.
    lists: Ghost<Seq<Seq<int>>>,
    /// Every block of each class, free or handed out.
    all: Ghost<Seq<Seq<int>>>,
    /// The large runs that are handed out: first frame and order.
    runs: Ghost<Seq<(int, int)>>,
}

impl Heap {
    /// The free list of each class.
    pub closed spec fn lists(&self) -> Seq<Seq<int>> {
        self.lists@
    }

    /// Every block of each class.
    pub closed spec fn all(&self) -> Seq<Seq<int>> {
        self.all@
    }

    /// The large runs that are handed out.
    pub closed spec fn runs(&self) -> Seq<(int, int)> {
        self.runs@
    }

    /// Is the block of class `c` at physical address `a` handed out?
    pub open spec fn live(&self, a: int, c: int) -> bool {
        0 <= c < 9 && self.all()[c].contains(a) && !self.lists()[c].contains(a)
    }

    /// Does frame `p` belong to the heap, cut into blocks?
    pub open spec fn cut(&self, p: int) -> bool {
        exists|c: int, k: int|
            0 <= c < 9 && 0 <= k < self.all()[c].len() && (#[trigger] self.all()[c][k]) / 4096 == p
    }

    /// Every block lies in a frame of the heap, aligned to its size; frames are of
    /// one class, and none is part of a large run.
    pub open spec fn blocks_ok(&self, mem: Memory) -> bool {
        &&& self.all().len() == 9
        &&& forall|c: int, k: int|
            0 <= c < 9 && 0 <= k < self.all()[c].len() ==> {
                &&& 0 <= #[trigger] self.all()[c][k]
                &&& self.all()[c][k] % class_bytes(c) == 0
                &&& mem.owns(self.all()[c][k] / 4096, 0)
            }
        &&& forall|c: int| 0 <= c < 9 ==> (#[trigger] self.all()[c]).no_duplicates()
        &&& forall|c: int, k: int, d: int, l: int|
            0 <= c < 9 && 0 <= k < self.all()[c].len() && 0 <= d < 9 && 0 <= l < self.all()[d].len() && (
            #[trigger] self.all()[c][k]) / 4096 == (#[trigger] self.all()[d][l]) / 4096 ==> c == d
        &&& forall|i: int|
            0 <= i < self.runs().len() ==> {
                &&& mem.owns((#[trigger] self.runs()[i]).0, self.runs()[i].1)
                &&& !self.cut(self.runs()[i].0)
            }
        &&& forall|i: int, j: int|
            0 <= i < self.runs().len() && 0 <= j < self.runs().len() && i != j ==> (#[trigger] self.runs()[i]).0
                != (#[trigger] self.runs()[j]).0
    }

    /// The free lists hold blocks of their class, each once, and are linked
    /// through the blocks.
    pub open spec fn lists_ok(&self, mem: Memory) -> bool {
        &&& self.lists().len() == 9
        &&& forall|c: int, j: int|
            0 <= c < 9 && 0 <= j < self.lists()[c].len() ==> {
                &&& self.all()[c].contains(#[trigger] self.lists()[c][j])
                &&& mem.word(self.lists()[c][j] / 4096, (self.lists()[c][j] % 4096) / 8) == link(
                    self.lists()[c],
                    j + 1,
                )
            }
        &&& forall|c: int| 0 <= c < 9 ==> (#[trigger] self.lists()[c]).no_duplicates()
    }

    /// The heap's books are consistent, in its fields and in memory.
    pub closed spec fn wf(&self, mem: Memory) -> bool {
        &&& self.blocks_ok(mem)
        &&& self.lists_ok(mem)
        &&& forall|c: int| 0 <= c < 9 ==> #[trigger] self.free@[c] == link(self.lists@[c], 0)
        &&& self.allocated == small_bytes(self.all@, self.lists@, 9) + run_bytes(self.runs@)
        &&& self.reserved == claimed_bytes(self.all@, 9) + run_bytes(self.runs@)
    }

    /// A heap that has claimed nothing.
    pub fn new() -> (r: Heap)
        ensures
            forall|mem: Memory| #[trigger] r.wf(mem),
            r.all() == Seq::new(9, |c: int| Seq::<int>::empty()),
            r.lists() == Seq::new(9, |c: int| Seq::<int>::empty()),
            r.runs() == Seq::<(int, int)>::empty(),
    {
        let r = Heap {
            free: [0; 9],
            allocated: 0,
            reserved: 0,
            lists: Ghost(Seq::new(9, |c: int| Seq::<int>::empty())),
            all: Ghost(Seq::new(9, |c: int| Seq::<int>::empty())),
            runs: Ghost(Seq::empty()),
        };
        proof {
            lemma_nothing_claimed(r.all@, r.lists@, 9);
        }
        r
    }
}

/// Bytes currently allocated and bytes claimed from the frame allocator.
pub fn stats(heap: &Heap, mem: &Memory) -> (r: (u64, u64))
    requires
        heap.wf(*mem),
    ensures
        r.0 == small_bytes(heap.all(), heap.lists(), 9) + run_bytes(heap.runs()),
        r.1 == claimed_bytes(heap.all(), 9) + run_bytes(heap.runs()),
{
    (heap.allocated, heap.reserved)
}

proof fn lemma_nothing_claimed(all: Seq<Seq<int>>, lists: Seq<Seq<int>>, n: int)
    requires
        0 <= n <= 9,
        all.len() == 9,
        lists.len() == 9,
        forall|c: int| 0 <= c < 9 ==> (#[trigger] all[c]).len() == 0,
        forall|c: int| 0 <= c < 9 ==> (#[trigger] lists[c]).len() == 0,
    ensures
        small_bytes(all, lists, n) == 0,
        claimed_bytes(all, n) == 0,
    decreases n,
{
    if n > 0 {
        lemma_nothing_claimed(all, lists, n - 1);
        assert(0 * class_bytes(n - 1) == 0) by (nonlinear_arith);
    }
}

/// Distinct addresses below 2^38 are at most that many.
proof fn lemma_few(l: Seq<int>)
    requires
        l.no_duplicates(),
        forall|k: int| 0 <= k < l.len() ==> 0 <= #[trigger] l[k] < 0x40_0000_0000,
    ensures
        l.len() <= 0x40_0000_0000,
{
    l.unique_seq_to_set();
    vstd::seq_lib::seq_to_set_is_finite(l);
    vstd::set_lib::lemma_int_range(0, 0x40_0000_0000);
    let r = vstd::set_lib::set_int_range(0, 0x40_0000_0000);
    assert(l.to_set().subset_of(r)) by {
        assert forall|x: int| l.to_set().contains(x) implies r.contains(x) by {
            let k = choose|k: int| 0 <= k < l.len() && l[k] == x;
            assert(l[k] == x);
        }
    }
    vstd::set_lib::lemma_len_subset(l.to_set(), r);
}

/// A list without repetitions is no longer than one that has all its elements.
proof fn lemma_no_longer(a: Seq<int>, b: Seq<int>)
    requires
        a.no_duplicates(),
        b.no_duplicates(),
        forall|k: int| 0 <= k < a.len() ==> b.contains(#[trigger] a[k]),
    ensures
        a.len() <= b.len(),
{
    a.unique_seq_to_set();
    b.unique_seq_to_set();
    vstd::seq_lib::seq_to_set_is_finite(a);
    vstd::seq_lib::seq_to_set_is_finite(b);
    assert(a.to_set().subset_of(b.to_set())) by {
        assert forall|x: int| a.to_set().contains(x) implies b.to_set().contains(x) by {
            let k = choose|k: int| 0 <= k < a.len() && a[k] == x;
            assert(b.contains(a[k]));
        }
    }
    vstd::set_lib::lemma_len_subset(a.to_set(), b.to_set());
}

/// Sums over classes, when one class changes.
proof fn lemma_sums_update(
    all: Seq<Seq<int>>,
    lists: Seq<Seq<int>>,
    c: int,
    a2: Seq<int>,
    l2: Seq<int>,
    n: int,
)
    requires
        all.len() == 9,
        lists.len() == 9,
        0 <= c < 9,
        0 <= n <= 9,
    ensures
        small_bytes(all.update(c, a2), lists.update(c, l2), n) == small_bytes(all, lists, n) + (if c < n {
            ((a2.len() - l2.len()) - (all[c].len() - lists[c].len())) * class_bytes(c)
        } else {
            0
        }),
        claimed_bytes(all.update(c, a2), n) == claimed_bytes(all, n) + (if c < n {
            (a2.len() - all[c].len()) * class_bytes(c)
        } else {
            0
        }),
    decreases n,
{
    if n > 0 {
        lemma_sums_update(all, lists, c, a2, l2, n - 1);
        if c == n - 1 {
            let s = class_bytes(c);
            let x = a2.len() - l2.len();
            let y = all[c].len() - lists[c].len();
            assert(x * s == y * s + (x - y) * s) by (nonlinear_arith);
            let u = a2.len() as int;
            let w = all[c].len() as int;
            assert(u * s == w * s + (u - w) * s) by (nonlinear_arith);
        }
    }
}

/// The bytes of the first `n` classes are bounded.
proof fn lemma_sums_bounded(all: Seq<Seq<int>>, lists: Seq<Seq<int>>, n: int)
    requires
        all.len() == 9,
        lists.len() == 9,
        0 <= n <= 9,
        forall|c: int| 0 <= c < 9 ==> (#[trigger] all[c]).len() <= 0x40_0000_0000,
        forall|c: int| 0 <= c < 9 ==> (#[trigger] lists[c]).len() <= all[c].len(),
    ensures
        0 <= small_bytes(all, lists, n) <= claimed_bytes(all, n) <= n * 0x2_0000_0000_0000,
    decreases n,
{
    if n > 0 {
        lemma_sums_bounded(all, lists, n - 1);
        lemma_class(n - 1);
        let s = class_bytes(n - 1);
        let x = all[n - 1].len() as int;
        let y = lists[n - 1].len() as int;
        assert(lists[n - 1].len() <= all[n - 1].len());
        assert(0 <= (x - y) * s <= x * s && x * s <= 0x2_0000_0000_0000) by (nonlinear_arith)
            requires
                0 <= y <= x <= 0x40_0000_0000,
                0 <= s <= 2048;
    }
}

/// One class counts no more than all.
proof fn lemma_small_part(all: Seq<Seq<int>>, lists: Seq<Seq<int>>, c: int, n: int)
    requires
        all.len() == 9,
        lists.len() == 9,
        0 <= c < n <= 9,
        forall|d: int| 0 <= d < 9 ==> (#[trigger] lists[d]).len() <= all[d].len(),
    ensures
        (all[c].len() - lists[c].len()) * class_bytes(c) <= small_bytes(all, lists, n),
        0 <= small_bytes(all, lists, n),
    decreases n,
{
    lemma_class(n - 1);
    let s = class_bytes(n - 1);
    let x = all[n - 1].len() - lists[n - 1].len();
    assert(lists[n - 1].len() <= all[n - 1].len());
    assert(0 <= x * s) by (nonlinear_arith)
        requires
            0 <= x,
            0 <= s;
    if c < n - 1 {
        lemma_small_part(all, lists, c, n - 1);
    } else {
        lemma_small_nonneg(all, lists, n - 1);
    }
}

proof fn lemma_small_nonneg(all: Seq<Seq<int>>, lists: Seq<Seq<int>>, n: int)
    requires
        all.len() == 9,
        lists.len() == 9,
        0 <= n <= 9,
        forall|d: int| 0 <= d < 9 ==> (#[trigger] lists[d]).len() <= all[d].len(),
    ensures
        0 <= small_bytes(all, lists, n),
    decreases n,
{
    if n > 0 {
        lemma_small_nonneg(all, lists, n - 1);
        lemma_class(n - 1);
        let s = class_bytes(n - 1);
        let x = all[n - 1].len() - lists[n - 1].len();
        assert(lists[n - 1].len() <= all[n - 1].len());
        assert(0 <= x * s) by (nonlinear_arith)
            requires
                0 <= x,
                0 <= s;
    }
}

/// The bytes of runs are bounded.
proof fn lemma_runs_bounded(runs: Seq<(int, int)>)
    requires
        forall|i: int| 0 <= i < runs.len() ==> 0 <= (#[trigger] runs[i]).1 <= 10,
    ensures
        0 <= run_bytes(runs) <= runs.len() * 0x40_0000,
    decreases runs.len(),
{
    if runs.len() > 0 {
        let t = runs.drop_last();
        assert forall|i: int| 0 <= i < t.len() implies 0 <= (#[trigger] t[i]).1 <= 10 by {
            assert(t[i] == runs[i]);
        }
        lemma_runs_bounded(t);
        assert(0 <= runs[runs.len() - 1].1 <= 10);
        buddy::lemma_size(runs.last().1);
    }
}

/// Taking one run out.
proof fn lemma_runs_remove(runs: Seq<(int, int)>, i: int)
    requires
        0 <= i < runs.len(),
    ensures
        run_bytes(runs.remove(i)) == run_bytes(runs) - buddy::size(runs[i].1) * 4096,
    decreases runs.len(),
{
    let r = runs.remove(i);
    if i == runs.len() - 1 {
        assert(r =~= runs.drop_last());
    } else {
        lemma_runs_remove(runs.drop_last(), i);
        assert(r.drop_last() =~= runs.drop_last().remove(i));
        assert(r.last() == runs.last());
    }
}

impl Heap {
    /// Bounds that follow from the books.
    proof fn lemma_bounds(&self, mem: Memory)
        requires
            mem.wf(),
            self.blocks_ok(mem),
            self.lists_ok(mem),
        ensures
            0 <= small_bytes(self.all(), self.lists(), 9) <= claimed_bytes(self.all(), 9) <= 9
                * 0x2_0000_0000_0000,
            0 <= run_bytes(self.runs()) <= 0x1000_0000_0000_0000,
            forall|c: int| 0 <= c < 9 ==> (#[trigger] self.lists()[c]).len() <= self.all()[c].len(),
            forall|c: int, k: int|
                0 <= c < 9 && 0 <= k < self.all()[c].len() ==> 0 <= #[trigger] self.all()[c][k] < 0x40_0000_0000,
    {
        assert forall|c: int, k: int| 0 <= c < 9 && 0 <= k < self.all()[c].len() implies 0
            <= #[trigger] self.all()[c][k] < 0x40_0000_0000 by {
            mem.lemma_owns_frame(self.all()[c][k] / 4096);
        }
        assert forall|c: int| 0 <= c < 9 implies (#[trigger] self.lists()[c]).len() <= self.all()[c].len() by {
            assert(self.all()[c].no_duplicates());
            assert forall|k: int| 0 <= k < self.lists()[c].len() implies self.all()[c].contains(
                #[trigger] self.lists()[c][k],
            ) by {}
            lemma_no_longer(self.lists()[c], self.all()[c]);
        }
        assert forall|c: int| 0 <= c < 9 implies (#[trigger] self.all()[c]).len() <= 0x40_0000_0000 by {
            let l = self.all()[c];
            assert forall|k: int| 0 <= k < l.len() implies 0 <= #[trigger] l[k] < 0x40_0000_0000 by {
                assert(self.all()[c][k] == l[k]);
            }
            lemma_few(l);
        }
        lemma_sums_bounded(self.all(), self.lists(), 9);
        let ps = self.runs().map_values(|r: (int, int)| r.0);
        assert forall|i: int| 0 <= i < self.runs().len() implies 0 <= (#[trigger] self.runs()[i]).1 <= 10 by {
            mem.lemma_owns(self.runs()[i].0, self.runs()[i].1);
        }
        lemma_runs_bounded(self.runs());
        assert forall|k: int| 0 <= k < ps.len() implies 0 <= #[trigger] ps[k] < 0x40_0000_0000 by {
            mem.lemma_owns(self.runs()[k].0, self.runs()[k].1);
        }
        assert forall|i: int, j: int| 0 <= i < ps.len() && 0 <= j < ps.len() && i != j implies ps[i] != ps[j] by {
            assert(self.runs()[i].0 != self.runs()[j].0);
        }
        lemma_few(ps);
    }

    /// `self` is `h0` with frame `p` claimed for class `c` and its blocks in front
    /// of the list.
    pub open spec fn refilled(&self, h0: Heap, c: int, p: int) -> bool {
        &&& self.all() == h0.all().update(c, h0.all()[c] + carve(p, c))
        &&& self.lists() == h0.lists().update(c, carve(p, c) + h0.lists()[c])
        &&& self.runs() == h0.runs()
    }

    /// Claim a frame and thread it onto class `class`'s free list.
    #[verifier::rlimit(40)]
    fn refill(&mut self, mem: &mut Memory, class: usize) -> (r: bool)
        requires
            old(mem).wf(),
            old(self).wf(*old(mem)),
            class < NUM_CLASSES,
        ensures
            final(mem).wf(),
            final(self).wf(*final(mem)),
            r == (old(mem).free() > 0),
            !r ==> *final(self) == *old(self) && *final(mem) == *old(mem),
            r ==> exists|p: int|
                final(self).refilled(*old(self), class as int, p) && #[trigger] final(mem).granted(*old(mem), p, 0),
    {
        let ghost h0 = *self;
        let ghost m0 = *mem;
        let ghost c = class as int;
        let size: u64 = class_size(class);
        let ppn: PhysPageNum = match frame::alloc_frame(mem) {
            Some(ppn) => ppn,
            None => {
                return false;
            },
        };
        let ghost p = ppn.0 as int;
        let ghost m1 = *mem;
        let ghost n = class_count(c);
        let ghost s = class_bytes(c);
        let ghost cut = carve(p, c);
        let ghost l2 = cut + h0.lists@[c];
        proof {
            lemma_class(c);
            m1.lemma_grew_one(m0, p);
            assert(m1.owns(p, 0));
            m1.lemma_owns_frame(p);
            h0.lemma_bounds(m0);
            lemma_sums_update(h0.all@, h0.lists@, c, h0.all@[c] + cut, l2, 9);
            let a2 = h0.all@[c] + cut;
            let grown = (a2.len() - h0.all@[c].len()) * s;
            let same = ((a2.len() - l2.len()) - (h0.all@[c].len() - h0.lists@[c].len())) * s;
            assert(a2.len() - h0.all@[c].len() == n);
            assert(grown == n * s);
            assert((a2.len() - l2.len()) - (h0.all@[c].len() - h0.lists@[c].len()) == 0);
            assert(same == 0 * s);
            assert(0 * s == 0) by (nonlinear_arith);
        }
        self.reserved = self.reserved + PAGE_SIZE;
        // Build the list back-to-front so the lowest address ends up at the head.
        let base: u64 = ppn.0 * PAGE_SIZE + VIRT_OFFSET;
        let count: u64 = PAGE_SIZE / size;
        let mut head: u64 = self.free[class];
        let mut i: u64 = count;
        let mut off: u64 = PAGE_SIZE;
        proof {
            lemma_count_is(c, size as int);
        }
        while i > 0
            invariant
                0 <= c < 9,
                i <= count == n,
                n == class_count(c),
                s == class_bytes(c),
                size == s,
                8 <= s <= 2048,
                off == i * s,
                off <= 4096,
                p == ppn.0,
                p < 0x400_0000,
                base == p * 4096 + VIRT_OFFSET,
                cut == carve(p, c),
                l2 == cut + h0.lists@[c],
                mem.wf(),
                mem.allocator() == m1.allocator(),
                m1.used(p),
                head == link(l2, i as int),
                forall|q: int| m1.used(q) && q != p ==> #[trigger] mem.same_frame(m1, q),
                forall|j: int|
                    i <= j < n ==> #[trigger] mem.word(p, (j * s) / 8) == link(l2, j + 1),
            decreases i,
        {
            let ghost m2 = *mem;
            let ghost k = i - 1;
            proof {
                lemma_block_at(k, c);
                assert((k + 1) * s == i * s);
            }
            i = i - 1;
            off = off - size;
            mem.write(ppn, off / 8, head);
            proof {
                assert(l2[k] == cut[k]);
                assert(l2[k] == p * 4096 + k * s);
                assert forall|j: int| i <= j < n implies #[trigger] mem.word(p, (j * s) / 8) == link(l2, j + 1) by {
                    lemma_block_at(j, c);
                    if j > k {
                        lemma_blocks_differ(j, k, c);
                        assert(m2.word(p, (j * s) / 8) == link(l2, j + 1));
                    }
                }
                assert forall|q: int| m1.used(q) && q != p implies #[trigger] mem.same_frame(m1, q) by {
                    assert(m2.same_frame(m1, q));
                }
            }
            head = base + off;
        }
        self.free[class] = head;
        self.all = Ghost(h0.all@.update(c, h0.all@[c] + cut));
        self.lists = Ghost(h0.lists@.update(c, l2));
        proof {
            self.lemma_refilled(*mem, h0, m0, m1, c, p);
            assert forall|f: int| m0.used(f) implies #[trigger] mem.same_frame(m0, f) by {
                assert(m1.same_frame(m0, f));
                assert(mem.same_frame(m1, f));
            }
            assert(self.refilled(h0, c, p) && mem.granted(m0, p, 0));
        }
        true
    }

    /// `self` and `mem` are what serving `layout` makes of `h0` and `m0`, and `r`
    /// is the answer: a block of the smallest class that fits -- the first of its
    /// free list, which a fresh frame fills if it is empty -- or a run of frames.
    pub open spec fn served(&self, mem: Memory, h0: Heap, m0: Memory, layout: Layout, r: Option<u64>) -> bool {
        let c = class_of(layout.need(), 0);
        let order = buddy::order_of((layout.size + PAGE_SIZE - 1) / PAGE_SIZE as int, 0);
        if layout.need() <= MAX_CLASS_SIZE {
            if h0.lists()[c].len() > 0 {
                &&& r == Some((h0.lists()[c][0] + VIRT_OFFSET) as u64)
                &&& self.lists() == h0.lists().update(c, h0.lists()[c].drop_first())
                &&& self.all() == h0.all()
                &&& self.runs() == h0.runs()
                &&& mem == m0
            } else if m0.free() > 0 {
                exists|p: int|
                    {
                        &&& #[trigger] mem.granted(m0, p, 0)
                        &&& r == Some((p * 4096 + VIRT_OFFSET) as u64)
                        &&& self.lists() == h0.lists().update(c, carve(p, c).drop_first())
                        &&& self.all() == h0.all().update(c, h0.all()[c] + carve(p, c))
                        &&& self.runs() == h0.runs()
                    }
            } else {
                r is None && *self == h0 && mem == m0
            }
        } else if layout.align > PAGE_SIZE || order > MAX_ORDER || buddy::donor(m0.lists(), order)
            > MAX_ORDER {
            r is None && *self == h0 && mem == m0
        } else {
            exists|p: int|
                {
                    &&& #[trigger] mem.granted(m0, p, order)
                    &&& r == Some((p * 4096 + VIRT_OFFSET) as u64)
                    &&& self.lists() == h0.lists()
                    &&& self.all() == h0.all()
                    &&& self.runs() == h0.runs().push((p, order))
                }
        }
    }

    /// Serve a request: the address of a block that holds it, in the direct map.
    #[verifier::rlimit(60)]
    pub fn allocate(&mut self, mem: &mut Memory, layout: Layout) -> (r: Option<u64>)
        requires
            old(mem).wf(),
            old(self).wf(*old(mem)),
            layout.size + PAGE_SIZE - 1 <= u64::MAX,
        ensures
            final(mem).wf(),
            final(self).wf(*final(mem)),
            final(self).served(*final(mem), *old(self), *old(mem), layout, r),
    {
        let ghost h0 = *self;
        let ghost m0 = *mem;
        proof {
            h0.lemma_bounds(m0);
        }
        match class_for(layout) {
            None => {
                // Large path: whole frames straight from the buddy allocator.
                if layout.align > PAGE_SIZE {
                    return None;
                }
                let order: usize = frame::order_for((layout.size + (PAGE_SIZE - 1)) / PAGE_SIZE);
                match frame::alloc_frames(mem, order) {
                    None => None,
                    Some(ppn) => {
                        let ghost p = ppn.0 as int;
                        let bytes: u64 = buddy::block_frames(order) * PAGE_SIZE;
                        self.allocated = self.allocated + bytes;
                        self.reserved = self.reserved + bytes;
                        self.runs = Ghost(h0.runs@.push((p, order as int)));
                        proof {
                            assert(mem.owns(p, order as int));
                            mem.lemma_owns(p, order as int);
                            assert(self.runs@.drop_last() =~= h0.runs@);
                            self.lemma_more_runs(*mem, h0, m0, p, order as int);
                            assert(mem.granted(m0, p, order as int));
                        }
                        Some(ppn.0 * PAGE_SIZE + VIRT_OFFSET)
                    },
                }
            },
            Some(class) => {
                let ghost c = class as int;
                if self.free[class] == 0 {
                    proof {
                        assert(h0.free@[c] == link(h0.lists@[c], 0));
                        if h0.lists@[c].len() > 0 {
                            h0.lemma_listed(m0, c, 0);
                        }
                    }
                    if !self.refill(mem, class) {
                        return None;
                    }
                } else {
                    assert(h0.free@[c] == link(h0.lists@[c], 0));
                }
                let ghost h1 = *self;
                let ghost m1 = *mem;
                proof {
                    lemma_class(c);
                    if h0.lists@[c].len() == 0 {
                        let p = choose|p: int|
                            h1.refilled(h0, c, p) && #[trigger] m1.granted(m0, p, 0);
                        assert(h1.lists@[c] =~= carve(p, c));
                        assert(h1.lists@[c][0] == p * 4096 + 0 * class_bytes(c));
                        assert(0 * class_bytes(c) == 0) by (nonlinear_arith);
                    }
                    h1.lemma_bounds(m1);
                    h1.lemma_listed(m1, c, 0);
                    assert(h1.free@[c] == link(h1.lists@[c], 0));
                }
                let block: u64 = self.free[class];
                let ghost b = h1.lists@[c][0];
                let pa: u64 = block - VIRT_OFFSET;
                self.free[class] = mem.read(PhysPageNum(pa / PAGE_SIZE), (pa % PAGE_SIZE) / 8);
                proof {
                    lemma_sums_update(
                        h1.all@,
                        h1.lists@,
                        c,
                        h1.all@[c],
                        h1.lists@[c].drop_first(),
                        9,
                    );
                    let x = h1.all@[c].len() as int;
                    let y = h1.lists@[c].len() as int;
                    assert((x - (y - 1)) - (x - y) == 1);
                    assert(((x - (y - 1)) - (x - y)) * class_bytes(c) == class_bytes(c)) by (nonlinear_arith);
                    assert(h1.all@.update(c, h1.all@[c]) =~= h1.all@);
                }
                self.allocated = self.allocated + class_size(class);
                self.lists = Ghost(h1.lists@.update(c, h1.lists@[c].drop_first()));
                proof {
                    self.lemma_taken(m1, h1, c);
                    if h0.lists@[c].len() == 0 {
                        let p = choose|p: int|
                            h1.refilled(h0, c, p) && #[trigger] m1.granted(m0, p, 0);
                        assert(self.lists@ =~= h0.lists@.update(c, carve(p, c).drop_first()));
                    }
                }
                Some(block)
            },
        }
    }

    /// Was the block at direct-map address `ptr` handed out for `layout`?
    pub open spec fn holds(&self, ptr: u64, layout: Layout) -> bool {
        let a = ptr - VIRT_OFFSET;
        let order = buddy::order_of((layout.size + PAGE_SIZE - 1) / PAGE_SIZE as int, 0);
        &&& VIRT_OFFSET <= ptr
        &&& if layout.need() <= MAX_CLASS_SIZE {
            self.live(a, class_of(layout.need(), 0))
        } else {
            a % 4096 == 0 && self.runs().contains((a / 4096, order))
        }
    }

    /// Take back a block that was handed out for `layout`: onto the front of its
    /// class's free list, or to the buddy allocator.
    #[verifier::rlimit(60)]
    pub fn dealloc(&mut self, mem: &mut Memory, ptr: u64, layout: Layout)
        requires
            old(mem).wf(),
            old(self).wf(*old(mem)),
            layout.size + PAGE_SIZE - 1 <= u64::MAX,
            old(self).holds(ptr, layout),
        ensures
            final(mem).wf(),
            final(self).wf(*final(mem)),
            ({
                let a = ptr - VIRT_OFFSET;
                let c = class_of(layout.need(), 0);
                let order = buddy::order_of((layout.size + PAGE_SIZE - 1) / PAGE_SIZE as int, 0);
                &&& final(self).all() == old(self).all()
                &&& layout.need() <= MAX_CLASS_SIZE ==> {
                    &&& final(self).lists() == old(self).lists().update(c, seq![a] + old(self).lists()[c])
                    &&& final(self).runs() == old(self).runs()
                    &&& final(mem).allocator() == old(mem).allocator()
                    &&& forall|q: int, i: int|
                        old(mem).used(q) && 0 <= i < 512 && !(q == a / 4096 && i == (a % 4096) / 8)
                            ==> #[trigger] final(mem).word(q, i) == old(mem).word(q, i)
                }
                &&& layout.need() > MAX_CLASS_SIZE ==> {
                    &&& final(self).lists() == old(self).lists()
                    &&& final(self).runs() == old(self).runs().remove(
                        old(self).runs().index_of((a / 4096, order)),
                    )
                    &&& final(mem).reclaimed(*old(mem), a / 4096, order)
                }
            }),
    {
        let ghost h0 = *self;
        let ghost m0 = *mem;
        let ghost a = ptr - VIRT_OFFSET;
        proof {
            h0.lemma_bounds(m0);
        }
        let pa: u64 = ptr - VIRT_OFFSET;
        match class_for(layout) {
            None => {
                let order: usize = frame::order_for((layout.size + (PAGE_SIZE - 1)) / PAGE_SIZE);
                let ghost run = (a / 4096, order as int);
                let ghost i = h0.runs@.index_of(run);
                proof {
                    assert(h0.runs()[i] == run);
                    m0.lemma_owns(run.0, run.1);
                    lemma_runs_remove(h0.runs@, i);
                    assert forall|j: int| 0 <= j < h0.runs@.remove(i).len() implies 0 <= (
                    #[trigger] h0.runs@.remove(i)[j]).1 <= 10 by {
                        let o = if j < i {
                            j
                        } else {
                            j + 1
                        };
                        assert(h0.runs@.remove(i)[j] == h0.runs()[o]);
                        m0.lemma_owns(h0.runs()[o].0, h0.runs()[o].1);
                    }
                    lemma_runs_bounded(h0.runs@.remove(i));
                }
                let bytes: u64 = buddy::block_frames(order) * PAGE_SIZE;
                self.allocated = self.allocated - bytes;
                self.reserved = self.reserved - bytes;
                frame::free_frames(mem, PhysPageNum(pa / PAGE_SIZE), order);
                self.runs = Ghost(h0.runs@.remove(i));
                proof {
                    self.lemma_fewer_runs(*mem, h0, m0, i);
                }
            },
            Some(class) => {
                let ghost c = class as int;
                let ghost l0 = h0.lists@[c];
                proof {
                    h0.lemma_block(m0, a, c);
                    assert(h0.free@[c] == link(l0, 0));
                    let more = l0.push(a);
                    assert(h0.lists()[c].no_duplicates());
                    assert forall|k: int| 0 <= k < more.len() implies h0.all@[c].contains(#[trigger] more[k]) by {
                        if k < l0.len() {
                            assert(more[k] == h0.lists()[c][k]);
                        }
                    }
                    assert(h0.all()[c].no_duplicates());
                    lemma_no_longer(more, h0.all@[c]);
                    lemma_small_part(h0.all@, h0.lists@, c, 9);
                    lemma_class(c);
                    let x = h0.all@[c].len() as int;
                    let y = l0.len() as int;
                    assert(x - y >= 1);
                    assert((x - y) * class_bytes(c) >= class_bytes(c)) by (nonlinear_arith)
                        requires
                            x - y >= 1,
                            class_bytes(c) >= 8;
                    lemma_sums_update(h0.all@, h0.lists@, c, h0.all@[c], seq![a] + l0, 9);
                    assert(h0.all@.update(c, h0.all@[c]) =~= h0.all@);
                    assert((x - (y + 1)) - (x - y) == -1);
                    assert(((x - (y + 1)) - (x - y)) * class_bytes(c) == -class_bytes(c)) by (nonlinear_arith);
                    h0.lemma_bounds(m0);
                }
                let head: u64 = self.free[class];
                mem.write(PhysPageNum(pa / PAGE_SIZE), (pa % PAGE_SIZE) / 8, head);
                self.free[class] = ptr;
                self.allocated = self.allocated - class_size(class);
                self.lists = Ghost(h0.lists@.update(c, seq![a] + l0));
                proof {
                    self.lemma_returned(*mem, h0, m0, c, a);
                }
            },
        }
    }

    /// A block of the heap lies in a frame of the heap.
    proof fn lemma_block(&self, mem: Memory, a: int, c: int)
        requires
            mem.wf(),
            self.blocks_ok(mem),
            0 <= c < 9,
            self.all()[c].contains(a),
        ensures
            0 <= a < 0x40_0000_0000,
            a % 8 == 0,
            a % class_bytes(c) == 0,
            a % 4096 + class_bytes(c) <= 4096,
            mem.used(a / 4096),
    {
        let k = choose|k: int| 0 <= k < self.all()[c].len() && self.all()[c][k] == a;
        assert(self.all()[c][k] == a);
        mem.lemma_owns_frame(a / 4096);
        lemma_word_aligned(a, c);
        lemma_inside(a, c);
    }

    /// A block went back onto its list.
    proof fn lemma_returned(&self, mem: Memory, h0: Heap, m0: Memory, c: int, a: int)
        requires
            m0.wf(),
            h0.blocks_ok(m0),
            h0.lists_ok(m0),
            0 <= c < 9,
            h0.live(a, c),
            mem.allocator() == m0.allocator(),
            mem.word(a / 4096, (a % 4096) / 8) == link(h0.lists()[c], 0),
            forall|q: int, i: int|
                m0.used(q) && 0 <= i < 512 && !(q == a / 4096 && i == (a % 4096) / 8) ==> #[trigger] mem.word(q, i)
                    == m0.word(q, i),
            self.all() == h0.all(),
            self.runs() == h0.runs(),
            self.lists() == h0.lists().update(c, seq![a] + h0.lists()[c]),
        ensures
            self.blocks_ok(mem),
            self.lists_ok(mem),
    {
        let l0 = h0.lists()[c];
        let l2 = seq![a] + l0;
        h0.lemma_block(m0, a, c);
        assert forall|i: int| 0 <= i < self.runs().len() implies {
            &&& mem.owns((#[trigger] self.runs()[i]).0, self.runs()[i].1)
            &&& !self.cut(self.runs()[i].0)
        } by {
            assert(h0.runs()[i] == self.runs()[i]);
            if self.cut(self.runs()[i].0) {
                let (d, k) = choose|d: int, k: int|
                    0 <= d < 9 && 0 <= k < self.all()[d].len() && (#[trigger] self.all()[d][k]) / 4096
                        == self.runs()[i].0;
                assert(h0.all()[d][k] / 4096 == self.runs()[i].0);
                assert(h0.cut(self.runs()[i].0));
            }
        }
        assert forall|d: int, j: int| 0 <= d < 9 && 0 <= j < self.lists()[d].len() implies {
            &&& self.all()[d].contains(#[trigger] self.lists()[d][j])
            &&& mem.word(self.lists()[d][j] / 4096, (self.lists()[d][j] % 4096) / 8) == link(
                self.lists()[d],
                j + 1,
            )
        } by {
            let x = self.lists()[d][j];
            if d == c && j == 0 {
                assert(x == a);
                if l0.len() > 0 {
                    assert(l2[1] == l0[0]);
                }
                assert(link(l2, 1) == link(l0, 0));
            } else {
                let o = if d == c {
                    j - 1
                } else {
                    j
                };
                assert(x == h0.lists()[d][o]);
                h0.lemma_listed(m0, d, o);
                assert(h0.all()[d].contains(x));
                if x == a {
                    lemma_one_class(h0, m0, a, c, d);
                }
                assert(x != a);
                assert(mem.word(x / 4096, (x % 4096) / 8) == m0.word(x / 4096, (x % 4096) / 8));
                if d == c {
                    assert(link(l2, j + 1) == link(l0, o + 1)) by {
                        if j + 1 < l2.len() {
                            assert(l2[j + 1] == l0[o + 1]);
                        }
                    }
                }
            }
        }
        assert forall|d: int| 0 <= d < 9 implies (#[trigger] self.lists()[d]).no_duplicates() by {
            assert(h0.lists()[d].no_duplicates());
            if d == c {
                assert forall|x: int, y: int| 0 <= x < l2.len() && 0 <= y < l2.len() && x != y implies l2[x]
                    != l2[y] by {
                    if x > 0 {
                        assert(l2[x] == l0[x - 1]);
                    }
                    if y > 0 {
                        assert(l2[y] == l0[y - 1]);
                    }
                }
            }
        }
    }

    /// One large run less.
    proof fn lemma_fewer_runs(&self, mem: Memory, h0: Heap, m0: Memory, i: int)
        requires
            m0.wf(),
            mem.wf(),
            h0.blocks_ok(m0),
            h0.lists_ok(m0),
            0 <= i < h0.runs().len(),
            mem.reclaimed(m0, h0.runs()[i].0, h0.runs()[i].1),
            self.all() == h0.all(),
            self.lists() == h0.lists(),
            self.runs() == h0.runs().remove(i),
        ensures
            self.blocks_ok(mem),
            self.lists_ok(mem),
    {
        let p = h0.runs()[i].0;
        let order = h0.runs()[i].1;
        m0.lemma_owns(p, order);
        buddy::lemma_sizes();
        assert forall|c: int, k: int| 0 <= c < 9 && 0 <= k < self.all()[c].len() implies {
            &&& 0 <= #[trigger] self.all()[c][k]
            &&& self.all()[c][k] % class_bytes(c) == 0
            &&& mem.owns(self.all()[c][k] / 4096, 0)
            &&& mem.used(self.all()[c][k] / 4096)
        } by {
            assert(h0.all()[c][k] == self.all()[c][k]);
            let q = self.all()[c][k] / 4096;
            m0.lemma_owns_frame(q);
            assert(h0.cut(q));
            assert(q != p);
            assert(mem.owns(q, 0));
            mem.lemma_owns_frame(q);
        }
        assert forall|j: int| 0 <= j < self.runs().len() implies {
            &&& mem.owns((#[trigger] self.runs()[j]).0, self.runs()[j].1)
            &&& !self.cut(self.runs()[j].0)
        } by {
            let o = if j < i {
                j
            } else {
                j + 1
            };
            assert(self.runs()[j] == h0.runs()[o]);
            assert(h0.runs()[o].0 != h0.runs()[i].0);
            let q = self.runs()[j].0;
            if self.cut(q) {
                let (d, k) = choose|d: int, k: int|
                    0 <= d < 9 && 0 <= k < self.all()[d].len() && (#[trigger] self.all()[d][k]) / 4096 == q;
                assert(h0.all()[d][k] / 4096 == q);
                assert(h0.cut(q));
            }
        }
        assert forall|x: int, y: int|
            0 <= x < self.runs().len() && 0 <= y < self.runs().len() && x != y implies (
        #[trigger] self.runs()[x]).0 != (#[trigger] self.runs()[y]).0 by {
            let u = if x < i {
                x
            } else {
                x + 1
            };
            let v = if y < i {
                y
            } else {
                y + 1
            };
            assert(self.runs()[x] == h0.runs()[u]);
            assert(self.runs()[y] == h0.runs()[v]);
        }
        assert forall|d: int, j: int| 0 <= d < 9 && 0 <= j < self.lists()[d].len() implies {
            &&& self.all()[d].contains(#[trigger] self.lists()[d][j])
            &&& mem.word(self.lists()[d][j] / 4096, (self.lists()[d][j] % 4096) / 8) == link(
                self.lists()[d],
                j + 1,
            )
        } by {
            let x = self.lists()[d][j];
            assert(x == h0.lists()[d][j]);
            h0.lemma_listed(m0, d, j);
            let k = choose|k: int| 0 <= k < h0.all()[d].len() && h0.all()[d][k] == x;
            assert(self.all()[d][k] == x);
            assert(mem.used(x / 4096));
            assert(mem.same_frame(m0, x / 4096));
            assert(mem.word(x / 4096, (x % 4096) / 8) == m0.word(x / 4096, (x % 4096) / 8));
        }
        assert forall|d: int| 0 <= d < 9 implies (#[trigger] self.lists()[d]).no_duplicates() by {
            assert(h0.lists()[d].no_duplicates());
        }
        assert forall|d: int| 0 <= d < 9 implies (#[trigger] self.all()[d]).no_duplicates() by {
            assert(h0.all()[d].no_duplicates());
        }
    }

    /// A block on a free list lies in a frame of the heap.
    proof fn lemma_listed(&self, mem: Memory, c: int, j: int)
        requires
            mem.wf(),
            self.blocks_ok(mem),
            self.lists_ok(mem),
            0 <= c < 9,
            0 <= j < self.lists()[c].len(),
        ensures
            0 <= self.lists()[c][j] < 0x40_0000_0000,
            self.lists()[c][j] % 8 == 0,
            self.lists()[c][j] % class_bytes(c) == 0,
            mem.used(self.lists()[c][j] / 4096),
            mem.word(self.lists()[c][j] / 4096, (self.lists()[c][j] % 4096) / 8) == link(
                self.lists()[c],
                j + 1,
            ),
    {
        let x = self.lists()[c][j];
        assert(self.all()[c].contains(x));
        let k = choose|k: int| 0 <= k < self.all()[c].len() && self.all()[c][k] == x;
        assert(self.all()[c][k] == x);
        mem.lemma_owns_frame(x / 4096);
        lemma_class(c);
        lemma_word_aligned(x, c);
    }

    /// The first block of a list was taken off it.
    proof fn lemma_taken(&self, mem: Memory, h1: Heap, c: int)
        requires
            h1.blocks_ok(mem),
            h1.lists_ok(mem),
            0 <= c < 9,
            h1.lists()[c].len() > 0,
            self.all() == h1.all(),
            self.runs() == h1.runs(),
            self.lists() == h1.lists().update(c, h1.lists()[c].drop_first()),
        ensures
            self.blocks_ok(mem),
            self.lists_ok(mem),
            forall|j: int| link(self.lists()[c], j) == #[trigger] link(h1.lists()[c], j + 1) || j < 0,
    {
        let l1 = h1.lists()[c];
        assert forall|i: int| 0 <= i < self.runs().len() implies {
            &&& mem.owns((#[trigger] self.runs()[i]).0, self.runs()[i].1)
            &&& !self.cut(self.runs()[i].0)
        } by {
            assert(h1.runs()[i] == self.runs()[i]);
            if self.cut(self.runs()[i].0) {
                let (d, k) = choose|d: int, k: int|
                    0 <= d < 9 && 0 <= k < self.all()[d].len() && (#[trigger] self.all()[d][k]) / 4096
                        == self.runs()[i].0;
                assert(h1.all()[d][k] / 4096 == self.runs()[i].0);
                assert(h1.cut(self.runs()[i].0));
            }
        }
        assert forall|d: int, j: int| 0 <= d < 9 && 0 <= j < self.lists()[d].len() implies {
            &&& self.all()[d].contains(#[trigger] self.lists()[d][j])
            &&& mem.word(self.lists()[d][j] / 4096, (self.lists()[d][j] % 4096) / 8) == link(
                self.lists()[d],
                j + 1,
            )
        } by {
            if d == c {
                assert(self.lists()[d][j] == l1[j + 1]);
                assert(h1.lists()[c][j + 1] == l1[j + 1]);
            } else {
                assert(self.lists()[d][j] == h1.lists()[d][j]);
            }
        }
        assert forall|d: int| 0 <= d < 9 implies (#[trigger] self.lists()[d]).no_duplicates() by {
            assert(h1.lists()[d].no_duplicates());
        }
    }

    /// One more large run.
    proof fn lemma_more_runs(&self, mem: Memory, h0: Heap, m0: Memory, p: int, order: int)
        requires
            m0.wf(),
            mem.wf(),
            h0.blocks_ok(m0),
            h0.lists_ok(m0),
            mem.granted(m0, p, order),
            0 <= order <= 10,
            self.all() == h0.all(),
            self.lists() == h0.lists(),
            self.runs() == h0.runs().push((p, order)),
        ensures
            self.blocks_ok(mem),
            self.lists_ok(mem),
    {
        buddy::lemma_size(order);
        assert(!m0.used(p));
        assert forall|c: int, k: int| 0 <= c < 9 && 0 <= k < self.all()[c].len() implies {
            &&& 0 <= #[trigger] self.all()[c][k]
            &&& self.all()[c][k] % class_bytes(c) == 0
            &&& mem.owns(self.all()[c][k] / 4096, 0)
            &&& m0.used(self.all()[c][k] / 4096)
        } by {
            assert(h0.all()[c][k] == self.all()[c][k]);
            m0.lemma_owns_frame(self.all()[c][k] / 4096);
        }
        assert forall|i: int| 0 <= i < self.runs().len() implies {
            &&& mem.owns((#[trigger] self.runs()[i]).0, self.runs()[i].1)
            &&& !self.cut(self.runs()[i].0)
        } by {
            let q = self.runs()[i].0;
            if i < h0.runs().len() {
                assert(self.runs()[i] == h0.runs()[i]);
            }
            if self.cut(q) {
                let (d, k) = choose|d: int, k: int|
                    0 <= d < 9 && 0 <= k < self.all()[d].len() && (#[trigger] self.all()[d][k]) / 4096 == q;
                assert(h0.all()[d][k] / 4096 == q);
                assert(h0.cut(q));
            }
        }
        assert forall|i: int, j: int|
            0 <= i < self.runs().len() && 0 <= j < self.runs().len() && i != j implies (
        #[trigger] self.runs()[i]).0 != (#[trigger] self.runs()[j]).0 by {
            let n = h0.runs().len();
            if i < n {
                assert(self.runs()[i] == h0.runs()[i]);
                m0.lemma_owns(h0.runs()[i].0, h0.runs()[i].1);
                assert(m0.used(h0.runs()[i].0));
            }
            if j < n {
                assert(self.runs()[j] == h0.runs()[j]);
                m0.lemma_owns(h0.runs()[j].0, h0.runs()[j].1);
                assert(m0.used(h0.runs()[j].0));
            }
        }
        assert forall|d: int, j: int| 0 <= d < 9 && 0 <= j < self.lists()[d].len() implies {
            &&& self.all()[d].contains(#[trigger] self.lists()[d][j])
            &&& mem.word(self.lists()[d][j] / 4096, (self.lists()[d][j] % 4096) / 8) == link(
                self.lists()[d],
                j + 1,
            )
        } by {
            assert(self.lists()[d][j] == h0.lists()[d][j]);
            h0.lemma_listed(m0, d, j);
            let q = self.lists()[d][j] / 4096;
            assert(mem.same_frame(m0, q));
            assert(mem.word(q, (self.lists()[d][j] % 4096) / 8) == m0.word(q, (self.lists()[d][j] % 4096) / 8));
        }
        assert forall|d: int| 0 <= d < 9 implies (#[trigger] self.lists()[d]).no_duplicates() by {
            assert(h0.lists()[d].no_duplicates());
        }
        assert forall|d: int| 0 <= d < 9 implies (#[trigger] self.all()[d]).no_duplicates() by {
            assert(h0.all()[d].no_duplicates());
        }
    }

    proof fn lemma_refilled(&self, mem: Memory, h0: Heap, m0: Memory, m1: Memory, c: int, p: int)
        requires
            m0.wf(),
            mem.wf(),
            h0.wf(m0),
            0 <= c < 9,
            m1.grew(m0, Set::empty().insert(p)),
            m1.same_but(m0, Set::empty()),
            mem.allocator() == m1.allocator(),
            forall|q: int| m1.used(q) && q != p ==> #[trigger] mem.same_frame(m1, q),
            forall|j: int|
                0 <= j < class_count(c) ==> #[trigger] mem.word(p, (j * class_bytes(c)) / 8) == link(
                    carve(p, c) + h0.lists@[c],
                    j + 1,
                ),
            self.all@ == h0.all@.update(c, h0.all@[c] + carve(p, c)),
            self.lists@ == h0.lists@.update(c, carve(p, c) + h0.lists@[c]),
            self.runs@ == h0.runs@,
            0 <= p < 0x400_0000,
        ensures
            self.blocks_ok(mem),
            self.lists_ok(mem),
    {
        let cut = carve(p, c);
        let l0 = h0.lists@[c];
        let a0 = h0.all@[c];
        let l2 = cut + l0;
        let a2 = a0 + cut;
        lemma_class(c);
        assert(Set::<int>::empty().insert(p).contains(p));
        assert(!m0.used(p));
        assert forall|k: int| 0 <= k < cut.len() implies 0 <= #[trigger] cut[k] && cut[k] / 4096 == p && cut[k]
            % 4096 == k * class_bytes(c) && cut[k] % class_bytes(c) == 0 by {
            lemma_block_at(k, c);
            lemma_frame_multiple(p, c, k * class_bytes(c));
        }
        assert forall|d: int, k: int| 0 <= d < 9 && 0 <= k < h0.all@[d].len() implies (
        #[trigger] h0.all@[d][k]) / 4096 != p && m0.used(h0.all@[d][k] / 4096) by {
            assert(h0.all()[d][k] == h0.all@[d][k]);
            m0.lemma_owns_frame(h0.all@[d][k] / 4096);
        }
        assert forall|d: int, k: int| 0 <= d < 9 && 0 <= k < self.all()[d].len() implies {
            &&& 0 <= #[trigger] self.all()[d][k]
            &&& self.all()[d][k] % class_bytes(d) == 0
            &&& mem.owns(self.all()[d][k] / 4096, 0)
        } by {
            if d == c {
                if k < a0.len() {
                    assert(a2[k] == h0.all()[c][k]);
                } else {
                    assert(a2[k] == cut[k - a0.len()]);
                }
            } else {
                assert(self.all()[d][k] == h0.all()[d][k]);
            }
        }
        assert forall|d: int| 0 <= d < 9 implies (#[trigger] self.all()[d]).no_duplicates() by {
            assert(h0.all()[d].no_duplicates());
            if d == c {
                assert forall|x: int, y: int| 0 <= x < a2.len() && 0 <= y < a2.len() && x != y implies a2[x]
                    != a2[y] by {
                    if x < a0.len() && y < a0.len() {
                        assert(h0.all()[c][x] != h0.all()[c][y]);
                    } else if x >= a0.len() && y >= a0.len() {
                        let i = x - a0.len();
                        let j = y - a0.len();
                        assert(a2[x] == cut[i] && a2[y] == cut[j]);
                        lemma_block_at(i, c);
                        lemma_block_at(j, c);
                        lemma_blocks_differ(i, j, c);
                    } else {
                        let (o, w) = if x < a0.len() {
                            (x, y)
                        } else {
                            (y, x)
                        };
                        assert(h0.all@[c][o] / 4096 != p);
                        assert(cut[w - a0.len()] / 4096 == p);
                    }
                }
            }
        }
        assert forall|d: int, k: int, e: int, l: int|
            0 <= d < 9 && 0 <= k < self.all()[d].len() && 0 <= e < 9 && 0 <= l < self.all()[e].len() && (
            #[trigger] self.all()[d][k]) / 4096 == (#[trigger] self.all()[e][l]) / 4096 implies d == e by {
            let x = self.all()[d][k];
            let y = self.all()[e][l];
            let x_new = d == c && k >= a0.len();
            let y_new = e == c && l >= a0.len();
            if x_new {
                assert(x == cut[k - a0.len()]);
            } else {
                assert(x == h0.all@[d][k]);
                assert(x == h0.all()[d][k]);
            }
            if y_new {
                assert(y == cut[l - a0.len()]);
            } else {
                assert(y == h0.all@[e][l]);
                assert(y == h0.all()[e][l]);
            }
        }
        assert forall|i: int| 0 <= i < self.runs().len() implies {
            &&& mem.owns((#[trigger] self.runs()[i]).0, self.runs()[i].1)
            &&& !self.cut(self.runs()[i].0)
        } by {
            assert(h0.runs()[i] == self.runs()[i]);
            let q = self.runs()[i].0;
            m0.lemma_owns(q, self.runs()[i].1);
            assert(m0.used(q));
            if self.cut(q) {
                let (d, k) = choose|d: int, k: int|
                    0 <= d < 9 && 0 <= k < self.all()[d].len() && (#[trigger] self.all()[d][k]) / 4096 == q;
                if d == c && k >= a0.len() {
                    assert(self.all()[d][k] == cut[k - a0.len()]);
                } else {
                    assert(self.all()[d][k] == h0.all()[d][k]);
                    assert(h0.cut(q));
                }
            }
        }
        assert forall|i: int, j: int|
            0 <= i < self.runs().len() && 0 <= j < self.runs().len() && i != j implies (
        #[trigger] self.runs()[i]).0 != (#[trigger] self.runs()[j]).0 by {
            assert(h0.runs()[i].0 != h0.runs()[j].0);
        }
        assert forall|d: int, j: int| 0 <= d < 9 && 0 <= j < self.lists()[d].len() implies {
            &&& self.all()[d].contains(#[trigger] self.lists()[d][j])
            &&& mem.word(self.lists()[d][j] / 4096, (self.lists()[d][j] % 4096) / 8) == link(
                self.lists()[d],
                j + 1,
            )
        } by {
            let x = self.lists()[d][j];
            if d == c && j < cut.len() {
                assert(x == cut[j]);
                assert(a2[a0.len() + j] == x);
                assert(mem.word(p, (j * class_bytes(c)) / 8) == link(l2, j + 1));
            } else {
                let o = if d == c {
                    j - cut.len()
                } else {
                    j
                };
                assert(x == h0.lists()[d][o]);
                let k = choose|k: int| 0 <= k < h0.all()[d].len() && h0.all()[d][k] == x;
                assert(h0.all@[d][k] == x);
                assert(self.all()[d][k] == x);
                let q = x / 4096;
                assert(m1.same_frame(m0, q));
                assert(mem.same_frame(m1, q));
                assert(mem.word(q, (x % 4096) / 8) == m0.word(q, (x % 4096) / 8));
                if d == c {
                    assert(link(l2, j + 1) == link(l0, o + 1));
                }
            }
        }
        assert forall|d: int| 0 <= d < 9 implies (#[trigger] self.lists()[d]).no_duplicates() by {
            assert(h0.lists()[d].no_duplicates());
            if d == c {
                assert forall|x: int, y: int| 0 <= x < l2.len() && 0 <= y < l2.len() && x != y implies l2[x]
                    != l2[y] by {
                    let n = cut.len() as int;
                    if x < n && y < n {
                        lemma_block_at(x, c);
                        lemma_block_at(y, c);
                        lemma_blocks_differ(x, y, c);
                        assert(cut[x] != cut[y]);
                    } else if x >= n && y >= n {
                        assert(h0.lists()[c][x - n] != h0.lists()[c][y - n]);
                    } else {
                        let (o, w) = if x < n {
                            (y, x)
                        } else {
                            (x, y)
                        };
                        assert(l2[w] == cut[w]);
                        assert(l2[o] == h0.lists()[c][o - n]);
                        let k = choose|k: int| 0 <= k < h0.all()[c].len() && h0.all()[c][k] == l2[o];
                        assert(h0.all@[c][k] / 4096 != p);
                    }
                }
            }
        }
    }
}

/// A frame boundary is a multiple of every block size.
proof fn lemma_frame_multiple(p: int, c: int, o: int)
    requires
        0 <= c < 9,
        o % class_bytes(c) == 0,
    ensures
        (p * 4096 + o) % class_bytes(c) == 0,
{
    lemma_class(c);
    let s = class_bytes(c);
    let n = class_count(c);
    assert(p * 4096 == (p * n) * s) by (nonlinear_arith)
        requires
            n * s == 4096;
    vstd::arithmetic::div_mod::lemma_mod_multiples_basic(p * n, s);
    vstd::arithmetic::div_mod::lemma_add_mod_noop(p * 4096, o, s);
    vstd::arithmetic::div_mod::lemma_small_mod(0nat, s as nat);
}

/// Blocks start at words.
proof fn lemma_word_aligned(x: int, c: int)
    requires
        0 <= c < 9,
        x % class_bytes(c) == 0,
    ensures
        x % 8 == 0,
{
    lemma_class(c);
    let s = class_bytes(c);
    vstd::arithmetic::div_mod::lemma_fundamental_div_mod(x, s);
    let q = x / s;
    let m = s / 8;
    assert(x == (q * m) * 8) by (nonlinear_arith)
        requires
            x == s * q,
            s == 8 * m;
    vstd::arithmetic::div_mod::lemma_mod_multiples_basic(q * m, 8);
}

/// Different blocks of a frame start at different words.
proof fn lemma_blocks_differ(j: int, k: int, c: int)
    requires
        0 <= c < 9,
        0 <= j < class_count(c),
        0 <= k < class_count(c),
        j != k,
    ensures
        j * class_bytes(c) != k * class_bytes(c),
        (j * class_bytes(c)) / 8 != (k * class_bytes(c)) / 8,
{
    lemma_block_at(j, c);
    lemma_block_at(k, c);
    lemma_class(c);
    let s = class_bytes(c);
    assert(j * s != k * s) by (nonlinear_arith)
        requires
            j != k,
            s >= 8;
}

/// The number of blocks is what dividing says.
proof fn lemma_count_is(c: int, size: int)
    requires
        0 <= c < 9,
        size == class_bytes(c),
    ensures
        4096int / size == class_count(c),
        class_count(c) * size == 4096,
{
    lemma_class(c);
    vstd::arithmetic::div_mod::lemma_fundamental_div_mod_converse(4096, size, class_count(c), 0);
}

/// An address is a block of one class only.
proof fn lemma_one_class(h: Heap, mem: Memory, a: int, c: int, d: int)
    requires
        h.blocks_ok(mem),
        0 <= c < 9,
        0 <= d < 9,
        h.all()[c].contains(a),
        h.all()[d].contains(a),
    ensures
        c == d,
{
    let k = choose|k: int| 0 <= k < h.all()[c].len() && h.all()[c][k] == a;
    let l = choose|l: int| 0 <= l < h.all()[d].len() && h.all()[d][l] == a;
    assert(h.all()[c][k] / 4096 == h.all()[d][l] / 4096);
}

/// An aligned block does not cross the end of its frame.
proof fn lemma_inside(a: int, c: int)
    requires
        0 <= c < 9,
        0 <= a,
        a % class_bytes(c) == 0,
    ensures
        a % 4096 + class_bytes(c) <= 4096,
{
    lemma_class(c);
    let s = class_bytes(c);
    let n = class_count(c);
    let p = a / 4096;
    let r = a % 4096;
    lemma_frame_multiple(p, c, 0);
    vstd::arithmetic::div_mod::lemma_small_mod(0nat, s as nat);
    vstd::arithmetic::div_mod::lemma_sub_mod_noop(a, p * 4096, s);
    assert(r % s == 0);
    vstd::arithmetic::div_mod::lemma_fundamental_div_mod(r, s);
    let q = r / s;
    assert(q < n) by (nonlinear_arith)
        requires
            r == s * q,
            r < 4096,
            n * s == 4096,
            s > 0;
    assert(s * q + s <= n * s) by (nonlinear_arith)
        requires
            q + 1 <= n,
            s > 0;
}

/// A block that was just given back is the next one to be handed out to a
/// request of the same class.
pub proof fn law_heap_reuses_blocks(h0: Heap, h1: Heap, h2: Heap, m1: Memory, m2: Memory, ptr: u64, layout: Layout, again: Layout, r: Option<u64>)
    requires
        VIRT_OFFSET <= ptr,
        layout.need() <= MAX_CLASS_SIZE,
        again.need() <= MAX_CLASS_SIZE,
        class_of(again.need(), 0) == class_of(layout.need(), 0),
        h0.lists().len() == 9,
        0 <= class_of(layout.need(), 0) < 9,
        h1.lists() == h0.lists().update(
            class_of(layout.need(), 0),
            seq![ptr - VIRT_OFFSET] + h0.lists()[class_of(layout.need(), 0)],
        ),
        h2.served(m2, h1, m1, again, r),
    ensures
        r == Some(ptr),
        h2.lists() == h0.lists(),
{
    let c = class_of(layout.need(), 0);
    assert(h1.lists()[c][0] == ptr - VIRT_OFFSET);
    assert((seq![ptr - VIRT_OFFSET] + h0.lists()[c]).drop_first() =~= h0.lists()[c]);
    assert(h2.lists() =~= h0.lists());
}

/// Blocks that are handed out share no byte.
pub proof fn law_live_blocks_are_disjoint(h: Heap, mem: Memory, a: int, c: int, b: int, d: int, x: int)
    requires
        mem.wf(),
        h.wf(mem),
        h.live(a, c),
        h.live(b, d),
        a <= x < a + class_bytes(c),
        b <= x < b + class_bytes(d),
    ensures
        a == b,
        c == d,
{
    h.lemma_block(mem, a, c);
    h.lemma_block(mem, b, d);
    lemma_class(c);
    lemma_class(d);
    assert(a / 4096 == x / 4096 && b / 4096 == x / 4096);
    let k = choose|k: int| 0 <= k < h.all()[c].len() && h.all()[c][k] == a;
    let l = choose|l: int| 0 <= l < h.all()[d].len() && h.all()[d][l] == b;
    assert(h.all()[c][k] / 4096 == h.all()[d][l] / 4096);
    let s = class_bytes(c);
    vstd::arithmetic::div_mod::lemma_fundamental_div_mod(a, s);
    vstd::arithmetic::div_mod::lemma_fundamental_div_mod(b, s);
    let p = a / s;
    let q = b / s;
    assert(p == q) by (nonlinear_arith)
        requires
            a == s * p,
            b == s * q,
            s > 0,
            a <= x < a + s,
            b <= x < b + s;
}

/// Every address handed out to a request of up to a page's alignment is aligned
/// as asked.
pub proof fn law_allocations_are_aligned(h0: Heap, h1: Heap, m0: Memory, m1: Memory, layout: Layout, r: u64, k: int)
    requires
        m0.wf(),
        m1.wf(),
        h0.wf(m0),
        h1.wf(m1),
        0 <= k <= 12,
        layout.align == buddy::size(k),
        h1.served(m1, h0, m0, layout, Some(r)),
    ensures
        r as int % (layout.align as int) == 0,
{
    lemma_big_sizes();
    let c = class_of(layout.need(), 0);
    if layout.need() <= MAX_CLASS_SIZE {
        lemma_class_of(layout.need(), 0);
        lemma_classes();
        if h0.lists()[c].len() > 0 {
            h0.lemma_listed(m0, c, 0);
            let a = h0.lists()[c][0];
            lemma_power_divides(a, k, c + 3);
            lemma_power_divides(VIRT_OFFSET as int, k, 12);
            vstd::arithmetic::div_mod::lemma_add_mod_noop(a, VIRT_OFFSET as int, buddy::size(k));
            vstd::arithmetic::div_mod::lemma_small_mod(0nat, buddy::size(k) as nat);
        } else {
            let p = choose|p: int|
                {
                    &&& #[trigger] m1.granted(m0, p, 0)
                    &&& Some(r) == Some((p * 4096 + VIRT_OFFSET) as u64)
                    &&& h1.lists() == h0.lists().update(c, carve(p, c).drop_first())
                    &&& h1.all() == h0.all().update(c, h0.all()[c] + carve(p, c))
                    &&& h1.runs() == h0.runs()
                };
            assert(m1.owns(p, 0));
            m1.lemma_owns_frame(p);
            lemma_page_aligned(p, k);
        }
    } else {
        let order = buddy::order_of((layout.size + PAGE_SIZE - 1) / PAGE_SIZE as int, 0);
        let p = choose|p: int|
            {
                &&& #[trigger] m1.granted(m0, p, order)
                &&& Some(r) == Some((p * 4096 + VIRT_OFFSET) as u64)
                &&& h1.lists() == h0.lists()
                &&& h1.all() == h0.all()
                &&& h1.runs() == h0.runs().push((p, order))
            };
        assert(m1.owns(p, order));
        m1.lemma_owns(p, order);
        lemma_page_aligned(p, k);
    }
}

proof fn lemma_page_aligned(p: int, k: int)
    requires
        0 <= p,
        0 <= k <= 12,
    ensures
        (p * 4096 + VIRT_OFFSET) % buddy::size(k) == 0,
{
    lemma_big_sizes();
    buddy::lemma_sizes();
    let x = p * 4096 + VIRT_OFFSET;
    assert(x % 4096 == 0);
    lemma_power_divides(x, k, 12);
}

/// Sizes up to a page.
proof fn lemma_big_sizes()
    ensures
        buddy::size(10) == 1024,
        buddy::size(11) == 2048,
        buddy::size(12) == 4096,
{
    buddy::lemma_sizes();
    assert(buddy::size(11) == 2 * buddy::size(10));
    assert(buddy::size(12) == 2 * buddy::size(11));
}

/// The class chosen is large enough, and the first that is.
proof fn lemma_class_of(need: int, from: int)
    requires
        0 <= from <= 8,
        need <= 2048,
    ensures
        from <= class_of(need, from) <= 8,
        class_bytes(class_of(need, from)) >= need,
        class_of(need, from) > from ==> class_bytes(class_of(need, from) - 1) < need,
    decreases 9 - from,
{
    lemma_classes();
    if class_bytes(from) < need {
        lemma_class_of(need, from + 1);
    }
}

/// A multiple of a power of two is one of every smaller power.
proof fn lemma_power_divides(x: int, k: int, l: int)
    requires
        0 <= k <= 12,
        0 <= l <= 12,
        x % buddy::size(l) == 0,
        buddy::size(k) <= buddy::size(l),
    ensures
        x % buddy::size(k) == 0,
    decreases l,
{
    buddy::lemma_sizes();
    lemma_big_sizes();
    if k < l {
        let h = buddy::size(l - 1);
        assert(buddy::size(l) == 2 * h);
        vstd::arithmetic::div_mod::lemma_fundamental_div_mod(x, 2 * h);
        let q = x / (2 * h);
        assert(x == (2 * q) * h) by (nonlinear_arith)
            requires
                x == (2 * h) * q;
        vstd::arithmetic::div_mod::lemma_mod_multiples_basic(2 * q, h);
        lemma_power_divides(x, k, l - 1);
    }
}

/// The classes are the powers of two from 8 to 2048 bytes.
pub proof fn law_classes_double()
    ensures
        class_bytes(0) == 8,
        class_bytes(1) == 16,
        class_bytes(2) == 32,
        class_bytes(3) == 64,
        class_bytes(4) == 128,
        class_bytes(5) == 256,
        class_bytes(6) == 512,
        class_bytes(7) == 1024,
        class_bytes(8) == 2048,
        forall|c: int| 0 <= c < 9 ==> #[trigger] class_bytes(c) * class_count(c) == 4096,
{
    lemma_classes();
    assert forall|c: int| 0 <= c < 9 implies #[trigger] class_bytes(c) * class_count(c) == 4096 by {
        lemma_class(c);
        assert(class_bytes(c) * class_count(c) == class_count(c) * class_bytes(c)) by (nonlinear_arith);
    }
}

/// An allocation gets a block that is large enough and no larger than it has to be, and
/// that is its own: it was not handed out before, it is now, and every other one still is.
pub proof fn law_allocation_gets_a_block_of_its_own(h0: Heap, h1: Heap, m0: Memory, m1: Memory, layout: Layout, r: u64)
    requires
        m0.wf(),
        m1.wf(),
        h0.wf(m0),
        h1.wf(m1),
        h1.served(m1, h0, m0, layout, Some(r)),
        layout.size <= 2048,
        layout.align <= 2048,
    ensures
        exists|c: int|
            {
                &&& 0 <= c < 9
                &&& #[trigger] class_bytes(c) >= layout.size
                &&& class_bytes(c) >= layout.align
                &&& c > 0 ==> class_bytes(c) < 2 * layout.size || class_bytes(c) < 2 * layout.align
                &&& !h0.live(r - 0xffff_ffc0_0000_0000, c)
                &&& h1.live(r - 0xffff_ffc0_0000_0000, c)
            },
        forall|a: int, c: int| #[trigger] h0.live(a, c) ==> h1.live(a, c),
        h1.runs() == h0.runs(),
{
    let c = class_of(layout.need(), 0);
    lemma_class_of(layout.need(), 0);
    lemma_classes();
    law_classes_double();
    let a = r - VIRT_OFFSET;
    assert(c > 0 ==> class_bytes(c) == 2 * class_bytes(c - 1));
    if h0.lists()[c].len() > 0 {
        h0.lemma_listed(m0, c, 0);
        let l = h0.lists()[c];
        assert(l[0] == a && l.contains(a));
        assert(h1.lists()[c] == l.drop_first());
        assert(!l.drop_first().contains(a));
        assert forall|b: int, d: int| #[trigger] h0.live(b, d) implies h1.live(b, d) by {
            if d == c && l.drop_first().contains(b) {
                let j = choose|j: int| 0 <= j < l.drop_first().len() && l.drop_first()[j] == b;
                assert(l[j + 1] == b);
            }
        }
        assert(class_bytes(c) >= layout.size && !h0.live(a, c) && h1.live(a, c));
    } else {
        let p = choose|p: int|
            {
                &&& #[trigger] m1.granted(m0, p, 0)
                &&& Some(r) == Some((p * 4096 + VIRT_OFFSET) as u64)
                &&& h1.lists() == h0.lists().update(c, carve(p, c).drop_first())
                &&& h1.all() == h0.all().update(c, h0.all()[c] + carve(p, c))
                &&& h1.runs() == h0.runs()
            };
        lemma_fresh_page(h0, h1, m0, m1, p, c);
        assert(m1.owns(p, 0));
        m1.lemma_owns_frame(p);
        assert(a == p * 4096);
        assert(class_bytes(c) >= layout.size && !h0.live(a, c) && h1.live(a, c));
    }
}

/// The first block of a page that was just cut up is handed out, and nobody had it.
proof fn lemma_fresh_page(h0: Heap, h1: Heap, m0: Memory, m1: Memory, p: int, c: int)
    requires
        h0.wf(m0),
        h1.wf(m1),
        0 <= c < 9,
        h1.lists() == h0.lists().update(c, carve(p, c).drop_first()),
        h1.all() == h0.all().update(c, h0.all()[c] + carve(p, c)),
    ensures
        !h0.live(p * 4096, c),
        h1.live(p * 4096, c),
        forall|b: int, d: int| #[trigger] h0.live(b, d) ==> h1.live(b, d),
{
    law_classes_double();
    lemma_classes();
    let a = p * 4096;
    let cut = carve(p, c);
    let whole = h0.all()[c] + cut;
    let n = h0.all()[c].len() as int;
    lemma_class(c);
    assert(cut[0] == a);
    assert(whole.no_duplicates()) by {
        assert(h1.all()[c].no_duplicates());
    }
    assert(whole[n] == a);
    if h0.all()[c].contains(a) {
        let k = choose|k: int| 0 <= k < n && h0.all()[c][k] == a;
        assert(whole[k] == whole[n]);
    }
    assert forall|b: int| #[trigger] cut.drop_first().contains(b) implies b != a && !h0.all()[c].contains(b) by {
        let j = choose|j: int| 0 <= j < cut.drop_first().len() && cut.drop_first()[j] == b;
        assert(whole[n + j + 1] == b);
        if h0.all()[c].contains(b) {
            let k = choose|k: int| 0 <= k < n && h0.all()[c][k] == b;
            assert(whole[k] == b);
        }
    }
    assert(whole.contains(a));
    assert forall|b: int, d: int| #[trigger] h0.live(b, d) implies h1.live(b, d) by {
        if d == c {
            let k = choose|k: int| 0 <= k < n && h0.all()[c][k] == b;
            assert(whole[k] == b);
            if h1.lists()[c].contains(b) {
                assert(cut.drop_first().contains(b));
            }
        }
    }
}

/// A small request is only turned down when no frame is left, and then nothing changes. A
/// large one that is granted gets whole frames in a row that nobody had, from the start
/// of one, and enough of them.
pub proof fn law_requests_are_met(h0: Heap, h1: Heap, m0: Memory, m1: Memory, layout: Layout, r: Option<u64>)
    requires
        m0.wf(),
        m1.wf(),
        h0.wf(m0),
        h1.served(m1, h0, m0, layout, r),
    ensures
        layout.size <= 2048 && layout.align <= 2048 && r is None ==> m0.free() <= 0,
        r is None ==> h1 == h0 && m1 == m0,
        (layout.size > 2048 || layout.align > 2048) && r is Some ==> exists|p: int, order: int|
            {
                &&& #[trigger] m1.owns(p, order)
                &&& r == Some((p * 4096 + 0xffff_ffc0_0000_0000) as u64)
                &&& 0 <= order <= 10
                &&& buddy::size(order) * 4096 >= layout.size
                &&& order > 0 ==> buddy::size(order - 1) * 4096 < layout.size
                &&& forall|f: int| p <= f < p + buddy::size(order) ==> !#[trigger] m0.used(f) && m1.used(f)
            },
{
    if layout.need() > MAX_CLASS_SIZE && r is Some {
        let count = (layout.size + PAGE_SIZE - 1) / PAGE_SIZE as int;
        let order = buddy::order_of(count, 0);
        lemma_order_of(count, 0);
        let p = choose|p: int|
            {
                &&& #[trigger] m1.granted(m0, p, order)
                &&& r == Some((p * 4096 + VIRT_OFFSET) as u64)
                &&& h1.lists() == h0.lists()
                &&& h1.all() == h0.all()
                &&& h1.runs() == h0.runs().push((p, order))
            };
        assert(m1.owns(p, order));
        assert forall|f: int| p <= f < p + buddy::size(order) implies !#[trigger] m0.used(f) && m1.used(f) by {}
    }
}

/// The order chosen is the least that is large enough.
proof fn lemma_order_of(count: int, from: int)
    requires
        0 <= from <= 64,
    ensures
        from <= buddy::order_of(count, from) <= 64,
        buddy::order_of(count, from) < 64 ==> buddy::size(buddy::order_of(count, from)) >= count,
        buddy::order_of(count, from) > from ==> buddy::size(buddy::order_of(count, from) - 1) < count,
    decreases 64 - from,
{
    if from < 64 && buddy::size(from) < count {
        lemma_order_of(count, from + 1);
    }
}

} // verus!
