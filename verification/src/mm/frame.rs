//! Physical memory and the frames handed out of it.
//!
//! [`Memory`] is DRAM together with the buddy allocator that shares it out.
//! What is handed out is a run of `2^order` frames; a [`Frame`] stands for such
//! a run and gives it back when released.

use vstd::prelude::*;
use crate::bits;
use crate::config::{DIRECT_MAP_PAGES, PAGE_SIZE};
use crate::mm;
use crate::mm::addr::{self, PhysAddr, PhysPageNum};
use crate::mm::buddy;
use crate::mm::dram::{Dram, FRAME_WORDS};

pub use crate::mm::buddy::{BuddyAllocator, MAX_ORDER};

verus! {

/// DRAM and the allocator of its frames.
pub struct Memory {
    dram: Dram,
    allocator: BuddyAllocator,
}

impl Memory {
    /// The allocator.
    pub closed spec fn allocator(&self) -> BuddyAllocator {
        self.allocator
    }

    /// The contents of DRAM.
    pub closed spec fn dram(&self) -> Dram {
        self.dram
    }

    /// The allocator's books are consistent.
    pub open spec fn wf(&self) -> bool {
        self.allocator().wf(self.dram())
    }

    /// Is the run of `2^order` frames at frame `p` one that was handed out?
    #[verifier::inline]
    pub open spec fn owns(&self, p: int, order: int) -> bool {
        self.allocator().owns(p, order)
    }

    /// Is frame `p` part of a run that was handed out?
    #[verifier::inline]
    pub open spec fn used(&self, p: int) -> bool {
        self.allocator().used(p)
    }

    /// Word `i` of frame `p`.
    #[verifier::inline]
    pub open spec fn word(&self, p: int, i: int) -> u64 {
        self.dram().word(p, i)
    }

    /// Byte `i` of frame `p`.
    pub open spec fn byte(&self, p: int, i: int) -> u8 {
        bits::byte_of(self.word(p, i / 8), (i % 8) as u64)
    }

    /// Number of frames under management.
    pub open spec fn total(&self) -> int {
        self.allocator().spec_frames()
    }

    /// Number of frames that can still be handed out.
    pub open spec fn free(&self) -> int {
        self.allocator().spec_frames() - self.allocator().spec_used()
    }

    /// The free list of each order.
    pub open spec fn lists(&self) -> Seq<Seq<int>> {
        self.allocator().lists()
    }

    /// Frame `p` holds the same in both memories.
    pub open spec fn same_frame(&self, other: Memory, p: int) -> bool {
        forall|i: int| 0 <= i < 512 ==> #[trigger] self.word(p, i) == other.word(p, i)
    }

    /// Every word of frame `p` is zero.
    pub open spec fn zeroed(&self, p: int) -> bool {
        forall|i: int| 0 <= i < 512 ==> #[trigger] self.word(p, i) == 0
    }

    /// `self` is `before` with the run of `2^order` frames at `p` handed out:
    /// they were free, nothing else changed hands, and every frame that was in
    /// use holds what it held.
    pub open spec fn granted(&self, before: Memory, p: int, order: int) -> bool {
        let n = buddy::size(order);
        &&& p % n == 0
        &&& p == before.allocator().spec_base() + before.lists()[buddy::donor(before.lists(), order)][0]
        &&& self.lists() == buddy::served(before.lists(), order)
        &&& self.allocator().spec_base() == before.allocator().spec_base()
        &&& self.total() == before.total()
        &&& self.free() == before.free() - n
        &&& forall|f: int| p <= f < p + n ==> !#[trigger] before.used(f)
        &&& forall|f: int| #[trigger] self.used(f) <==> before.used(f) || p <= f < p + n
        &&& forall|q: int, l: int|
            #[trigger] self.owns(q, l) <==> before.owns(q, l) || (q == p && l == order)
        &&& forall|f: int| before.used(f) ==> #[trigger] self.same_frame(before, f)
    }

    /// `self` is `before` with the run of `2^order` frames at `p` given back.
    pub open spec fn reclaimed(&self, before: Memory, p: int, order: int) -> bool {
        let n = buddy::size(order);
        &&& self.lists() == buddy::returned(
            before.lists(),
            p - before.allocator().spec_base(),
            order,
        )
        &&& self.allocator().spec_base() == before.allocator().spec_base()
        &&& self.total() == before.total()
        &&& self.free() == before.free() + n
        &&& forall|f: int| #[trigger] self.used(f) <==> before.used(f) && !(p <= f < p + n)
        &&& forall|q: int, l: int|
            #[trigger] self.owns(q, l) <==> before.owns(q, l) && !(q == p && l == order)
        &&& forall|f: int| self.used(f) ==> #[trigger] self.same_frame(before, f)
    }

    /// `self` is `before` with the single frames `added` handed out besides. Says
    /// nothing of what frames hold.
    pub open spec fn grew(&self, before: Memory, added: Set<int>) -> bool {
        &&& added.finite()
        &&& self.allocator().spec_base() == before.allocator().spec_base()
        &&& self.total() == before.total()
        &&& self.free() == before.free() - added.len()
        &&& forall|f: int| #[trigger] added.contains(f) ==> !before.used(f)
        &&& forall|f: int| #[trigger] self.used(f) <==> before.used(f) || added.contains(f)
        &&& forall|q: int, l: int|
            #[trigger] self.owns(q, l) <==> before.owns(q, l) || (l == 0 && added.contains(q))
    }

    /// `self` is `before` with the single frames `removed` given back. Says
    /// nothing of what frames hold.
    pub open spec fn shrank(&self, before: Memory, removed: Set<int>) -> bool {
        &&& removed.finite()
        &&& self.allocator().spec_base() == before.allocator().spec_base()
        &&& self.total() == before.total()
        &&& self.free() == before.free() + removed.len()
        &&& forall|f: int| #[trigger] removed.contains(f) ==> before.owns(f, 0)
        &&& forall|f: int| #[trigger] self.used(f) <==> before.used(f) && !removed.contains(f)
        &&& forall|q: int, l: int|
            #[trigger] self.owns(q, l) <==> before.owns(q, l) && !(l == 0 && removed.contains(q))
    }

    /// Every frame in use, but for those in `touched`, holds what it held.
    pub open spec fn same_but(&self, before: Memory, touched: Set<int>) -> bool {
        forall|f: int|
            before.used(f) && self.used(f) && !touched.contains(f) ==> #[trigger] self.same_frame(before, f)
    }

    /// Since `before`, single frames were requested one after the other, and none
    /// was given back: the free lists are what that leaves of them.
    #[verifier::opaque]
    pub open spec fn drew(&self, before: Memory) -> bool {
        &&& self.free() <= before.free()
        &&& self.lists() == drawn(before.lists(), before.free() - self.free())
    }

    /// No request at all.
    pub proof fn lemma_drew_none(&self, before: Memory)
        requires
            self.allocator() == before.allocator(),
        ensures
            self.drew(before),
    {
        reveal(Memory::drew);
    }

    /// One request.
    pub proof fn lemma_drew_one(&self, before: Memory, p: int)
        requires
            self.granted(before, p, 0),
        ensures
            self.drew(before),
    {
        reveal(Memory::drew);
        buddy::lemma_sizes();
        reveal_with_fuel(drawn, 2);
    }

    /// Some requests after some others.
    pub proof fn lemma_drew_twice(&self, mid: Memory, before: Memory)
        requires
            mid.drew(before),
            self.drew(mid),
        ensures
            self.drew(before),
    {
        reveal(Memory::drew);
        lemma_drawn(before.lists(), before.free() - mid.free(), mid.free() - self.free());
    }

    /// Whoever holds frames other than `mine` holds them still, and finds in them
    /// what they held.
    pub open spec fn keeps(&self, before: Memory, mine: Set<int>) -> bool {
        &&& forall|q: int, l: int|
            before.owns(q, l) && !mine.contains(q) ==> #[trigger] self.owns(q, l)
        &&& forall|f: int| before.used(f) && !mine.contains(f) ==> #[trigger] self.used(f)
        &&& forall|f: int|
            before.used(f) && !mine.contains(f) ==> #[trigger] self.same_frame(before, f)
    }

    /// `self` is `before` with `frames` handed out besides; all else is as it was.
    pub open spec fn took(&self, before: Memory, frames: Set<int>) -> bool {
        &&& frames.finite()
        &&& self.free() == before.free() - frames.len()
        &&& forall|f: int| #[trigger] frames.contains(f) ==> !before.used(f)
        &&& forall|f: int| #[trigger] self.used(f) <==> before.used(f) || frames.contains(f)
        &&& self.keeps(before, Set::empty())
    }

    /// `self` is `before` with `frames` given back; all else is as it was.
    pub open spec fn gave(&self, before: Memory, frames: Set<int>) -> bool {
        &&& frames.finite()
        &&& self.free() == before.free() + frames.len()
        &&& forall|f: int| #[trigger] frames.contains(f) ==> before.used(f)
        &&& forall|f: int| #[trigger] self.used(f) <==> before.used(f) && !frames.contains(f)
        &&& self.keeps(before, frames)
    }

    /// Single frames were handed out.
    pub proof fn lemma_took_grew(&self, before: Memory, frames: Set<int>)
        requires
            self.grew(before, frames),
            self.same_but(before, Set::empty()),
        ensures
            self.took(before, frames),
    {
    }

    /// A run was handed out.
    pub proof fn lemma_took_run(&self, before: Memory, p: int, order: int)
        requires
            0 <= order <= 10,
            self.granted(before, p, order),
        ensures
            self.took(before, run(p, order)),
    {
        buddy::lemma_sizes();
        vstd::set_lib::lemma_int_range(p, p + buddy::size(order));
    }

    /// Some frames were handed out after some others.
    pub proof fn lemma_took_twice(&self, mid: Memory, before: Memory, a: Set<int>, b: Set<int>)
        requires
            mid.took(before, a),
            self.took(mid, b),
        ensures
            self.took(before, a.union(b)),
            a.disjoint(b),
    {
        assert forall|f: int| a.contains(f) implies !b.contains(f) by {
            if b.contains(f) {
                assert(!mid.used(f));
            }
        }
        vstd::set_lib::lemma_set_disjoint_lens(a, b);
        self.lemma_keeps_twice(mid, before, Set::empty(), Set::empty());
        assert(Set::<int>::empty().union(Set::empty()) =~= Set::<int>::empty());
        assert forall|f: int| #[trigger] a.union(b).contains(f) implies !before.used(f) by {
            if b.contains(f) {
                assert(!mid.used(f));
            }
        }
        assert forall|f: int| #[trigger] self.used(f) <==> before.used(f) || a.union(b).contains(f) by {
            assert(mid.used(f) <==> before.used(f) || a.contains(f));
        }
    }

    /// Single frames were given back.
    pub proof fn lemma_gave_shrank(&self, before: Memory, frames: Set<int>)
        requires
            before.wf(),
            self.shrank(before, frames),
            self.same_but(before, Set::empty()),
        ensures
            self.gave(before, frames),
    {
        assert forall|f: int| #[trigger] frames.contains(f) implies before.used(f) by {
            before.lemma_owns_frame(f);
        }
    }

    /// A run was given back.
    pub proof fn lemma_gave_run(&self, before: Memory, p: int, order: int)
        requires
            before.wf(),
            before.owns(p, order),
            self.reclaimed(before, p, order),
        ensures
            self.gave(before, run(p, order)),
    {
        before.lemma_owns(p, order);
        vstd::set_lib::lemma_int_range(p, p + buddy::size(order));
        assert forall|f: int| #[trigger] run(p, order).contains(f) implies before.used(f) by {}
        assert forall|f: int| before.used(f) && !run(p, order).contains(f) implies #[trigger] self.same_frame(
            before,
            f,
        ) by {
            assert(self.used(f));
        }
    }

    /// Some frames were given back after some others.
    pub proof fn lemma_gave_twice(&self, mid: Memory, before: Memory, a: Set<int>, b: Set<int>)
        requires
            mid.gave(before, a),
            self.gave(mid, b),
        ensures
            self.gave(before, a.union(b)),
            a.disjoint(b),
    {
        assert forall|f: int| a.contains(f) implies !b.contains(f) by {
            if b.contains(f) {
                assert(mid.used(f));
            }
        }
        vstd::set_lib::lemma_set_disjoint_lens(a, b);
        self.lemma_keeps_twice(mid, before, a, b);
        assert forall|f: int| #[trigger] self.used(f) <==> before.used(f) && !a.union(b).contains(f) by {
            assert(mid.used(f) <==> before.used(f) && !a.contains(f));
        }
        assert forall|f: int| #[trigger] a.union(b).contains(f) implies before.used(f) by {
            if b.contains(f) {
                assert(mid.used(f));
            }
        }
    }

    /// Giving back what was handed out leaves what there was.
    pub proof fn lemma_took_gave(&self, mid: Memory, before: Memory, a: Set<int>)
        requires
            before.wf(),
            mid.took(before, a),
            self.gave(mid, a),
        ensures
            self.took(before, Set::empty()),
    {
        assert forall|f: int| #[trigger] self.used(f) <==> before.used(f) by {
            assert(mid.used(f) <==> before.used(f) || a.contains(f));
        }
        assert forall|q: int, l: int| before.owns(q, l) implies #[trigger] self.owns(q, l) by {
            before.lemma_owns(q, l);
            assert(before.used(q));
            assert(mid.owns(q, l));
        }
        assert forall|f: int| before.used(f) implies #[trigger] self.same_frame(before, f) by {
            assert(mid.same_frame(before, f));
            assert(!a.contains(f));
            assert(self.same_frame(mid, f));
        }
    }

    /// What is kept twice is kept.
    pub proof fn lemma_keeps_twice(&self, mid: Memory, before: Memory, a: Set<int>, b: Set<int>)
        requires
            mid.keeps(before, a),
            self.keeps(mid, b),
        ensures
            self.keeps(before, a.union(b)),
    {
        let c = a.union(b);
        assert forall|q: int, l: int| before.owns(q, l) && !c.contains(q) implies #[trigger] self.owns(q, l) by {
            assert(mid.owns(q, l));
        }
        assert forall|f: int| before.used(f) && !c.contains(f) implies #[trigger] self.used(f) by {
            assert(mid.used(f));
        }
        assert forall|f: int| before.used(f) && !c.contains(f) implies #[trigger] self.same_frame(before, f) by {
            assert(mid.used(f));
            assert(mid.same_frame(before, f));
            assert(self.same_frame(mid, f));
        }
    }

    /// Nothing handed out or given back.
    pub proof fn lemma_grew_none(&self, before: Memory)
        requires
            self.allocator() == before.allocator(),
        ensures
            self.grew(before, Set::empty()),
            self.shrank(before, Set::empty()),
    {
    }

    /// A single frame handed out.
    pub proof fn lemma_grew_one(&self, before: Memory, p: int)
        requires
            self.granted(before, p, 0),
        ensures
            self.grew(before, Set::empty().insert(p)),
            self.same_but(before, Set::empty()),
    {
        buddy::lemma_sizes();
    }

    /// A single frame given back.
    pub proof fn lemma_shrank_one(&self, before: Memory, p: int)
        requires
            before.owns(p, 0),
            self.reclaimed(before, p, 0),
        ensures
            self.shrank(before, Set::empty().insert(p)),
            self.same_but(before, Set::empty()),
    {
        buddy::lemma_sizes();
    }

    /// Handing out in two steps.
    pub proof fn lemma_grew_twice(&self, mid: Memory, before: Memory, a: Set<int>, b: Set<int>)
        requires
            mid.grew(before, a),
            self.grew(mid, b),
        ensures
            self.grew(before, a.union(b)),
            a.disjoint(b),
    {
        assert forall|f: int| a.contains(f) implies !b.contains(f) by {
            assert(mid.used(f));
        }
        vstd::set_lib::lemma_set_disjoint_lens(a, b);
    }

    /// Giving back in two steps.
    pub proof fn lemma_shrank_twice(&self, mid: Memory, before: Memory, a: Set<int>, b: Set<int>)
        requires
            mid.shrank(before, a),
            self.shrank(mid, b),
        ensures
            self.shrank(before, a.union(b)),
            a.disjoint(b),
    {
        assert forall|f: int| a.contains(f) implies !b.contains(f) by {
            if b.contains(f) {
                assert(mid.owns(f, 0));
            }
        }
        vstd::set_lib::lemma_set_disjoint_lens(a, b);
    }

    /// Handing out some frames and giving some of them back.
    pub proof fn lemma_grew_shrank(&self, mid: Memory, before: Memory, a: Set<int>, b: Set<int>)
        requires
            before.wf(),
            mid.grew(before, a),
            self.shrank(mid, b),
            b.subset_of(a),
        ensures
            self.grew(before, a.difference(b)),
    {
        let c = a.difference(b);
        assert(c.union(b) =~= a);
        vstd::set_lib::lemma_set_disjoint_lens(c, b);
        assert forall|q: int, l: int| #[trigger] self.owns(q, l) <==> before.owns(q, l) || (l == 0
            && c.contains(q)) by {
            if b.contains(q) && before.owns(q, l) {
                before.lemma_owns(q, l);
                assert(before.used(q));
            }
            assert(mid.owns(q, l) <==> before.owns(q, l) || (l == 0 && a.contains(q)));
        }
        assert forall|f: int| #[trigger] self.used(f) <==> before.used(f) || c.contains(f) by {
            assert(mid.used(f) <==> before.used(f) || a.contains(f));
        }
    }

    /// A run that was handed out: its frames are in use and in the direct map,
    /// and no other run shares one.
    pub proof fn lemma_owns(&self, p: int, order: int)
        requires
            self.wf(),
            self.owns(p, order),
        ensures
            0 <= order <= 10,
            1 <= buddy::size(order) <= 1024,
            0 <= p,
            p % buddy::size(order) == 0,
            p + buddy::size(order) <= DIRECT_MAP_PAGES,
            forall|f: int| p <= f < p + buddy::size(order) ==> #[trigger] self.used(f),
            forall|q: int, l: int|
                #[trigger] self.owns(q, l) && q < p + buddy::size(order) && p < q + buddy::size(l) ==> q == p
                    && l == order,
    {
        self.allocator.lemma_owns(self.dram, p, order);
    }

    /// A single frame that was handed out.
    pub proof fn lemma_owns_frame(&self, p: int)
        requires
            self.wf(),
            self.owns(p, 0),
        ensures
            self.used(p),
            0 <= p < DIRECT_MAP_PAGES,
            forall|q: int, l: int|
                #[trigger] self.owns(q, l) && q <= p && p < q + buddy::size(l) ==> q == p && l == 0,
    {
        buddy::lemma_sizes();
        self.allocator.lemma_owns(self.dram, p, 0);
    }

    /// Frame numbers in use are in the direct map.
    pub proof fn lemma_used(&self, p: int)
        requires
            self.wf(),
            self.used(p),
        ensures
            0 <= p < DIRECT_MAP_PAGES,
    {
        self.allocator.lemma_used(self.dram, p);
    }

    /// No more frames can be free than there are.
    pub proof fn lemma_free(&self)
        requires
            self.wf(),
        ensures
            0 <= self.free() <= self.total() <= DIRECT_MAP_PAGES,
    {
        self.allocator.lemma_wf(self.dram);
    }

    /// Memory that nothing is managed of yet.
    pub fn new(dram: Dram) -> (r: Memory)
        requires
            dram.wf(),
        ensures
            r.wf(),
            r.dram() == dram,
            r.total() == 0,
            r.free() == 0,
    {
        Memory { dram, allocator: BuddyAllocator::empty() }
    }

    /// Read word `i` of frame `p`.
    pub fn read(&self, p: PhysPageNum, i: u64) -> (r: u64)
        requires
            self.wf(),
            self.used(p.0 as int),
            i < FRAME_WORDS,
        ensures
            r == self.word(p.0 as int, i as int),
    {
        proof {
            self.allocator.lemma_wf(self.dram);
            self.allocator.lemma_used(self.dram, p.0 as int);
        }
        self.dram.read(p, i)
    }

    /// Write word `i` of frame `p`.
    pub fn write(&mut self, p: PhysPageNum, i: u64, v: u64)
        requires
            old(self).wf(),
            old(self).used(p.0 as int),
            i < FRAME_WORDS,
        ensures
            final(self).wf(),
            final(self).allocator() == old(self).allocator(),
            forall|q: int, j: int|
                old(self).used(q) && 0 <= j < 512 ==> #[trigger] final(self).word(q, j) == (if q == p.0 && j
                    == i {
                    v
                } else {
                    old(self).word(q, j)
                }),
    {
        let ghost before = *self;
        proof {
            before.allocator.lemma_wf(before.dram);
            before.allocator.lemma_used(before.dram, p.0 as int);
        }
        self.dram.write(p, i, v);
        proof {
            before.allocator.lemma_undisturbed(before.dram, self.dram);
            assert forall|q: int, j: int| before.used(q) && 0 <= j < 512 implies #[trigger] self.word(q, j) == (
            if q == p.0 && j == i {
                v
            } else {
                before.word(q, j)
            }) by {
                before.allocator.lemma_used(before.dram, q);
            }
        }
    }

    /// Read byte `i` of frame `p`.
    pub fn read_byte(&self, p: PhysPageNum, i: u64) -> (r: u8)
        requires
            self.wf(),
            self.used(p.0 as int),
            i < PAGE_SIZE,
        ensures
            r == self.byte(p.0 as int, i as int),
    {
        bits::get_byte(self.read(p, i / 8), i % 8)
    }

    /// Write byte `i` of frame `p`.
    pub fn write_byte(&mut self, p: PhysPageNum, i: u64, b: u8)
        requires
            old(self).wf(),
            old(self).used(p.0 as int),
            i < PAGE_SIZE,
        ensures
            final(self).wf(),
            final(self).allocator() == old(self).allocator(),
            forall|q: int| old(self).used(q) && q != p.0 ==> #[trigger] final(self).same_frame(*old(self), q),
            forall|j: int|
                0 <= j < PAGE_SIZE ==> #[trigger] final(self).byte(p.0 as int, j) == (if j == i {
                    b
                } else {
                    old(self).byte(p.0 as int, j)
                }),
    {
        let ghost before = *self;
        let w: u64 = self.read(p, i / 8);
        let v: u64 = bits::set_byte(w, i % 8, b);
        self.write(p, i / 8, v);
        proof {
            assert forall|j: int| 0 <= j < PAGE_SIZE implies #[trigger] self.byte(p.0 as int, j) == (if j
                == i {
                b
            } else {
                before.byte(p.0 as int, j)
            }) by {
                bits::lemma_byte_update(w, (i % 8) as u64, (j % 8) as u64, b);
            }
        }
    }

    /// Overwrite frame `p` with zeroes.
    pub fn zero(&mut self, p: PhysPageNum)
        requires
            old(self).wf(),
            old(self).used(p.0 as int),
        ensures
            final(self).wf(),
            final(self).allocator() == old(self).allocator(),
            final(self).zeroed(p.0 as int),
            forall|q: int| old(self).used(q) && q != p.0 ==> #[trigger] final(self).same_frame(*old(self), q),
    {
        let ghost before = *self;
        proof {
            before.allocator.lemma_wf(before.dram);
            before.allocator.lemma_used(before.dram, p.0 as int);
        }
        self.dram.zero(p);
        proof {
            before.allocator.lemma_undisturbed(before.dram, self.dram);
            assert forall|q: int| before.used(q) && q != p.0 implies #[trigger] self.same_frame(before, q) by {
                before.allocator.lemma_used(before.dram, q);
            }
        }
    }

    /// Overwrite frame `to` with the contents of frame `from`.
    pub fn copy_frame(&mut self, from: PhysPageNum, to: PhysPageNum)
        requires
            old(self).wf(),
            old(self).used(from.0 as int),
            old(self).used(to.0 as int),
            from != to,
        ensures
            final(self).wf(),
            final(self).allocator() == old(self).allocator(),
            forall|i: int|
                0 <= i < 512 ==> #[trigger] final(self).word(to.0 as int, i) == old(self).word(
                    from.0 as int,
                    i,
                ),
            forall|q: int| old(self).used(q) && q != to.0 ==> #[trigger] final(self).same_frame(*old(self), q),
    {
        let ghost before = *self;
        let mut i: u64 = 0;
        while i < FRAME_WORDS
            invariant
                i <= FRAME_WORDS,
                self.wf(),
                self.allocator() == before.allocator(),
                before.used(from.0 as int),
                before.used(to.0 as int),
                from != to,
                forall|q: int, j: int|
                    before.used(q) && 0 <= j < 512 ==> #[trigger] self.word(q, j) == (if q == to.0 && j < i {
                        before.word(from.0 as int, j)
                    } else {
                        before.word(q, j)
                    }),
            decreases FRAME_WORDS - i,
        {
            let w: u64 = self.read(from, i);
            self.write(to, i, w);
            i = i + 1;
        }
    }

    /// Overwrite `n` bytes of frame `p`, from byte `at` on, with those of `data`
    /// from index `from` on.
    pub fn copy_in(&mut self, p: PhysPageNum, at: u64, data: &[u8], from: usize, n: usize)
        requires
            old(self).wf(),
            old(self).used(p.0 as int),
            at + n <= PAGE_SIZE,
            from + n <= data@.len(),
        ensures
            final(self).wf(),
            final(self).allocator() == old(self).allocator(),
            forall|q: int| old(self).used(q) && q != p.0 ==> #[trigger] final(self).same_frame(*old(self), q),
            forall|j: int|
                0 <= j < PAGE_SIZE ==> #[trigger] final(self).byte(p.0 as int, j) == (if at <= j < at + n {
                    data@[from + j - at]
                } else {
                    old(self).byte(p.0 as int, j)
                }),
    {
        let ghost before = *self;
        let total: usize = data.len();
        let mut k: usize = 0;
        while k < n
            invariant
                k <= n,
                at + n <= PAGE_SIZE,
                from + n <= total == data@.len(),
                self.wf(),
                self.allocator() == before.allocator(),
                before.used(p.0 as int),
                forall|q: int| before.used(q) && q != p.0 ==> #[trigger] self.same_frame(before, q),
                forall|j: int|
                    0 <= j < PAGE_SIZE ==> #[trigger] self.byte(p.0 as int, j) == (if at <= j < at + k {
                        data@[from + j - at]
                    } else {
                        before.byte(p.0 as int, j)
                    }),
            decreases n - k,
        {
            let ghost m = *self;
            self.write_byte(p, at + k as u64, data[from + k]);
            proof {
                assert forall|q: int| before.used(q) && q != p.0 implies #[trigger] self.same_frame(before, q) by {
                    assert(m.same_frame(before, q));
                    assert(self.same_frame(m, q));
                }
                assert forall|j: int| 0 <= j < PAGE_SIZE implies #[trigger] self.byte(p.0 as int, j) == (if at
                    <= j < at + k + 1 {
                    data@[from + j - at]
                } else {
                    before.byte(p.0 as int, j)
                }) by {
                    assert(m.byte(p.0 as int, j) == m.byte(p.0 as int, j));
                }
            }
            k = k + 1;
        }
    }

    /// Overwrite `n` bytes of `out`, from index `to` on, with those of frame `p`
    /// from byte `at` on.
    pub fn copy_out(&self, p: PhysPageNum, at: u64, out: &mut Vec<u8>, to: usize, n: usize)
        requires
            self.wf(),
            self.used(p.0 as int),
            at + n <= PAGE_SIZE,
            to + n <= old(out)@.len(),
        ensures
            final(out)@.len() == old(out)@.len(),
            forall|j: int|
                0 <= j < old(out)@.len() ==> #[trigger] final(out)@[j] == (if to <= j < to + n {
                    self.byte(p.0 as int, at + j - to)
                } else {
                    old(out)@[j]
                }),
    {
        let ghost before = out@;
        let total: usize = out.len();
        let mut k: usize = 0;
        while k < n
            invariant
                k <= n,
                at + n <= PAGE_SIZE,
                to + n <= total == before.len(),
                self.wf(),
                self.used(p.0 as int),
                out@.len() == before.len(),
                forall|j: int|
                    0 <= j < before.len() ==> #[trigger] out@[j] == (if to <= j < to + k {
                        self.byte(p.0 as int, at + j - to)
                    } else {
                        before[j]
                    }),
            decreases n - k,
        {
            let b: u8 = self.read_byte(p, at + k as u64);
            out[to + k] = b;
            k = k + 1;
        }
    }

    /// Take `2^order` frames from the allocator, as they are.
    fn take(&mut self, order: usize) -> (r: Option<PhysPageNum>)
        requires
            old(self).wf(),
        ensures
            final(self).wf(),
            r is None <==> order > MAX_ORDER || buddy::donor(old(self).lists(), order as int) > MAX_ORDER,
            r is None ==> *final(self) == *old(self),
            r matches Some(p) ==> final(self).granted(*old(self), p.0 as int, order as int),
    {
        let ghost before = *self;
        let ghost a = self.allocator;
        let r = self.allocator.allocate(&mut self.dram, order);
        proof {
            before.allocator.lemma_wf(before.dram);
            if let Some(p) = r {
                let b = self.allocator;
                b.lemma_same_region(a);
                assert forall|f: int| p.0 <= f < p.0 + buddy::size(order as int) implies !#[trigger] before.used(
                    f,
                ) by {
                    a.lemma_terms(f, 0);
                    assert(a.state()[f - a.spec_base()].free);
                }
                assert forall|f: int| #[trigger] self.used(f) <==> before.used(f) || p.0 <= f < p.0
                    + buddy::size(order as int) by {
                    a.lemma_terms(f, 0);
                    b.lemma_terms(f, 0);
                    let g = f - a.spec_base();
                    if 0 <= g < a.spec_frames() {
                        assert(b.state()[g].free == (a.state()[g].free && !(p.0 <= f < p.0 + buddy::size(
                            order as int,
                        ))));
                    }
                }
                assert forall|q: int, l: int| #[trigger] self.owns(q, l) <==> before.owns(q, l) || (q == p.0
                    && l == order) by {
                    a.lemma_terms(q, l);
                    b.lemma_terms(q, l);
                    assert(buddy::held(b.state(), q - a.spec_base(), l) <==> buddy::held(
                        a.state(),
                        q - a.spec_base(),
                        l,
                    ) || (q == p.0 && l == order));
                }
                assert forall|f: int| before.used(f) implies #[trigger] self.same_frame(before, f) by {
                    a.lemma_used(before.dram, f);
                    assert(self.dram.same_frame(before.dram, f));
                }
            }
        }
        r
    }

    /// Give `2^order` frames back to the allocator.
    fn give(&mut self, ppn: PhysPageNum, order: usize)
        requires
            old(self).wf(),
            old(self).owns(ppn.0 as int, order as int),
        ensures
            final(self).wf(),
            final(self).reclaimed(*old(self), ppn.0 as int, order as int),
    {
        let ghost before = *self;
        let ghost a = self.allocator;
        proof {
            a.lemma_wf(before.dram);
            a.lemma_owns(before.dram, ppn.0 as int, order as int);
            a.lemma_terms(ppn.0 as int, order as int);
        }
        self.allocator.free(&mut self.dram, ppn, order);
        proof {
            let b = self.allocator;
            let n = buddy::size(order as int);
            b.lemma_same_region(a);
            assert forall|f: int| #[trigger] self.used(f) <==> before.used(f) && !(ppn.0 <= f < ppn.0 + n) by {
                a.lemma_terms(f, 0);
                b.lemma_terms(f, 0);
                let g = f - a.spec_base();
                if 0 <= g < a.spec_frames() {
                    assert(b.state()[g].free == (a.state()[g].free || 0 <= g - (ppn.0 - a.spec_base()) < n));
                }
            }
            assert forall|q: int, l: int| #[trigger] self.owns(q, l) <==> before.owns(q, l) && !(q == ppn.0
                && l == order) by {
                a.lemma_terms(q, l);
                b.lemma_terms(q, l);
                assert(buddy::held(b.state(), q - a.spec_base(), l) <==> buddy::held(
                    a.state(),
                    q - a.spec_base(),
                    l,
                ) && !(q == ppn.0 && l == order));
            }
            assert forall|f: int| self.used(f) implies #[trigger] self.same_frame(before, f) by {
                b.lemma_used(self.dram, f);
                assert(self.dram.same_frame(before.dram, f));
            }
        }
    }

    /// Frames currently allocated.
    pub fn used_frames(&self) -> (r: u64)
        requires
            self.wf(),
        ensures
            r == self.total() - self.free(),
    {
        self.allocator.used_frames()
    }

    /// Frames still available.
    pub fn free_frames(&self) -> (r: u64)
        requires
            self.wf(),
        ensures
            r == self.free(),
    {
        self.allocator.free_frames(&self.dram)
    }

    /// Total frames under management.
    pub fn total_frames(&self) -> (r: u64)
        ensures
            r == self.total(),
    {
        self.allocator.total_frames()
    }

    /// Largest number of frames ever simultaneously allocated.
    pub fn peak_frames(&self) -> (r: u64)
        ensures
            r == self.allocator().spec_peak(),
    {
        self.allocator.peak_frames()
    }
}

/// Powers of two in the arithmetic library.
proof fn lemma_size_pow2(k: nat)
    ensures
        buddy::size(k as int) == vstd::arithmetic::power2::pow2(k),
    decreases k,
{
    if k == 0 {
        vstd::arithmetic::power2::lemma2_to64();
    } else {
        lemma_size_pow2((k - 1) as nat);
        vstd::arithmetic::power2::lemma_pow2_unfold(k);
    }
}

/// The frames of the run of `2^order` frames at `p`.
pub open spec fn run(p: int, order: int) -> Set<int> {
    vstd::set_lib::set_int_range(p, p + buddy::size(order))
}

/// The free lists after `n` requests of a single frame.
pub open spec fn drawn(lists: Seq<Seq<int>>, n: int) -> Seq<Seq<int>>
    decreases n,
{
    if n <= 0 {
        lists
    } else {
        buddy::served(drawn(lists, n - 1), 0)
    }
}

proof fn lemma_drawn(lists: Seq<Seq<int>>, a: int, b: int)
    requires
        0 <= a,
        0 <= b,
    ensures
        drawn(drawn(lists, a), b) == drawn(lists, a + b),
    decreases b,
{
    if b > 0 {
        lemma_drawn(lists, a, b - 1);
    }
}

/// Smallest order whose block holds at least `count` frames.
pub fn order_for(count: u64) -> (r: usize)
    ensures
        r <= 64,
        count <= buddy::size(r as int),
        r > 0 ==> buddy::size(r - 1) < count,
        r == buddy::order_of(count as int, 0),
{
    if count <= 1 {
        proof {
            buddy::lemma_order_of(count as int, 0, 0);
        }
        0
    } else {
        let x: u64 = count - 1;
        let lz: u32 = x.leading_zeros();
        proof {
            vstd::std_specs::bits::axiom_u64_leading_zeros(x);
            let n = (64 - lz) as u64;
            lemma_size_pow2(n as nat);
            lemma_size_pow2((n - 1) as nat);
            lemma_top_bit(x, (n - 1) as u64);
            vstd::bits::lemma_u64_shr_is_div(x, (n - 1) as u64);
            vstd::arithmetic::power2::lemma_pow2_pos((n - 1) as nat);
            vstd::arithmetic::power2::lemma_pow2_unfold(n as nat);
            let h = vstd::arithmetic::power2::pow2((n - 1) as nat);
            if x < h {
                vstd::arithmetic::div_mod::lemma_basic_div(x as int, h as int);
            }
            vstd::arithmetic::div_mod::lemma_fundamental_div_mod(x as int, h as int);
            vstd::arithmetic::div_mod::lemma_mod_bound(x as int, h as int);
            let q = x as int / h as int;
            assert(h * q <= h) by (nonlinear_arith)
                requires
                    q <= 1,
                    h >= 0;
            buddy::lemma_order_of(count as int, n as int, 0);
        }
        (64 - lz) as usize
    }
}

proof fn lemma_top_bit(x: u64, m: u64)
    by (bit_vector)
    requires
        m < 64,
        (x >> m) & 1 != 0,
        m < 63 ==> x >> ((m + 1) as u64) == 0,
    ensures
        x >> m == 1,
{
}

/// Hand every frame between the end of the kernel image and the top of DRAM to
/// the allocator. `kernel_end` is the direct-map address just past the image.
pub fn init(mem: &mut Memory, kernel_end: u64, dram_end: PhysAddr)
    requires
        old(mem).wf(),
        crate::config::VIRT_OFFSET <= kernel_end,
        ({
            let start = kernel_end - crate::config::VIRT_OFFSET;
            let dram = old(mem).dram();
            &&& addr::page_ceil(start) < addr::page_floor(dram_end.0 as int)
            &&& dram.first() * PAGE_SIZE <= start
            &&& dram_end.0 <= (dram.first() + dram.len()) * PAGE_SIZE
        }),
    ensures
        final(mem).wf(),
        ({
            let first = addr::page_ceil(kernel_end - crate::config::VIRT_OFFSET) / 4096;
            let last = addr::page_floor(dram_end.0 as int) / 4096;
            let base = buddy::managed_base(first, last - first);
            &&& final(mem).allocator().spec_base() == base
            &&& final(mem).total() == (if base < last {
                last - base
            } else {
                0
            })
            &&& final(mem).lists() == buddy::seeded(final(mem).total())
        }),
        final(mem).free() == final(mem).total(),
        forall|p: int| !#[trigger] final(mem).used(p),
        forall|p: int, k: int| !#[trigger] final(mem).owns(p, k),
{
    let start: PhysAddr = PhysAddr(mm::kernel_end_phys(kernel_end));
    proof {
        mem.allocator.lemma_wf(mem.dram);
    }
    mem.allocator.init(&mut mem.dram, start, dram_end);
    proof {
        let a = mem.allocator;
        a.lemma_wf(mem.dram);
        assert forall|p: int| !#[trigger] mem.used(p) by {
            a.lemma_terms(p, 0);
        }
        assert forall|p: int, k: int| !#[trigger] mem.owns(p, k) by {
            a.lemma_terms(p, k);
        }
    }
}

/// Allocate one zeroed frame.
pub fn alloc_frame(mem: &mut Memory) -> (r: Option<PhysPageNum>)
    requires
        old(mem).wf(),
    ensures
        final(mem).wf(),
        r is Some <==> old(mem).free() > 0,
        r is None ==> *final(mem) == *old(mem),
        r matches Some(p) ==> final(mem).granted(*old(mem), p.0 as int, 0) && final(mem).zeroed(p.0 as int),
{
    let ghost before = *mem;
    proof {
        buddy::law_single_frames_never_run_out_early(mem.allocator, mem.dram);
        buddy::lemma_sizes();
    }
    match mem.take(0) {
        None => None,
        Some(ppn) => {
            let ghost after = *mem;
            // Freed frames still hold the previous owner's data, or the
            // allocator's own list pointers, so zero unconditionally.
            mem.zero(ppn);
            proof {
                assert forall|f: int| before.used(f) implies #[trigger] mem.same_frame(before, f) by {
                    assert(after.used(f));
                    assert(after.same_frame(before, f));
                    assert(mem.same_frame(after, f));
                }
            }
            Some(ppn)
        },
    }
}

/// Allocate `2^order` contiguous frames, zeroed.
pub fn alloc_frames(mem: &mut Memory, order: usize) -> (r: Option<PhysPageNum>)
    requires
        old(mem).wf(),
    ensures
        final(mem).wf(),
        r is None <==> order > MAX_ORDER || buddy::donor(old(mem).lists(), order as int) > MAX_ORDER,
        r is None ==> *final(mem) == *old(mem),
        r matches Some(p) ==> {
            &&& final(mem).granted(*old(mem), p.0 as int, order as int)
            &&& forall|f: int|
                p.0 <= f < p.0 + buddy::size(order as int) ==> #[trigger] final(mem).zeroed(f)
        },
{
    let ghost before = *mem;
    match mem.take(order) {
        None => None,
        Some(ppn) => {
            let ghost after = *mem;
            let n: u64 = buddy::block_frames(order);
            proof {
                assert(mem.owns(ppn.0 as int, order as int));
                mem.lemma_owns(ppn.0 as int, order as int);
            }
            let mut i: u64 = 0;
            while i < n
                invariant
                    i <= n <= 1024,
                    mem.wf(),
                    mem.allocator() == after.allocator(),
                    ppn.0 + n <= DIRECT_MAP_PAGES,
                    forall|f: int| ppn.0 <= f < ppn.0 + n ==> #[trigger] after.used(f),
                    forall|f: int| ppn.0 <= f < ppn.0 + i ==> #[trigger] mem.zeroed(f),
                    forall|f: int|
                        after.used(f) && !(ppn.0 <= f < ppn.0 + n) ==> #[trigger] mem.same_frame(after, f),
                decreases n - i,
            {
                let ghost m = *mem;
                assert(after.used(ppn.0 + i));
                mem.zero(PhysPageNum(ppn.0 + i));
                proof {
                    assert forall|f: int| ppn.0 <= f < ppn.0 + i + 1 implies #[trigger] mem.zeroed(f) by {
                        if f < ppn.0 + i {
                            assert(after.used(f));
                            assert(m.zeroed(f));
                            assert(mem.same_frame(m, f));
                        }
                    }
                    assert forall|f: int| after.used(f) && !(ppn.0 <= f < ppn.0 + n) implies
                        #[trigger] mem.same_frame(after, f) by {
                        assert(m.same_frame(after, f));
                        assert(mem.same_frame(m, f));
                    }
                }
                i = i + 1;
            }
            proof {
                assert forall|f: int| before.used(f) implies #[trigger] mem.same_frame(before, f) by {
                    assert(after.used(f));
                    assert(after.same_frame(before, f));
                    assert(mem.same_frame(after, f));
                }
            }
            Some(ppn)
        },
    }
}

/// Release frames obtained from [`alloc_frames`].
pub fn free_frames(mem: &mut Memory, ppn: PhysPageNum, order: usize)
    requires
        old(mem).wf(),
        old(mem).owns(ppn.0 as int, order as int),
    ensures
        final(mem).wf(),
        final(mem).reclaimed(*old(mem), ppn.0 as int, order as int),
{
    mem.give(ppn, order);
}

/// An owned run of `2^order` physical frames.
///
/// Page tables, kernel stacks and user pages all hold their storage this way:
/// tearing down an address space is a matter of releasing a collection.
pub struct Frame {
    ppn: PhysPageNum,
    order: usize,
}

impl Frame {
    /// Frame number of the first frame in the run.
    pub closed spec fn spec_ppn(&self) -> int {
        self.ppn.0 as int
    }

    /// The run has `2^order` frames.
    pub closed spec fn spec_order(&self) -> int {
        self.order as int
    }

    /// The run is one that was handed out of `mem`.
    pub open spec fn valid(&self, mem: Memory) -> bool {
        mem.owns(self.spec_ppn(), self.spec_order())
    }

    /// Byte `i` of the run.
    pub open spec fn byte(&self, mem: Memory, i: int) -> u8 {
        mem.byte(self.spec_ppn() + i / 4096, i % 4096)
    }

    /// Allocate a single zeroed frame.
    pub fn allocate(mem: &mut Memory) -> (r: Option<Frame>)
        requires
            old(mem).wf(),
        ensures
            final(mem).wf(),
            r is Some <==> old(mem).free() > 0,
            r is None ==> *final(mem) == *old(mem),
            r matches Some(f) ==> {
                &&& f.spec_order() == 0
                &&& f.valid(*final(mem))
                &&& final(mem).granted(*old(mem), f.spec_ppn(), 0)
                &&& final(mem).zeroed(f.spec_ppn())
            },
    {
        match alloc_frame(mem) {
            None => None,
            Some(ppn) => Some(Frame { ppn, order: 0 }),
        }
    }

    /// Allocate `2^order` contiguous zeroed frames.
    pub fn alloc_order(mem: &mut Memory, order: usize) -> (r: Option<Frame>)
        requires
            old(mem).wf(),
        ensures
            final(mem).wf(),
            r is None <==> order > MAX_ORDER || buddy::donor(old(mem).lists(), order as int) > MAX_ORDER,
            r is None ==> *final(mem) == *old(mem),
            r matches Some(f) ==> {
                &&& f.spec_order() == order
                &&& f.valid(*final(mem))
                &&& final(mem).granted(*old(mem), f.spec_ppn(), order as int)
                &&& forall|g: int|
                    f.spec_ppn() <= g < f.spec_ppn() + buddy::size(order as int)
                        ==> #[trigger] final(mem).zeroed(g)
            },
    {
        match alloc_frames(mem, order) {
            None => None,
            Some(ppn) => Some(Frame { ppn, order }),
        }
    }

    /// Frame number of the first frame in the run.
    pub fn ppn(&self) -> (r: PhysPageNum)
        ensures
            r.0 == self.spec_ppn(),
    {
        self.ppn
    }

    /// Number of frames in the run.
    pub fn count(&self, mem: &Memory) -> (r: u64)
        requires
            mem.wf(),
            self.valid(*mem),
        ensures
            r == buddy::size(self.spec_order()),
    {
        proof {
            mem.lemma_owns(self.spec_ppn(), self.spec_order());
        }
        buddy::block_frames(self.order)
    }

    /// The run's contents.
    pub fn as_slice(&self, mem: &Memory) -> (r: Vec<u8>)
        requires
            mem.wf(),
            self.valid(*mem),
        ensures
            r@.len() == buddy::size(self.spec_order()) * PAGE_SIZE,
            forall|i: int| 0 <= i < r@.len() ==> #[trigger] r@[i] == self.byte(*mem, i),
    {
        proof {
            mem.lemma_owns(self.spec_ppn(), self.spec_order());
        }
        let len: u64 = self.count(mem) * PAGE_SIZE;
        let mut out: Vec<u8> = Vec::new();
        let mut i: u64 = 0;
        while i < len
            invariant
                mem.wf(),
                self.valid(*mem),
                i <= len == buddy::size(self.spec_order()) * PAGE_SIZE,
                self.spec_ppn() + buddy::size(self.spec_order()) <= DIRECT_MAP_PAGES,
                forall|f: int|
                    self.spec_ppn() <= f < self.spec_ppn() + buddy::size(self.spec_order())
                        ==> #[trigger] mem.used(f),
                out@.len() == i,
                forall|j: int| 0 <= j < i ==> #[trigger] out@[j] == self.byte(*mem, j),
            decreases len - i,
        {
            assert(mem.used(self.spec_ppn() + i as int / 4096));
            out.push(mem.read_byte(PhysPageNum(self.ppn.0 + i / PAGE_SIZE), i % PAGE_SIZE));
            i = i + 1;
        }
        out
    }

    /// Overwrite the run from byte `at` on with `data`.
    pub fn write_at(&mut self, mem: &mut Memory, at: u64, data: &[u8])
        requires
            old(mem).wf(),
            old(self).valid(*old(mem)),
            at + data@.len() <= buddy::size(old(self).spec_order()) * PAGE_SIZE,
        ensures
            *final(self) == *old(self),
            final(mem).wf(),
            final(mem).allocator() == old(mem).allocator(),
            forall|i: int|
                0 <= i < buddy::size(old(self).spec_order()) * PAGE_SIZE ==> #[trigger] old(self).byte(
                    *final(mem),
                    i,
                ) == (if at <= i < at + data@.len() {
                    data@[i - at]
                } else {
                    old(self).byte(*old(mem), i)
                }),
            forall|q: int|
                old(mem).used(q) && !(old(self).spec_ppn() <= q < old(self).spec_ppn() + buddy::size(
                    old(self).spec_order(),
                )) ==> #[trigger] final(mem).same_frame(*old(mem), q),
    {
        let ghost before = *mem;
        let ghost p = self.spec_ppn();
        let ghost n = buddy::size(self.spec_order());
        proof {
            mem.lemma_owns(p, self.spec_order());
        }
        let mut k: usize = 0;
        while k < data.len()
            invariant
                mem.wf(),
                mem.allocator() == before.allocator(),
                k <= data@.len(),
                at + data@.len() <= n * PAGE_SIZE,
                p == self.spec_ppn(),
                1 <= n <= 1024,
                p + n <= DIRECT_MAP_PAGES,
                forall|f: int| p <= f < p + n ==> #[trigger] before.used(f),
                forall|i: int|
                    0 <= i < n * PAGE_SIZE ==> #[trigger] self.byte(*mem, i) == (if at <= i < at + k {
                        data@[i - at]
                    } else {
                        self.byte(before, i)
                    }),
                forall|q: int|
                    before.used(q) && !(p <= q < p + n) ==> #[trigger] mem.same_frame(before, q),
            decreases data@.len() - k,
        {
            let ghost m = *mem;
            let i: u64 = at + k as u64;
            let q: PhysPageNum = PhysPageNum(self.ppn.0 + i / PAGE_SIZE);
            assert(before.used(q.0 as int));
            mem.write_byte(q, i % PAGE_SIZE, data[k]);
            proof {
                assert forall|j: int| 0 <= j < n * PAGE_SIZE implies #[trigger] self.byte(*mem, j) == (if at <= j
                    < at + k + 1 {
                    data@[j - at]
                } else {
                    self.byte(before, j)
                }) by {
                    assert(self.byte(m, j) == (if at <= j < at + k {
                        data@[j - at]
                    } else {
                        self.byte(before, j)
                    }));
                    let f = p + j / 4096;
                    assert(before.used(f));
                    if f != q.0 {
                        assert(mem.same_frame(m, f));
                        assert(mem.word(f, (j % 4096) / 8) == m.word(f, (j % 4096) / 8));
                    }
                }
                assert forall|f: int| before.used(f) && !(p <= f < p + n) implies #[trigger] mem.same_frame(
                    before,
                    f,
                ) by {
                    assert(m.same_frame(before, f));
                    assert(mem.same_frame(m, f));
                }
            }
            k = k + 1;
        }
    }

    /// Give up ownership, leaving the frames allocated.
    ///
    /// Used where the hardware owns the lifetime -- the root page table of a
    /// live address space, for instance.
    pub fn into_raw(self) -> (r: PhysPageNum)
        ensures
            r.0 == self.spec_ppn(),
    {
        self.ppn
    }

    /// Return the run to the allocator.
    pub fn release(self, mem: &mut Memory)
        requires
            old(mem).wf(),
            self.valid(*old(mem)),
        ensures
            final(mem).wf(),
            final(mem).reclaimed(*old(mem), self.spec_ppn(), self.spec_order()),
    {
        free_frames(mem, self.ppn, self.order);
    }
}

/// Handing a run out and taking it back leaves the allocator as it was, and the
/// next request of that size is served with the same run.
pub proof fn law_frame_reuse(m0: Memory, m1: Memory, m2: Memory, p: int, order: int)
    requires
        m0.wf(),
        0 <= order <= 10,
        buddy::donor(m0.lists(), order) <= 10,
        m1.granted(m0, p, order),
        m2.reclaimed(m1, p, order),
    ensures
        m2.lists() == m0.lists(),
        m2.free() == m0.free(),
        p == m2.allocator().spec_base() + m2.lists()[buddy::donor(m2.lists(), order)][0],
        forall|f: int| #[trigger] m2.used(f) <==> m0.used(f),
        forall|f: int| m0.used(f) ==> #[trigger] m2.same_frame(m0, f),
{
    buddy::law_free_undoes_alloc(m0.allocator(), m0.dram(), order);
    assert forall|f: int| #[trigger] m2.used(f) <==> m0.used(f) by {
        if p <= f < p + buddy::size(order) {
            assert(!m0.used(f));
        }
        assert(m1.used(f) <==> m0.used(f) || p <= f < p + buddy::size(order));
    }
    assert forall|f: int| m0.used(f) implies #[trigger] m2.same_frame(m0, f) by {
        assert(m2.used(f));
        assert(m1.same_frame(m0, f));
        assert(m2.same_frame(m1, f));
    }
}

/// Runs that are in use at the same time share no frame.
pub proof fn law_runs_are_exclusive(m: Memory, p: int, k: int, q: int, l: int, f: int)
    requires
        m.wf(),
        m.owns(p, k),
        m.owns(q, l),
        p <= f < p + buddy::size(k),
        q <= f < q + buddy::size(l),
    ensures
        p == q,
        k == l,
{
    m.lemma_owns(p, k);
}

/// The frame numbers of single frames.
pub open spec fn ppns(frames: Seq<Frame>) -> Seq<int> {
    frames.map_values(|f: Frame| f.spec_ppn())
}

/// One more frame.
pub proof fn lemma_ppns_push(frames: Seq<Frame>, f: Frame)
    ensures
        ppns(frames.push(f)) == ppns(frames).push(f.spec_ppn()),
        ppns(frames.push(f)).to_set() == ppns(frames).to_set().insert(f.spec_ppn()),
{
    let a = ppns(frames);
    let b = ppns(frames.push(f));
    assert(b =~= a.push(f.spec_ppn()));
    assert forall|p: int| b.to_set().contains(p) <==> a.to_set().insert(f.spec_ppn()).contains(p) by {
        if a.contains(p) {
            let j = choose|j: int| 0 <= j < a.len() && a[j] == p;
            assert(b[j] == p);
        }
        if p == f.spec_ppn() {
            assert(b[a.len() as int] == p);
        }
    }
    assert(b.to_set() =~= a.to_set().insert(f.spec_ppn()));
}

} // verus!
