//! Copying an address space, for `fork`.
//!
//! The copy is eager: every page of the new space has a frame of its own, which
//! holds what the page of the old space held.

use vstd::prelude::*;
use crate::mm::frame::Memory;
use crate::mm::page_table::{self, MapError, Mark};
use crate::mm::space::{self, AddressSpace, Backing, Region};

verus! {

/// What installing `regions`, one after the other, in a table that holds `leaves`
/// makes of the leaves and of `free` frames, if these are enough.
pub open spec fn rebuild(regions: Seq<Region>, leaves: Seq<Mark>, free: int) -> Option<(Seq<Mark>, int)>
    decreases regions.len(),
{
    if regions.len() == 0 {
        Some((leaves, free))
    } else {
        let r = regions[0];
        let plan = space::install(leaves, r.spec_backing(), r.first(), r.last(), free);
        if plan.result is Ok {
            rebuild(regions.drop_first(), plan.leaves, plan.free)
        } else {
            None
        }
    }
}

/// The frames that are left of `free` once a space with `regions` was copied, if
/// they are enough.
pub open spec fn copied(regions: Seq<Region>, free: int) -> Option<(Seq<Mark>, int)> {
    if free <= 0 {
        None
    } else {
        rebuild(regions, Seq::empty(), free - 1)
    }
}

impl AddressSpace {
    /// `self` has the first `n` regions of `other`, and they hold in `mem` what
    /// those hold in `before`.
    pub open spec fn mirrors(&self, mem: Memory, other: AddressSpace, before: Memory, n: int) -> bool {
        &&& self.regions().len() == n
        &&& forall|k: int|
            0 <= k < n ==> (#[trigger] self.regions()[k]).same_range(other.regions()[k])
                && self.regions()[k].frames().len() == other.regions()[k].frames().len()
        &&& forall|k: int, j: int, i: int|
            0 <= k < n && 0 <= j < self.regions()[k].frames().len() && 0 <= i < 512 ==> #[trigger] mem.word(
                self.regions()[k].frames()[j],
                i,
            ) == before.word(other.regions()[k].frames()[j], i)
    }

    /// A space with the same regions and the same contents, none of whose frames
    /// is shared with this one. `None`, and nothing taken, if memory runs out.
    #[verifier::rlimit(60)]
    pub fn duplicate(&self, mem: &mut Memory, kernel: &AddressSpace) -> (r: Option<AddressSpace>)
        requires
            old(mem).wf(),
            self.wf(*old(mem)),
            self.is_user(),
            kernel.wf(*old(mem)),
            kernel.supervisor(*old(mem)),
        ensures
            final(mem).wf(),
            self.wf(*final(mem)),
            kernel.wf(*final(mem)),
            kernel.supervisor(*final(mem)),
            final(mem).same_but(*old(mem), Set::empty()),
            r is Some <==> copied(self.regions(), old(mem).free()) is Some,
            match r {
                Some(child) => {
                    &&& child.wf(*final(mem))
                    &&& child.is_user()
                    &&& child.tops() == 256
                    &&& child.mirrors(*final(mem), *self, *old(mem), self.regions().len() as int)
                    &&& final(mem).grew(*old(mem), child.footprint())
                    &&& final(mem).drew(*old(mem))
                    &&& copied(self.regions(), old(mem).free()) == Some((child.leaves(), final(mem).free()))
                    &&& child.support().subset_of(child.footprint().union(kernel.support()))
                    &&& child.shares(*final(mem), *kernel)
                },
                None => final(mem).grew(*old(mem), Set::empty()),
            },
    {
        let ghost m0 = *mem;
        let ghost none: Set<int> = Set::empty();
        proof {
            m0.lemma_grew_none(m0);
            self.lemma_live(m0);
            kernel.lemma_live(m0);
        }
        let mut child: AddressSpace = match AddressSpace::with_kernel_half(mem, kernel) {
            Some(child) => child,
            None => {
                return None;
            },
        };
        proof {
            assert(self.regions().skip(0) =~= self.regions());
        }
        let count: usize = self.region_count();
        let mut i: usize = 0;
        while i < count
            invariant
                i <= count == self.regions().len(),
                m0.wf(),
                mem.wf(),
                self.wf(m0),
                self.is_user(),
                kernel.wf(m0),
                kernel.supervisor(m0),
                child.wf(*mem),
                child.is_user(),
                child.tops() == 256,
                mem.grew(m0, child.footprint()),
                mem.same_but(m0, none),
                none == Set::<int>::empty(),
                child.support().subset_of(child.footprint().union(kernel.support())),
                child.shares(*mem, *kernel),
                child.mirrors(*mem, *self, m0, i as int),
                m0.free() > 0,
                mem.drew(m0),
                rebuild(self.regions(), Seq::empty(), m0.free() - 1) == rebuild(
                    self.regions().skip(i as int),
                    child.leaves(),
                    mem.free(),
                ),
                m0 == *old(mem),
            decreases count - i,
        {
            let ghost m2 = *mem;
            let ghost c2 = child;
            let ghost g = self.regions()[i as int];
            let from: &Region = self.region(i);
            proof {
                assert(self.region_ok(m0, i as int));
                assert(g.lower() && g.spec_backing() == Backing::Framed);
            }
            let region: Region = Region::new(from.start(), from.end(), from.backing(), from.perm());
            proof {
                assert(self.regions().skip(i as int)[0] == g);
                assert(self.regions().skip(i as int).drop_first() =~= self.regions().skip(i + 1));
            }
            let ghost fresh = region;
            let pushed = child.push(mem, region);
            let ghost m3 = *mem;
            let ghost added = child.footprint().difference(c2.footprint());
            proof {
                m3.lemma_grew_twice(m2, m0, c2.footprint(), added);
                assert(c2.footprint().union(added) =~= child.footprint());
                assert forall|f: int| m0.used(f) && m3.used(f) implies #[trigger] m3.same_frame(m0, f) by {
                    assert(m2.used(f));
                    assert(m2.same_frame(m0, f));
                    assert(!c2.footprint().contains(f));
                    assert(m3.same_frame(m2, f));
                }
            }
            if pushed.is_err() {
                let ghost all = child.footprint();
                child.release(mem);
                proof {
                    mem.lemma_grew_shrank(m3, m0, all, all);
                    assert(all.difference(all) =~= none);
                    assert forall|f: int| m0.used(f) && mem.used(f) implies #[trigger] mem.same_frame(m0, f) by {
                        assert(m3.used(f));
                        assert(m3.same_frame(m0, f));
                        assert(mem.same_frame(m3, f));
                    }
                    self.lemma_outlives(m0, *mem, none);
                    kernel.lemma_outlives(m0, *mem, none);
                }
                return None;
            }
            let ghost to = child.regions()[i as int];
            proof {
                self.lemma_outlives(m0, m3, child.footprint());
                assert(self.region_ok(m3, i as int));
                assert(child.region_ok(m3, i as int));
                assert(child.regions().last() == to);
                assert forall|p: int| to.frames().to_set().contains(p) implies !g.frames().to_set().contains(p) by {
                    space::lemma_frames_of(child.regions(), p);
                    assert(child.footprint().contains(p));
                    if g.frames().to_set().contains(p) {
                        space::lemma_frames_of(self.regions(), p);
                        assert(self.footprint().contains(p));
                        self.lemma_live(m0);
                    }
                }
                self.lemma_full(m0, i as int);
            }
            child.region(i).copy_frames(mem, self.region(i));
            proof {
                child.lemma_copied(*self, kernel.support(), *mem, m3, c2, m2, m0, i as int);
                lemma_child_shares(child, *mem, m3, c2, m2, m0, *kernel, fresh, pushed);
                mem.lemma_drew_none(m3);
                mem.lemma_drew_twice(m3, m2);
                mem.lemma_drew_twice(m2, m0);
            }
            i = i + 1;
        }
        proof {
            self.lemma_outlives(m0, *mem, child.footprint());
            kernel.lemma_outlives(m0, *mem, child.footprint());
        }
        Some(child)
    }

    /// A region with frames of its own has one for each page.
    pub proof fn lemma_full(&self, mem: Memory, i: int)
        requires
            self.wf(mem),
            0 <= i < self.regions().len(),
            self.regions()[i].spec_backing() == Backing::Framed,
        ensures
            self.regions()[i].frames().len() == self.regions()[i].pages(),
    {
        reveal(AddressSpace::sound);
    }

    /// One more region was mapped and filled.
    #[verifier::rlimit(60)]
    proof fn lemma_copied(
        &self,
        other: AddressSpace,
        shared: Set<int>,
        mem: Memory,
        m3: Memory,
        c2: AddressSpace,
        m2: Memory,
        m0: Memory,
        n: int,
    )
        requires
            m0.wf(),
            m2.wf(),
            m3.wf(),
            other.wf(m0),
            0 <= n < other.regions().len(),
            self.wf(m3),
            c2.wf(m2),
            c2.is_user(),
            c2.mirrors(m2, other, m0, n),
            self.regions().len() == n + 1,
            self.regions().drop_last() == c2.regions(),
            self.regions()[n].same_range(other.regions()[n]),
            other.regions()[n].spec_backing() == Backing::Framed,
            other.regions()[n].lower(),
            self.regions()[n].frames().len() == other.regions()[n].frames().len(),
            m2.grew(m0, c2.footprint()),
            m3.grew(m0, self.footprint()),
            m3.same_but(m0, Set::empty()),
            m3.same_but(m2, c2.spec_table().own()),
            forall|f: int| m2.used(f) ==> #[trigger] m3.used(f),
            c2.support().subset_of(c2.footprint().union(shared)),
            c2.footprint().subset_of(self.footprint()),
            self.support() == c2.support().union(self.footprint().difference(c2.footprint())),
            mem.wf(),
            mem.allocator() == m3.allocator(),
            mem.same_but(m3, self.regions()[n].frames().to_set()),
            forall|j: int, i: int|
                0 <= j < self.regions()[n].frames().len() && 0 <= i < 512 ==> #[trigger] mem.word(
                    self.regions()[n].frames()[j],
                    i,
                ) == m3.word(other.regions()[n].frames()[j], i),
        ensures
            self.wf(mem),
            self.is_user(),
            space::unmoved(mem, m3, self.root()),
            self.mirrors(mem, other, m0, n + 1),
            mem.grew(m0, self.footprint()),
            mem.same_but(m0, Set::empty()),
            self.support().subset_of(self.footprint().union(shared)),
    {
        let fs = self.regions()[n].frames().to_set();
        self.lemma_live(m3);
        assert(self.region_ok(m3, n));
        assert forall|p: int| #[trigger] self.spec_table().tables().contains(p) implies mem.same_frame(m3, p) by {
            assert(self.support().contains(p));
            assert(!fs.contains(p));
        }
        assert forall|p: int| #[trigger] self.support().contains(p) implies mem.owns(p, 0) by {}
        self.lemma_undisturbed(m3, mem);
        assert forall|p: int| #[trigger] fs.contains(p) implies !m0.used(p) by {
            space::lemma_frames_of(self.regions(), p);
            assert(self.footprint().contains(p));
        }
        assert forall|f: int| m0.used(f) && mem.used(f) implies #[trigger] mem.same_frame(m0, f) by {
            assert(m3.same_frame(m0, f));
            assert(!fs.contains(f));
            assert(mem.same_frame(m3, f));
        }
        assert forall|k: int| 0 <= k < self.regions().len() implies (#[trigger] self.regions()[k]).lower()
            && self.regions()[k].spec_backing() == Backing::Framed by {
            if k < n {
                assert(self.regions()[k] == c2.regions()[k]);
            }
        }
        assert forall|k: int| 0 <= k < n + 1 implies (#[trigger] self.regions()[k]).same_range(
            other.regions()[k],
        ) && self.regions()[k].frames().len() == other.regions()[k].frames().len() by {
            if k < n {
                assert(self.regions()[k] == c2.regions()[k]);
            }
        }
        assert forall|k: int, j: int, i: int|
            0 <= k < n + 1 && 0 <= j < self.regions()[k].frames().len() && 0 <= i < 512 implies
            #[trigger] mem.word(self.regions()[k].frames()[j], i) == m0.word(
            other.regions()[k].frames()[j],
            i,
        ) by {
            let p = self.regions()[k].frames()[j];
            if k < n {
                assert(self.regions()[k] == c2.regions()[k]);
                assert(c2.region_ok(m2, k));
                c2.regions()[k].lemma_owned(m2);
                m2.lemma_owns_frame(p);
                assert(c2.regions()[k].frames().to_set().contains(p));
                assert(m3.same_frame(m2, p));
                assert(self.regions()[k].frames().to_set().disjoint(self.regions()[n].frames().to_set()));
                assert(mem.same_frame(m3, p));
                assert(m2.word(p, i) == m0.word(other.regions()[k].frames()[j], i));
            } else {
                let q = other.regions()[n].frames()[j];
                assert(other.region_ok(m0, n));
                other.regions()[n].lemma_owned(m0);
                m0.lemma_owns_frame(q);
                assert(m3.same_frame(m0, q));
                assert(m3.word(q, i) == m0.word(q, i));
            }
        }
    }
}

/// A copy of a space can be accessed as the space it was made of, address by
/// address, and holds the same bytes.
pub proof fn law_duplicate_is_equal(
    parent: AddressSpace,
    child: AddressSpace,
    m0: Memory,
    m1: Memory,
    x: int,
    need: u64,
)
    requires
        m0.wf(),
        m1.wf(),
        parent.wf(m0),
        parent.is_user(),
        child.wf(m1),
        child.is_user(),
        child.mirrors(m1, parent, m0, parent.regions().len() as int),
        need < 1024,
    ensures
        child.access(m1, x, need) == parent.access(m0, x, need),
        parent.access(m0, x, need) ==> child.ubyte(m1, x) == parent.ubyte(m0, x),
{
    if parent.access(m0, x, need) {
        lemma_entry_flags(parent.page_entry(m0, x)->0, parent.page_entry(m0, x)->0, need);
        let i = parent.lemma_user_page(m0, x);
        lemma_same_page(parent, child, m0, m1, x, i);
        lemma_entry_flags(parent.page_entry(m0, x)->0, child.page_entry(m1, x)->0, need);
        let o = space::offset(x / 4096, parent.regions()[i].first());
        let c = child.regions()[i];
        assert(m1.word(c.frames()[o], (x % 4096) / 8) == m0.word(
            parent.regions()[i].frames()[o],
            (x % 4096) / 8,
        ));
    }
    if child.access(m1, x, need) {
        lemma_entry_flags(child.page_entry(m1, x)->0, child.page_entry(m1, x)->0, need);
        let i = child.lemma_user_page(m1, x);
        assert(child.regions()[i].same_range(parent.regions()[i]));
        lemma_same_page(parent, child, m0, m1, x, i);
        lemma_entry_flags(parent.page_entry(m0, x)->0, child.page_entry(m1, x)->0, need);
    }
}

/// Entries with the same flag bits grant the same access.
proof fn lemma_entry_flags(a: u64, b: u64, need: u64)
    by (bit_vector)
    requires
        a % 1024 == b % 1024,
        need < 1024,
    ensures
        (a & need == need) == (b & need == need),
        (a & 16 == 16) == (b & 16 == 16),
        a & 0 == 0,
{
}

/// The upper half stays the kernel's as one more region is mapped and filled.
proof fn lemma_child_shares(
    child: AddressSpace,
    mem: Memory,
    m3: Memory,
    c2: AddressSpace,
    m2: Memory,
    m0: Memory,
    kernel: AddressSpace,
    region: Region,
    r: Result<(), MapError>,
)
    requires
        m0.wf(),
        kernel.wf(m0),
        c2.shares(m2, kernel),
        child.pushed(m3, c2, m2, region, r),
        region.wf(),
        region.lower(),
        m2.grew(m0, c2.footprint()),
        m2.same_but(m0, Set::empty()),
        m3.grew(m0, child.footprint()),
        m3.same_but(m0, Set::empty()),
        mem.grew(m0, child.footprint()),
        mem.same_but(m0, Set::empty()),
        space::unmoved(mem, m3, child.root()),
    ensures
        child.shares(mem, kernel),
{
    let root = kernel.root();
    kernel.lemma_outlives(m0, m2, c2.footprint());
    kernel.lemma_outlives(m0, m3, child.footprint());
    kernel.lemma_outlives(m0, mem, child.footprint());
    assert forall|w: int| 0 <= w implies #[trigger] page_table::walk(m3, root, w) == page_table::walk(m2, root, w) by {
        assert(page_table::walk(m2, root, w) == page_table::walk(m0, root, w));
    }
    assert forall|w: int| 0 <= w implies #[trigger] page_table::walk(mem, root, w) == page_table::walk(m3, root, w) by {
        assert(page_table::walk(m3, root, w) == page_table::walk(m0, root, w));
    }
    child.lemma_push_shares(m3, c2, m2, kernel, region, r);
    child.lemma_still_shares(child, m3, mem, kernel);
}

/// The entry of a page of region `i` of a user space.
proof fn lemma_region_entry(s: AddressSpace, mem: Memory, x: int, i: int)
    requires
        mem.wf(),
        0 <= x,
        s.wf(mem),
        s.is_user(),
        0 <= i < s.regions().len(),
        0 <= space::offset(x / 4096, s.regions()[i].first()) < s.regions()[i].frames().len(),
    ensures
        ({
            let r = s.regions()[i];
            let w = s.page_entry(mem, x)->0;
            &&& s.page_entry(mem, x) is Some
            &&& w % 1024 == page_table::installed(r.spec_perm())
            &&& page_table::entry_ppn(w) == r.frames()[space::offset(x / 4096, r.first())]
        }),
{
    let r = s.regions()[i];
    let v = x / 4096;
    let o = space::offset(v, r.first());
    assert(s.region_ok(mem, i));
    assert(r.spec_backing() == Backing::Framed);
    assert(s.backed(mem, v, i)) by {
        reveal(AddressSpace::sound);
        assert(r.frames().len() == r.pages());
        assert(s.in_region(v, i));
    }
    r.lemma_owned(mem);
    mem.lemma_owns_frame(r.frames()[o]);
    page_table::lemma_installed(r.spec_perm());
    page_table::lemma_make_entry(r.frames()[o], page_table::installed(r.spec_perm()));
}

/// A page of the copy and the page it was made of.
proof fn lemma_same_page(
    parent: AddressSpace,
    child: AddressSpace,
    m0: Memory,
    m1: Memory,
    x: int,
    i: int,
)
    requires
        m0.wf(),
        m1.wf(),
        0 <= x,
        parent.wf(m0),
        parent.is_user(),
        child.wf(m1),
        child.is_user(),
        child.mirrors(m1, parent, m0, parent.regions().len() as int),
        0 <= i < parent.regions().len(),
        0 <= space::offset(x / 4096, parent.regions()[i].first()) < parent.regions()[i].frames().len(),
    ensures
        parent.page_entry(m0, x) is Some,
        child.page_entry(m1, x) is Some,
        parent.page_entry(m0, x)->0 % 1024 == child.page_entry(m1, x)->0 % 1024,
        page_table::entry_ppn(parent.page_entry(m0, x)->0) == parent.regions()[i].frames()[space::offset(
            x / 4096,
            parent.regions()[i].first(),
        )],
        page_table::entry_ppn(child.page_entry(m1, x)->0) == child.regions()[i].frames()[space::offset(
            x / 4096,
            parent.regions()[i].first(),
        )],
{
    let r = parent.regions()[i];
    let c = child.regions()[i];
    assert(c.same_range(r));
    assert(c.frames().len() == r.frames().len()) by {
        reveal(AddressSpace::sound);
    }
    lemma_region_entry(parent, m0, x, i);
    lemma_region_entry(child, m1, x, i);
}

/// A copy of a space shares no frame with it, nor with anything else that was in
/// use.
pub proof fn law_duplicate_shares_nothing(
    parent: AddressSpace,
    child: AddressSpace,
    m0: Memory,
    m1: Memory,
)
    requires
        m0.wf(),
        parent.wf(m0),
        m1.grew(m0, child.footprint()),
    ensures
        child.footprint().disjoint(parent.support()),
        forall|p: int| #[trigger] child.footprint().contains(p) ==> !m0.used(p),
{
    parent.lemma_live(m0);
    assert forall|p: int| child.footprint().contains(p) implies !parent.support().contains(p) by {}
}

/// Releasing a space gives back exactly what building it took.
pub proof fn law_release_restores(s: AddressSpace, m0: Memory, m1: Memory, m2: Memory)
    requires
        m0.wf(),
        m1.grew(m0, s.footprint()),
        m2.shrank(m1, s.footprint()),
    ensures
        m2.free() == m0.free(),
        forall|p: int| #[trigger] m2.used(p) <==> m0.used(p),
        forall|p: int, k: int| #[trigger] m2.owns(p, k) <==> m0.owns(p, k),
{
    let all = s.footprint();
    m2.lemma_grew_shrank(m1, m0, all, all);
    assert(all.difference(all) =~= Set::<int>::empty());
}

/// The pages of all of `regions`.
pub open spec fn pages_of(regions: Seq<Region>) -> int
    decreases regions.len(),
{
    if regions.len() == 0 {
        0
    } else {
        regions[0].pages() + pages_of(regions.drop_first())
    }
}

/// A user space can be copied if there is memory for it: three frames for each page, and
/// one for the root table. That its regions have no page in common is what every space
/// is built with.
pub proof fn law_spaces_can_be_copied(regions: Seq<Region>, free: int)
    requires
        forall|i: int|
            0 <= i < regions.len() ==> {
                &&& (#[trigger] regions[i]).spec_backing() == Backing::Framed
                &&& 0 <= regions[i].first()
                &&& regions[i].last() <= 0x400_0000
            },
        forall|i: int, j: int|
            0 <= i < j < regions.len() ==> (#[trigger] regions[i]).last() <= (#[trigger] regions[j]).first()
                || regions[j].last() <= regions[i].first(),
        free > 3 * pages_of(regions),
    ensures
        copied(regions, free) matches Some((_, left)) && left >= free - 1 - 3 * pages_of(regions),
{
    lemma_pages_of(regions);
    lemma_rebuilt(regions, Seq::empty(), free - 1);
}

proof fn lemma_pages_of(regions: Seq<Region>)
    ensures
        0 <= pages_of(regions),
    decreases regions.len(),
{
    if regions.len() > 0 {
        lemma_pages_of(regions.drop_first());
    }
}

proof fn lemma_rebuilt(regions: Seq<Region>, leaves: Seq<Mark>, free: int)
    requires
        forall|i: int|
            0 <= i < regions.len() ==> {
                &&& (#[trigger] regions[i]).spec_backing() == Backing::Framed
                &&& 0 <= regions[i].first()
                &&& regions[i].last() <= 0x400_0000
            },
        forall|i: int, j: int|
            0 <= i < j < regions.len() ==> (#[trigger] regions[i]).last() <= (#[trigger] regions[j]).first()
                || regions[j].last() <= regions[i].first(),
        forall|i: int, w: int|
            #![trigger regions[i], page_table::occupies(leaves, w, 2)]
            0 <= i < regions.len() && regions[i].first() <= w < regions[i].last() ==> !page_table::occupies(leaves, w, 2),
        free >= 3 * pages_of(regions),
    ensures
        rebuild(regions, leaves, free) matches Some((_, left)) && left >= free - 3 * pages_of(regions),
    decreases regions.len(),
{
    if regions.len() > 0 {
        let r = regions[0];
        let rest = regions.drop_first();
        lemma_pages_of(rest);
        space::law_enough_memory_maps(leaves, r.first(), r.last(), free);
        let plan = space::install(leaves, r.spec_backing(), r.first(), r.last(), free);
        assert forall|i: int, j: int| 0 <= i < j < rest.len() implies (#[trigger] rest[i]).last() <= (
        #[trigger] rest[j]).first() || rest[j].last() <= rest[i].first() by {
            assert(rest[i] == regions[i + 1] && rest[j] == regions[j + 1]);
        }
        assert forall|i: int, w: int|
            #![trigger rest[i], page_table::occupies(plan.leaves, w, 2)]
            0 <= i < rest.len() && rest[i].first() <= w < rest[i].last() implies !page_table::occupies(
            plan.leaves,
            w,
            2,
        ) by {
            assert(rest[i] == regions[i + 1]);
            if page_table::occupies(plan.leaves, w, 2) {
                space::lemma_run_occupies(leaves, r.first(), r.last(), free, w);
                assert(!page_table::occupies(leaves, w, 2));
            }
        }
        lemma_rebuilt(rest, plan.leaves, plan.free);
    }
}

} // verus!
