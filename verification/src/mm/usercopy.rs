//! Access to user memory.
//!
//! User pointers are never dereferenced directly: an address is walked through
//! the page table of its space and the bytes are copied through the direct map,
//! one page at a time. A bad pointer is an error return rather than a fault, and
//! page permissions hold for the kernel as they do for the user.

use vstd::prelude::*;
use crate::bits;
use crate::config::{PAGE_SIZE, USER_MAX_ADDR};
use crate::mm::addr::{PhysPageNum, VirtAddr};
use crate::mm::frame::Memory;
use crate::mm::page_table::{self, PteFlags};
use crate::mm::space::{self, AddressSpace};

verus! {

impl AddressSpace {
    /// The entry that maps the page of address `va`, if it is mapped.
    pub open spec fn page_entry(&self, mem: Memory, va: int) -> Option<u64> {
        page_table::translation(mem, self.root(), va / 4096)
    }

    /// May user code access address `va` in the way that `need` says? Nothing from
    /// `USER_MAX_ADDR` on is a user address, whatever a table would make of it.
    pub open spec fn access(&self, mem: Memory, va: int, need: u64) -> bool {
        &&& 0 <= va < USER_MAX_ADDR
        &&& self.page_entry(mem, va) matches Some(w) && w & 16 == 16 && w & need == need
    }

    /// The byte at user address `va`.
    pub open spec fn ubyte(&self, mem: Memory, va: int) -> u8 {
        match self.page_entry(mem, va) {
            Some(w) => mem.byte(page_table::entry_ppn(w), va % 4096),
            None => 0,
        }
    }

    /// How many of the `len` bytes from address `va` on may be accessed, up to
    /// the first that may not.
    pub open spec fn reach(&self, mem: Memory, va: int, len: int, need: u64) -> int
        decreases len,
    {
        if len <= 0 || !self.access(mem, va, need) {
            0
        } else {
            1 + self.reach(mem, va + 1, len - 1, need)
        }
    }

    /// `mem` is `before` with the bytes `data` stored from user address `va` on.
    pub open spec fn stored(&self, mem: Memory, before: Memory, va: int, data: Seq<u8>) -> bool {
        forall|x: int|
            #![trigger self.ubyte(mem, x)]
            self.access(before, x, 0) ==> self.ubyte(mem, x) == (if va <= x < va + data.len() {
                data[x - va]
            } else {
                self.ubyte(before, x)
            })
    }

    /// The little-endian number in the eight bytes from user address `va` on.
    pub open spec fn uword(&self, mem: Memory, va: int) -> int {
        bits::le(Seq::new(8, |k: int| self.ubyte(mem, va + k)), 0, 8)
    }

    /// The NUL-terminated string at user address `va`, of less than `max` bytes.
    pub open spec fn cstr(&self, mem: Memory, va: int, max: int) -> Option<Seq<u8>>
        decreases max,
    {
        if max <= 0 || !self.access(mem, va, 2) {
            None
        } else if self.ubyte(mem, va) == 0 {
            Some(Seq::empty())
        } else {
            match self.cstr(mem, va + 1, max - 1) {
                Some(s) => Some(seq![self.ubyte(mem, va)] + s),
                None => None,
            }
        }
    }

    /// A page that users can access is backed by a frame of the space.
    pub proof fn lemma_user_page(&self, mem: Memory, va: int) -> (i: int)
        requires
            mem.wf(),
            self.wf(mem),
            self.is_user(),
            self.access(mem, va, 0),
        ensures
            ({
                let p = page_table::entry_ppn(self.page_entry(mem, va)->0);
                &&& space::frames_of(self.regions()).contains(p)
                &&& !self.spec_table().tables().contains(p)
                &&& mem.used(p)
                &&& 0 <= i < self.regions().len()
                &&& 0 <= space::offset(va / 4096, self.regions()[i].first()) < self.regions()[i].frames().len()
                &&& p == self.regions()[i].frames()[space::offset(va / 4096, self.regions()[i].first())]
            }),
    {
        reveal(AddressSpace::sound);
        let v = va / 4096;
        let w = self.page_entry(mem, va)->0;
        assert(page_table::walk(mem, self.root(), v) == Some((2int, w)));
        crate::mm::page_table::lemma_index(v, 0);
        let i = choose|i: int| 0 <= i < self.regions().len() && #[trigger] self.in_region(v, i);
        let r = self.regions()[i];
        assert(self.backed(mem, v, i));
        assert(self.region_ok(mem, i));
        let o = space::offset(v, r.first());
        space::lemma_offset(v, r.first());
        assert(r.frames().len() == r.pages());
        r.lemma_owned(mem);
        let p = r.frames()[o];
        mem.lemma_owns_frame(p);
        page_table::lemma_installed(r.spec_perm());
        assert(page_table::entry_ppn(w) == p);
        assert(r.frames().to_set().contains(p));
        space::lemma_frames_of(self.regions(), p);
        i
    }

    /// What may be accessed in some way may be accessed.
    pub proof fn lemma_any_access(&self, mem: Memory, x: int, need: u64)
        requires
            self.access(mem, x, need),
        ensures
            self.access(mem, x, 0),
    {
        lemma_low_flags(self.page_entry(mem, x)->0, 0);
    }

    /// An address of a region: the byte there is the region's, and it may be
    /// accessed as the region's permissions say.
    pub proof fn lemma_in_region(&self, mem: Memory, i: int, x: int)
        requires
            mem.wf(),
            self.wf(mem),
            self.is_user(),
            0 <= i < self.regions().len(),
            self.regions()[i].spec_start() <= x < self.regions()[i].spec_end(),
        ensures
            self.page_entry(mem, x) is Some,
            page_table::entry_ppn(self.page_entry(mem, x)->0) == self.regions()[i].frames()[x / 4096
                - self.regions()[i].first()],
            0 <= x / 4096 - self.regions()[i].first() < self.regions()[i].frames().len(),
            self.ubyte(mem, x) == self.regions()[i].byte(mem, x - self.regions()[i].spec_start()),
            ({
                let perm = self.regions()[i].spec_perm();
                &&& self.access(mem, x, 0) == (perm & 16 == 16)
                &&& self.access(mem, x, 2) == (perm & 16 == 16 && perm & 2 == 2)
                &&& self.access(mem, x, 4) == (perm & 16 == 16 && perm & 4 == 4)
                &&& self.access(mem, x, 8) == (perm & 16 == 16 && perm & 8 == 8)
            }),
    {
        reveal(AddressSpace::sound);
        let r = self.regions()[i];
        let v = x / 4096;
        assert(self.region_ok(mem, i));
        assert(r.lower());
        assert(r.frames().len() == r.pages());
        assert(space::offset(v, r.first()) == v - r.first());
        assert(self.in_region(v, i));
        assert(self.backed(mem, v, i));
        r.lemma_owned(mem);
        mem.lemma_owns_frame(r.frames()[v - r.first()]);
        page_table::lemma_installed(r.spec_perm());
        let w = self.page_entry(mem, x)->0;
        lemma_low_flags(w, 0);
        lemma_low_flags(w, 2);
        lemma_low_flags(w, 4);
        lemma_low_flags(w, 8);
        assert((x - r.spec_start()) / 4096 == v - r.first());
        assert((x - r.spec_start()) % 4096 == x % 4096);
    }

    /// Addresses in different pages are backed by different frames.
    pub proof fn lemma_user_pages_apart(&self, mem: Memory, a: int, b: int)
        requires
            mem.wf(),
            self.wf(mem),
            self.is_user(),
            self.access(mem, a, 0),
            self.access(mem, b, 0),
            page_table::entry_ppn(self.page_entry(mem, a)->0) == page_table::entry_ppn(
                self.page_entry(mem, b)->0,
            ),
        ensures
            page_table::same_slot(a / 4096, b / 4096, 2),
            self.page_entry(mem, a) == self.page_entry(mem, b),
    {
        let u = a / 4096;
        let v = b / 4096;
        let i = self.lemma_user_page(mem, a);
        let j = self.lemma_user_page(mem, b);
        let p = page_table::entry_ppn(self.page_entry(mem, a)->0);
        let ri = self.regions()[i];
        let rj = self.regions()[j];
        assert(self.region_ok(mem, i) && self.region_ok(mem, j));
        assert(ri.frames().to_set().contains(p) && rj.frames().to_set().contains(p));
        assert(i == j);
        ri.lemma_owned(mem);
        assert(space::offset(u, ri.first()) == space::offset(v, ri.first()));
        space::lemma_offset_equal(u, v, ri.first());
        page_table::lemma_walk_shared(mem, self.root(), u, v);
    }

    /// Addresses of one page are accessible alike.
    proof fn lemma_same_page(&self, mem: Memory, a: int, b: int, need: u64)
        requires
            a / 4096 == b / 4096,
            self.access(mem, a, need),
        ensures
            self.access(mem, b, need),
            self.page_entry(mem, a) == self.page_entry(mem, b),
    {
    }

    /// Reaching over accessible bytes.
    pub proof fn lemma_reach_over(&self, mem: Memory, va: int, len: int, need: u64, n: int)
        requires
            0 <= n <= len,
            forall|i: int| 0 <= i < n ==> self.access(mem, #[trigger] (va + i), need),
        ensures
            self.reach(mem, va, len, need) == n + self.reach(mem, va + n, len - n, need),
        decreases n,
    {
        if n > 0 {
            assert(self.access(mem, va + 0, need));
            assert forall|i: int| 0 <= i < n - 1 implies self.access(mem, #[trigger] (va + 1 + i), need) by {
                assert(self.access(mem, va + (i + 1), need));
            }
            self.lemma_reach_over(mem, va + 1, len - 1, need, n - 1);
        }
    }

    /// What reaching means.
    pub proof fn lemma_reach(&self, mem: Memory, va: int, len: int, need: u64)
        requires
            0 <= len,
        ensures
            0 <= self.reach(mem, va, len, need) <= len,
            forall|i: int|
                0 <= i < self.reach(mem, va, len, need) ==> self.access(mem, #[trigger] (va + i), need),
            self.reach(mem, va, len, need) < len ==> !self.access(
                mem,
                va + self.reach(mem, va, len, need),
                need,
            ),
        decreases len,
    {
        if len > 0 && self.access(mem, va, need) {
            self.lemma_reach(mem, va + 1, len - 1, need);
            assert forall|i: int| 0 <= i < self.reach(mem, va, len, need) implies self.access(
                mem,
                #[trigger] (va + i),
                need,
            ) by {
                if i > 0 {
                    assert(self.access(mem, va + 1 + (i - 1), need));
                }
            }
        }
    }

    /// The frame of the page of `va`, if user code may access it so.
    fn user_page(&self, mem: &Memory, va: u64, need: u64) -> (r: Option<PhysPageNum>)
        requires
            mem.wf(),
            self.wf(*mem),
            need <= 15,
        ensures
            match r {
                Some(p) => self.access(*mem, va as int, need) && p.0 == page_table::entry_ppn(
                    self.page_entry(*mem, va as int)->0,
                ),
                None => !self.access(*mem, va as int, need),
            },
    {
        if va >= USER_MAX_ADDR {
            return None;
        }
        match self.table().translate(mem, VirtAddr(va).vpn()) {
            None => None,
            Some(pte) => {
                proof {
                    lemma_low_flags(pte.0, need);
                    page_table::lemma_flag_bits(0);
                }
                let flags: PteFlags = pte.flags();
                if flags.contains(PteFlags(PteFlags::USER)) && flags.contains(PteFlags(need)) {
                    Some(pte.ppn())
                } else {
                    None
                }
            },
        }
    }
}

/// User addresses whose pages share a slot of the last level are in one page.
proof fn lemma_one_page(x: int, a: int)
    requires
        0 <= x < USER_MAX_ADDR,
        0 <= a < USER_MAX_ADDR,
        page_table::same_slot(x / 4096, a / 4096, 2),
    ensures
        x / 4096 == a / 4096,
{
    space::lemma_offset(x / 4096, a / 4096);
}

impl AddressSpace {
    /// What is written to a page of the space changes no mapping, and nothing
    /// outside the space's own frames.
    proof fn lemma_page_written(&self, m1: Memory, mem: Memory, va: int)
        requires
            m1.wf(),
            self.wf(m1),
            self.is_user(),
            self.access(m1, va, 0),
            mem.allocator() == m1.allocator(),
            forall|q: int|
                m1.used(q) && q != page_table::entry_ppn(self.page_entry(m1, va)->0)
                    ==> #[trigger] mem.same_frame(m1, q),
        ensures
            self.wf(mem),
            space::unmoved(mem, m1, self.root()),
            mem.same_but(m1, space::frames_of(self.regions())),
    {
        let p = page_table::entry_ppn(self.page_entry(m1, va)->0);
        let i = self.lemma_user_page(m1, va);
        self.lemma_live(m1);
        assert forall|q: int| #[trigger] self.spec_table().tables().contains(q) implies mem.same_frame(m1, q) by {
            assert(self.support().contains(q));
        }
        assert forall|q: int| #[trigger] self.support().contains(q) implies mem.owns(q, 0) by {}
        self.lemma_undisturbed(m1, mem);
    }

    /// One more page's worth of bytes is stored.
    #[verifier::rlimit(40)]
    proof fn lemma_stored_more(
        &self,
        m0: Memory,
        m1: Memory,
        mem: Memory,
        va: int,
        data: Seq<u8>,
        i: int,
        n: int,
    )
        requires
            m1.wf(),
            self.wf(m1),
            self.is_user(),
            0 <= va,
            0 <= i,
            0 < n,
            i + n <= data.len(),
            (va + i) % 4096 + n <= 4096,
            space::unmoved(m1, m0, self.root()),
            space::unmoved(mem, m1, self.root()),
            self.access(m1, va + i, 0),
            self.stored(m1, m0, va, data.take(i)),
            ({
                let p = page_table::entry_ppn(self.page_entry(m1, va + i)->0);
                let o = (va + i) % 4096;
                &&& forall|q: int| m1.used(q) && q != p ==> #[trigger] mem.same_frame(m1, q)
                &&& forall|j: int|
                    0 <= j < 4096 ==> #[trigger] mem.byte(p, j) == (if o <= j < o + n {
                        data[i + j - o]
                    } else {
                        m1.byte(p, j)
                    })
            }),
        ensures
            self.stored(mem, m0, va, data.take(i + n)),
    {
        let p = page_table::entry_ppn(self.page_entry(m1, va + i)->0);
        let o = (va + i) % 4096;
        let d1 = data.take(i);
        let d2 = data.take(i + n);
        let root = self.root();
        assert forall|x: int|
            #![trigger self.ubyte(mem, x)]
            self.access(m0, x, 0) implies self.ubyte(mem, x) == (if va <= x < va + d2.len() {
            d2[x - va]
        } else {
            self.ubyte(m0, x)
        }) by {
            assert(page_table::walk(m1, root, x / 4096) == page_table::walk(m0, root, x / 4096));
            assert(page_table::walk(mem, root, x / 4096) == page_table::walk(m1, root, x / 4096));
            assert(self.access(m1, x, 0));
            assert(self.ubyte(m1, x) == (if va <= x < va + d1.len() {
                d1[x - va]
            } else {
                self.ubyte(m0, x)
            }));
            let q = page_table::entry_ppn(self.page_entry(m1, x)->0);
            let k = self.lemma_user_page(m1, x);
            if q == p {
                self.lemma_user_pages_apart(m1, x, va + i);
                lemma_one_page(x, va + i);
                assert(mem.byte(p, x % 4096) == (if o <= x % 4096 < o + n {
                    data[i + x % 4096 - o]
                } else {
                    m1.byte(p, x % 4096)
                }));
            } else {
                assert(x / 4096 != (va + i) / 4096);
                assert(mem.same_frame(m1, q));
                assert(mem.word(q, (x % 4096) / 8) == m1.word(q, (x % 4096) / 8));
            }
        }
    }

    /// Could user code write all of the `len` bytes from address `va` on?
    pub fn writable(&self, mem: &Memory, va: VirtAddr, len: usize) -> (r: bool)
        requires
            mem.wf(),
            self.wf(*mem),
        ensures
            r == (self.reach(*mem, va.0 as int, len as int, 4) == len),
    {
        let ghost v0 = va.0 as int;
        let mut i: usize = 0;
        while i < len
            invariant
                mem.wf(),
                self.wf(*mem),
                v0 == va.0,
                i <= len,
                self.reach(*mem, v0, len as int, 4) == i + self.reach(*mem, v0 + i, len - i, 4),
            decreases len - i,
        {
            let at: u64 = match va.0.checked_add(i as u64) {
                Some(at) => at,
                None => {
                    return false;
                },
            };
            if self.user_page(mem, at, 4).is_none() {
                return false;
            }
            i = i + 1;
        }
        true
    }

    /// Copy `data` to user address `va`.
    ///
    /// Goes page by page, up to the first page that user code could not write to
    /// itself; `None` if there is one.
    pub fn copy_to_user(&self, mem: &mut Memory, va: VirtAddr, data: &[u8]) -> (r: Option<()>)
        requires
            old(mem).wf(),
            self.wf(*old(mem)),
            self.is_user(),
        ensures
            final(mem).wf(),
            self.wf(*final(mem)),
            final(mem).allocator() == old(mem).allocator(),
            final(mem).same_but(*old(mem), space::frames_of(self.regions())),
            space::unmoved(*final(mem), *old(mem), self.root()),
            ({
                let n = self.reach(*old(mem), va.0 as int, data@.len() as int, 4);
                &&& r is Some <==> n == data@.len()
                &&& self.stored(*final(mem), *old(mem), va.0 as int, data@.take(n))
            }),
    {
        let ghost m0 = *mem;
        let ghost v0 = va.0 as int;
        let ghost len = data@.len() as int;
        let ghost fs = space::frames_of(self.regions());
        let mut i: usize = 0;
        proof {
            page_table::lemma_flag_bits(0);
            lemma_low_flags(0, 0);
            assert forall|x: int|
                #![trigger self.ubyte(m0, x)]
                self.access(m0, x, 0) implies self.ubyte(m0, x) == (if v0 <= x < v0 + data@.take(0).len() {
                data@.take(0)[x - v0]
            } else {
                self.ubyte(m0, x)
            }) by {}
        }
        while i < data.len()
            invariant
                mem.wf(),
                self.wf(*mem),
                self.is_user(),
                m0.wf(),
                v0 == va.0,
                i <= len == data@.len(),
                fs == space::frames_of(self.regions()),
                mem.allocator() == m0.allocator(),
                mem.same_but(m0, fs),
                space::unmoved(*mem, m0, self.root()),
                self.stored(*mem, m0, v0, data@.take(i as int)),
                self.reach(m0, v0, len, 4) == i + self.reach(m0, v0 + i, len - i, 4),
                m0 == *old(mem),
            decreases len - i,
        {
            let ghost m1 = *mem;
            let at: u64 = match va.0.checked_add(i as u64) {
                Some(at) => at,
                None => {
                    return None;
                },
            };
            proof {
                assert(page_table::walk(m1, self.root(), at as int / 4096) == page_table::walk(
                    m0,
                    self.root(),
                    at as int / 4096,
                ));
            }
            let p: PhysPageNum = match self.user_page(mem, at, 4) {
                Some(p) => p,
                None => {
                    return None;
                },
            };
            let off: u64 = at % PAGE_SIZE;
            let room: u64 = PAGE_SIZE - off;
            let left: usize = data.len() - i;
            let n: usize = if left as u64 <= room {
                left
            } else {
                room as usize
            };
            proof {
                lemma_low_flags(self.page_entry(m1, at as int)->0, 0);
                let k = self.lemma_user_page(m1, at as int);
                assert forall|j: int| 0 <= j < n implies self.access(m0, #[trigger] (v0 + i + j), 4) by {
                    self.lemma_same_page(m0, at as int, v0 + i + j, 4);
                }
                self.lemma_reach_over(m0, v0 + i, len - i, 4, n as int);
            }
            mem.copy_in(p, off, data, i, n);
            proof {
                self.lemma_page_written(m1, *mem, at as int);
                self.lemma_stored_more(m0, m1, *mem, v0, data@, i as int, n as int);
                assert forall|w: int| 0 <= w implies #[trigger] page_table::walk(*mem, self.root(), w)
                    == page_table::walk(m0, self.root(), w) by {
                    assert(page_table::walk(m1, self.root(), w) == page_table::walk(m0, self.root(), w));
                }
                assert forall|f: int| m0.used(f) && mem.used(f) && !fs.contains(f) implies
                    #[trigger] mem.same_frame(m0, f) by {
                    assert(m1.same_frame(m0, f));
                    assert(mem.same_frame(m1, f));
                }
            }
            i = i + n;
        }
        Some(())
    }

    /// Fill `buf` from user address `va`.
    ///
    /// Goes page by page, up to the first page that user code could not read
    /// itself; `None` if there is one.
    pub fn copy_from_user(&self, mem: &Memory, va: VirtAddr, buf: &mut Vec<u8>) -> (r: Option<()>)
        requires
            mem.wf(),
            self.wf(*mem),
            self.is_user(),
        ensures
            final(buf)@.len() == old(buf)@.len(),
            ({
                let n = self.reach(*mem, va.0 as int, old(buf)@.len() as int, 2);
                &&& r is Some <==> n == old(buf)@.len()
                &&& forall|j: int|
                    0 <= j < old(buf)@.len() ==> #[trigger] final(buf)@[j] == (if j < n {
                        self.ubyte(*mem, va.0 + j)
                    } else {
                        old(buf)@[j]
                    })
            }),
    {
        let ghost before = buf@;
        let ghost v0 = va.0 as int;
        let len: usize = buf.len();
        let mut i: usize = 0;
        while i < len
            invariant
                mem.wf(),
                self.wf(*mem),
                self.is_user(),
                v0 == va.0,
                i <= len == before.len(),
                before == old(buf)@,
                buf@.len() == len,
                self.reach(*mem, v0, len as int, 2) == i + self.reach(*mem, v0 + i, len - i, 2),
                forall|j: int|
                    0 <= j < len ==> #[trigger] buf@[j] == (if j < i {
                        self.ubyte(*mem, v0 + j)
                    } else {
                        before[j]
                    }),
            decreases len - i,
        {
            let at: u64 = match va.0.checked_add(i as u64) {
                Some(at) => at,
                None => {
                    return None;
                },
            };
            let p: PhysPageNum = match self.user_page(mem, at, 2) {
                Some(p) => p,
                None => {
                    return None;
                },
            };
            let off: u64 = at % PAGE_SIZE;
            let room: u64 = PAGE_SIZE - off;
            let left: usize = len - i;
            let n: usize = if left as u64 <= room {
                left
            } else {
                room as usize
            };
            proof {
                lemma_low_flags(self.page_entry(*mem, at as int)->0, 0);
                let k = self.lemma_user_page(*mem, at as int);
                assert forall|j: int| 0 <= j < n implies self.access(*mem, #[trigger] (v0 + i + j), 2) by {
                    self.lemma_same_page(*mem, at as int, v0 + i + j, 2);
                }
                self.lemma_reach_over(*mem, v0 + i, len - i, 2, n as int);
            }
            let ghost b1 = buf@;
            mem.copy_out(p, off, buf, i, n);
            proof {
                assert forall|j: int| 0 <= j < len implies #[trigger] buf@[j] == (if j < i + n {
                    self.ubyte(*mem, v0 + j)
                } else {
                    before[j]
                }) by {
                    assert(b1[j] == b1[j]);
                    if i <= j < i + n {
                        self.lemma_same_page(*mem, at as int, v0 + j, 2);
                    }
                }
            }
            i = i + n;
        }
        Some(())
    }

    /// Read the NUL-terminated string at user address `va`, which must end within
    /// `max` bytes; without the NUL.
    pub fn read_cstr(&self, mem: &Memory, va: VirtAddr, max: usize) -> (r: Option<Vec<u8>>)
        requires
            mem.wf(),
            self.wf(*mem),
            self.is_user(),
        ensures
            match self.cstr(*mem, va.0 as int, max as int) {
                Some(s) => r matches Some(v) && v@ == s,
                None => r is None,
            },
    {
        let ghost v0 = va.0 as int;
        let mut out: Vec<u8> = Vec::new();
        let mut i: usize = 0;
        while i < max
            invariant
                mem.wf(),
                self.wf(*mem),
                self.is_user(),
                v0 == va.0,
                i <= max,
                out@.len() == i,
                match self.cstr(*mem, v0 + i, max - i) {
                    Some(s) => self.cstr(*mem, v0, max as int) == Some(out@ + s),
                    None => self.cstr(*mem, v0, max as int) is None,
                },
            decreases max - i,
        {
            let at: u64 = match va.0.checked_add(i as u64) {
                Some(at) => at,
                None => {
                    return None;
                },
            };
            let p: PhysPageNum = match self.user_page(mem, at, 2) {
                Some(p) => p,
                None => {
                    return None;
                },
            };
            proof {
                lemma_low_flags(self.page_entry(*mem, at as int)->0, 0);
                let k = self.lemma_user_page(*mem, at as int);
            }
            let b: u8 = mem.read_byte(p, at % PAGE_SIZE);
            if b == 0 {
                assert(out@ + Seq::<u8>::empty() =~= out@);
                return Some(out);
            }
            let ghost o1 = out@;
            out.push(b);
            proof {
                match self.cstr(*mem, v0 + i + 1, max - i - 1) {
                    Some(s) => {
                        assert(o1 + (seq![b] + s) =~= out@ + s);
                    },
                    None => {},
                }
            }
            i = i + 1;
        }
        None
    }
}

/// The flags of an entry are in its low bits.
proof fn lemma_low_flags(w: u64, need: u64)
    by (bit_vector)
    requires
        need <= 15,
    ensures
        ((w % 1024) & 16 == 16) == (w & 16 == 16),
        ((w % 1024) & need == need) == (w & need == need),
        w & 0 == 0,
{
}

/// What was copied to user memory is what is copied back from it.
pub proof fn law_copy_round_trip(s: AddressSpace, m0: Memory, m1: Memory, va: int, data: Seq<u8>)
    requires
        s.reach(m0, va, data.len() as int, 2) == data.len(),
        s.reach(m0, va, data.len() as int, 4) == data.len(),
        space::unmoved(m1, m0, s.root()),
        s.stored(m1, m0, va, data.take(s.reach(m0, va, data.len() as int, 4))),
    ensures
        s.reach(m1, va, data.len() as int, 2) == data.len(),
        forall|j: int| 0 <= j < data.len() ==> #[trigger] s.ubyte(m1, va + j) == data[j],
{
    let len = data.len() as int;
    s.lemma_reach(m0, va, len, 2);
    assert(data.take(len) =~= data);
    assert forall|j: int| 0 <= j < len implies s.access(m1, #[trigger] (va + j), 2) by {
        assert(s.access(m0, va + j, 2));
        assert(page_table::walk(m1, s.root(), (va + j) / 4096) == page_table::walk(m0, s.root(), (va + j) / 4096));
    }
    s.lemma_reach_over(m1, va, len, 2, len);
    assert forall|j: int| 0 <= j < len implies #[trigger] s.ubyte(m1, va + j) == data[j] by {
        assert(s.access(m0, va + j, 2));
        lemma_low_flags(s.page_entry(m0, va + j)->0, 0);
        assert(s.access(m0, va + j, 0));
    }
}

/// What one space writes no other space sees: a space keeps its mappings and its
/// contents while only frames that it does not depend on are written.
pub proof fn law_spaces_are_isolated(a: AddressSpace, b: AddressSpace, m0: Memory, m1: Memory)
    requires
        m0.wf(),
        a.wf(m0),
        b.wf(m0),
        b.is_user(),
        a.footprint().disjoint(b.support()),
        m1.allocator() == m0.allocator(),
        m1.same_but(m0, space::frames_of(a.regions())),
    ensures
        b.wf(m1),
        forall|x: int, need: u64| #[trigger] b.access(m1, x, need) == b.access(m0, x, need),
        forall|x: int| b.access(m0, x, 0) ==> #[trigger] b.ubyte(m1, x) == b.ubyte(m0, x),
{
    b.lemma_live(m0);
    let fs = space::frames_of(a.regions());
    assert forall|p: int| #[trigger] b.support().contains(p) implies m1.same_frame(m0, p) by {
        assert(!fs.contains(p)) by {
            if fs.contains(p) {
                assert(a.footprint().contains(p));
            }
        }
    }
    assert forall|p: int| #[trigger] b.spec_table().tables().contains(p) implies m1.same_frame(m0, p) by {
        assert(b.support().contains(p));
    }
    b.lemma_undisturbed(m0, m1);
    assert forall|x: int, need: u64| #[trigger] b.access(m1, x, need) == b.access(m0, x, need) by {
        if 0 <= x {
            assert(page_table::walk(m1, b.root(), x / 4096) == page_table::walk(m0, b.root(), x / 4096));
        }
    }
    assert forall|x: int| b.access(m0, x, 0) implies #[trigger] b.ubyte(m1, x) == b.ubyte(m0, x) by {
        assert(page_table::walk(m1, b.root(), x / 4096) == page_table::walk(m0, b.root(), x / 4096));
        let i = b.lemma_user_page(m0, x);
        let p = page_table::entry_ppn(b.page_entry(m0, x)->0);
        assert(b.support().contains(p));
        assert(m1.same_frame(m0, p));
        assert(m1.word(p, (x % 4096) / 8) == m0.word(p, (x % 4096) / 8));
    }
}

/// Every address that user code can access is backed by a frame that the space
/// owns, that is none of its tables, and that backs no other page.
pub proof fn law_user_pages_are_private(s: AddressSpace, mem: Memory, a: int, b: int)
    requires
        mem.wf(),
        s.wf(mem),
        s.is_user(),
        s.access(mem, a, 0),
        s.access(mem, b, 0),
    ensures
        s.footprint().contains(page_table::entry_ppn(s.page_entry(mem, a)->0)),
        !s.spec_table().tables().contains(page_table::entry_ppn(s.page_entry(mem, a)->0)),
        page_table::entry_ppn(s.page_entry(mem, a)->0) == page_table::entry_ppn(s.page_entry(mem, b)->0)
            ==> page_table::same_slot(a / 4096, b / 4096, 2),
{
    let i = s.lemma_user_page(mem, a);
    if page_table::entry_ppn(s.page_entry(mem, a)->0) == page_table::entry_ppn(s.page_entry(mem, b)->0) {
        s.lemma_user_pages_apart(mem, a, b);
    }
}

/// User memory can be got at where the tables have a page of the last level that is for
/// user code and has every permission asked for, below the end of the user half. What is
/// there is the byte of the page's frame.
pub proof fn law_access_goes_by_the_page(s: AddressSpace, mem: Memory, x: int)
    requires
        0 <= x,
    ensures
        s.access(mem, x, 0) <==> x < 0x40_0000_0000 && (page_table::walk(mem, s.root(), x / 4096) matches Some((l, w))
            && l == 2 && (w / 16) % 2 == 1),
        s.access(mem, x, 0) ==> (page_table::walk(mem, s.root(), x / 4096) matches Some((l, w)) && {
            &&& s.access(mem, x, 2) == ((w / 2) % 2 == 1)
            &&& s.access(mem, x, 4) == ((w / 4) % 2 == 1)
            &&& s.access(mem, x, 8) == ((w / 8) % 2 == 1)
            &&& s.ubyte(mem, x) == mem.byte((w as int / 1024) % 0x1000_0000_0000, x % 4096)
        }),
        s.access(mem, x, 2) || s.access(mem, x, 4) || s.access(mem, x, 8) ==> s.access(mem, x, 0),
{
    if let Some((l, w)) = page_table::walk(mem, s.root(), x / 4096) {
        lemma_access_bits(w);
    }
}

proof fn lemma_access_bits(w: u64)
    by (bit_vector)
    ensures
        w & 16 == 16 <==> (w / 16) % 2 == 1,
        w & 0 == 0,
        w & 2 == 2 <==> (w / 2) % 2 == 1,
        w & 4 == 4 <==> (w / 4) % 2 == 1,
        w & 8 == 8 <==> (w / 8) % 2 == 1,
{
}

/// A string in user memory is the bytes from its address up to a NUL. It is read exactly
/// if it and its NUL may be read and it is shorter than the limit.
pub proof fn law_strings_end_at_their_nul(s: AddressSpace, mem: Memory, va: int, max: int, n: int)
    requires
        0 <= n,
        forall|j: int| 0 <= j < n ==> s.ubyte(mem, #[trigger] (va + j)) != 0,
        s.ubyte(mem, va + n) == 0,
    ensures
        s.cstr(mem, va, max) is Some <==> n < max && forall|j: int| 0 <= j <= n ==> s.access(mem, #[trigger] (va + j), 2),
        s.cstr(mem, va, max) matches Some(c) ==> c.len() == n && forall|j: int|
            0 <= j < n ==> #[trigger] c[j] == s.ubyte(mem, va + j),
    decreases n,
{
    if n == 0 {
        assert(s.ubyte(mem, va + 0) == 0);
        if max > 0 && s.access(mem, va, 2) {
            assert forall|j: int| 0 <= j <= n implies s.access(mem, #[trigger] (va + j), 2) by {}
        } else {
            assert(s.access(mem, va + 0, 2) == s.access(mem, va, 2));
        }
    } else {
        assert(s.ubyte(mem, va + 0) != 0);
        assert forall|j: int| 0 <= j < n - 1 implies s.ubyte(mem, #[trigger] (va + 1 + j)) != 0 by {
            assert(s.ubyte(mem, va + (j + 1)) != 0);
        }
        law_strings_end_at_their_nul(s, mem, va + 1, max - 1, n - 1);
        if max > 0 && s.access(mem, va, 2) {
            if let Some(rest) = s.cstr(mem, va + 1, max - 1) {
                assert forall|j: int| 0 <= j <= n implies s.access(mem, #[trigger] (va + j), 2) by {
                    if j > 0 {
                        assert(s.access(mem, va + 1 + (j - 1), 2));
                    }
                }
                let c = seq![s.ubyte(mem, va)] + rest;
                assert forall|j: int| 0 <= j < n implies #[trigger] c[j] == s.ubyte(mem, va + j) by {
                    if j > 0 {
                        assert(rest[j - 1] == s.ubyte(mem, va + 1 + (j - 1)));
                    }
                }
            } else if n < max && forall|j: int| 0 <= j <= n ==> s.access(mem, #[trigger] (va + j), 2) {
                assert forall|j: int| 0 <= j <= n - 1 implies s.access(mem, #[trigger] (va + 1 + j), 2) by {
                    assert(s.access(mem, va + (j + 1), 2));
                }
            }
        } else {
            assert(s.access(mem, va + 0, 2) == s.access(mem, va, 2));
        }
    }
}

/// A word in user memory is its eight bytes, the least significant first.
pub proof fn law_words_are_little_endian(s: AddressSpace, mem: Memory, va: int)
    ensures
        s.uword(mem, va) == s.ubyte(mem, va) + 0x100 * s.ubyte(mem, va + 1) + 0x1_0000 * s.ubyte(mem, va + 2) + 0x100_0000
            * s.ubyte(mem, va + 3) + 0x1_0000_0000 * s.ubyte(mem, va + 4) + 0x100_0000_0000 * s.ubyte(mem, va + 5)
            + 0x1_0000_0000_0000 * s.ubyte(mem, va + 6) + 0x100_0000_0000_0000 * s.ubyte(mem, va + 7),
{
    let b = Seq::new(8, |k: int| s.ubyte(mem, va + k));
    crate::bits::law_least_significant_byte_first(b, 0);
}

} // verus!
