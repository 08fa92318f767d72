//! A program in memory: its segments, its stack, and its arguments.

use vstd::prelude::*;
use crate::bits;
use crate::config::{USER_MAX_ADDR, USER_STACK_SIZE, USER_STACK_TOP};
use crate::loader::{self, LoadError, LoadedImage, Outcome, Segment};
use crate::mm::addr::{self, VirtAddr};
use crate::mm::frame::Memory;
use crate::mm::page_table::{self, MapError, PteFlags};
use crate::mm::space::{self, AddressSpace, Backing, Region};
use crate::task::args;

verus! {

/// Why an `exec` could not be completed.
///
/// Distinct from `LoadError` because the failures after a successful parse -- no
/// memory for a stack, no memory for the argument vector -- are the caller's
/// problem in a different way.
#[derive(Debug, Clone, Copy, PartialEq, Eq, Structural)]
pub enum ExecError {
    /// The image itself was rejected.
    BadImage(LoadError),
    /// Ran out of memory building the new address space.
    OutOfMemory,
}

/// Low end of the user stack.
pub const STACK_BOTTOM: u64 = USER_STACK_TOP - USER_STACK_SIZE;

/// Permissions of writable user memory: user, read and write.
pub const USER_RW: u64 = 22;

/// The permissions of address `x`, and what it holds, once the first `n` of the
/// segments `segs` were loaded and the stack was mapped.
pub open spec fn area(image: Seq<u8>, segs: Seq<Segment>, n: int, x: int) -> Option<(u64, u8)>
    decreases n,
{
    if n <= 0 {
        if STACK_BOTTOM <= x < USER_STACK_TOP {
            Some((USER_RW, 0))
        } else {
            None
        }
    } else {
        let g = segs[n - 1];
        if addr::page_floor(g.vaddr as int) <= x < addr::page_ceil(g.end as int) {
            Some(
                (
                    g.perm,
                    if g.vaddr <= x < g.vaddr + g.filesz {
                        image[g.offset + x - g.vaddr]
                    } else {
                        0
                    },
                ),
            )
        } else {
            area(image, segs, n - 1, x)
        }
    }
}

/// The segments of `image`.
pub open spec fn segments_of(image: Seq<u8>) -> Seq<Segment> {
    let h = loader::header_of(image)->Ok_0;
    loader::segments(image, h, h.phnum as int)
}

/// What address `x` of the program `image` may be used for, and what it holds,
/// before its arguments are in place.
pub open spec fn bare(image: Seq<u8>, x: int) -> Option<(u64, u8)> {
    area(image, segments_of(image), segments_of(image).len() as int, x)
}

/// May the program `image` write to address `x`?
pub open spec fn writable(image: Seq<u8>, x: int) -> bool {
    bare(image, x) matches Some((perm, _)) && (perm / 4) % 2 == 1
}

/// Do the arguments land in memory that the program may write?
pub open spec fn args_fit(image: Seq<u8>, a: Seq<Vec<u8>>) -> bool {
    let sp = USER_STACK_TOP as int;
    &&& forall|i: int, x: int|
        #![trigger args::string_at(a, sp, i), writable(image, x)]
        0 <= i < a.len() && args::string_at(a, sp, i) <= x <= args::string_at(a, sp, i) + a[i]@.len()
            ==> writable(image, x)
    &&& forall|x: int|
        args::argv_at(a, sp) <= x < args::argv_at(a, sp) + 8 * (a.len() + 1) ==> #[trigger] writable(image, x)
}

/// The stack that the arguments need to fit below its top.
pub open spec fn args_room(a: Seq<Vec<u8>>) -> int {
    args::room(a, a.len() as int) + (a.len() + 1) * 8 + 16
}

/// The outcome of building the program `image` with arguments `a` out of `free`
/// frames.
pub open spec fn exec_result(image: Seq<u8>, a: Seq<Vec<u8>>, free: int) -> Result<Outcome, ExecError> {
    match loader::load_result(image, free) {
        Err(e) => Err(ExecError::BadImage(e)),
        Ok(o) => {
            let plan = space::install(
                o.leaves,
                Backing::Framed,
                STACK_BOTTOM as int / 4096,
                USER_STACK_TOP as int / 4096,
                o.free,
            );
            if plan.result is Err || !args_fit(image, a) {
                Err(ExecError::OutOfMemory)
            } else {
                Ok(Outcome { entry: o.entry, brk: o.brk, leaves: plan.leaves, free: plan.free })
            }
        },
    }
}

/// `s` grants at address `x` what `a` says, and holds `b` there.
pub open spec fn shows(s: AddressSpace, mem: Memory, x: int, a: Option<(u64, u8)>, b: u8) -> bool {
    match a {
        None => !s.access(mem, x, 0),
        Some((perm, _)) => {
            &&& s.access(mem, x, 0)
            &&& s.access(mem, x, 2) == ((perm / 2) % 2 == 1)
            &&& s.access(mem, x, 4) == ((perm / 4) % 2 == 1)
            &&& s.access(mem, x, 8) == ((perm / 8) % 2 == 1)
            &&& s.ubyte(mem, x) == b
        },
    }
}

/// The byte at `x` of the program `image` with arguments `a`.
pub open spec fn program_byte(image: Seq<u8>, a: Seq<Vec<u8>>, x: int) -> u8 {
    match args::vector(a, USER_STACK_TOP as int, a.len() as int + 1, x) {
        Some(b) => b,
        None => (bare(image, x)->0).1,
    }
}

/// `s` is the program `image` with arguments `a`, as it starts.
pub open spec fn starts_as(s: AddressSpace, mem: Memory, image: Seq<u8>, a: Seq<Vec<u8>>) -> bool {
    forall|x: int|
        0 <= x < USER_MAX_ADDR ==> shows(
            s,
            mem,
            x,
            #[trigger] bare(image, x),
            program_byte(image, a, x),
        )
}

/// The last region of `s` is the user stack: the top of user memory but for a page, for
/// reading and writing.
pub open spec fn stacked(s: AddressSpace) -> bool {
    &&& s.regions().len() > 0
    &&& s.regions().last().spec_end() == USER_STACK_TOP
    &&& s.regions().last().spec_start() == USER_STACK_TOP - USER_STACK_SIZE
    &&& s.regions().last().spec_perm() == 22
}

/// The stack of a new program: 256 KiB, a page below the end of user memory, that may be
/// read and written and not executed.
pub proof fn law_stack_is_for_data(s: AddressSpace, mem: Memory, x: int)
    requires
        mem.wf(),
        s.wf(mem),
        s.is_user(),
        stacked(s),
        0x40_0000_0000 - 0x1000 - 0x4_0000 <= x < 0x40_0000_0000 - 0x1000,
    ensures
        s.access(mem, x, 0),
        s.access(mem, x, 2),
        s.access(mem, x, 4),
        !s.access(mem, x, 8),
{
    s.lemma_in_region(mem, s.regions().len() - 1, x);
    page_table::lemma_flag_bits(22);
}

/// A region of a space that is being built.
proof fn lemma_area(s: AddressSpace, mem: Memory, image: Seq<u8>, segs: Seq<Segment>, n: int, x: int)
    requires
        mem.wf(),
        s.wf(mem),
        s.is_user(),
        0 <= n <= segs.len(),
        s.regions().len() == segs.len() + 1,
        forall|k: int| 0 <= k < segs.len() ==> loader::carries(#[trigger] s.regions()[k], mem, image, segs[k]),
        forall|k: int| 0 <= k < segs.len() ==> 16 <= (#[trigger] segs[k]).perm < 32 && segs[k].vaddr <= segs[k].end
            && segs[k].filesz <= segs[k].end - segs[k].vaddr,
        s.regions().last().spec_start() == STACK_BOTTOM,
        s.regions().last().spec_end() == USER_STACK_TOP,
        s.regions().last().spec_perm() == USER_RW,
        forall|k: int|
            0 <= k < s.regions().last().pages() * 4096 ==> #[trigger] s.regions().last().byte(mem, k) == 0,
        0 <= x < USER_MAX_ADDR,
    ensures
        area(image, segs, n, x) matches Some((perm, b)) ==> shows(s, mem, x, Some((perm, b)), b),
    decreases n,
{
    if n <= 0 {
        let k = s.regions().len() - 1;
        if STACK_BOTTOM <= x < USER_STACK_TOP {
            s.lemma_in_region(mem, k, x);
            page_table::lemma_flag_bits(USER_RW);
            assert(s.regions()[k].byte(mem, x - STACK_BOTTOM) == 0);
        }
    } else {
        let g = segs[n - 1];
        if addr::page_floor(g.vaddr as int) <= x < addr::page_ceil(g.end as int) {
            let r = s.regions()[n - 1];
            assert(loader::carries(r, mem, image, g));
            s.lemma_in_region(mem, n - 1, x);
            page_table::lemma_flag_bits(g.perm);
            let j = x - r.spec_start();
            assert(s.region_ok(mem, n - 1));
            assert(0 <= j < r.pages() * 4096);
            assert(r.byte(mem, j) == s.ubyte(mem, x));
            assert(j == x - g.vaddr + g.vaddr % 4096);
        } else {
            lemma_area(s, mem, image, segs, n - 1, x);
        }
    }
}

/// What is in a segment or in the stack is in the program.
proof fn lemma_area_some(image: Seq<u8>, segs: Seq<Segment>, n: int, i: int, x: int)
    requires
        0 <= n <= segs.len(),
        (0 <= i < n && addr::page_floor(segs[i].vaddr as int) <= x < addr::page_ceil(segs[i].end as int))
            || STACK_BOTTOM <= x < USER_STACK_TOP,
    ensures
        area(image, segs, n, x) is Some,
    decreases n,
{
    if n > 0 {
        if !(addr::page_floor(segs[n - 1].vaddr as int) <= x < addr::page_ceil(segs[n - 1].end as int)) {
            lemma_area_some(image, segs, n - 1, i, x);
        }
    }
}

/// What is in no segment and not in the stack is not mapped.
proof fn lemma_area_none(s: AddressSpace, mem: Memory, image: Seq<u8>, segs: Seq<Segment>, x: int)
    requires
        mem.wf(),
        s.wf(mem),
        s.is_user(),
        s.regions().len() == segs.len() + 1,
        forall|k: int| 0 <= k < segs.len() ==> loader::carries(#[trigger] s.regions()[k], mem, image, segs[k]),
        s.regions().last().spec_start() == STACK_BOTTOM,
        s.regions().last().spec_end() == USER_STACK_TOP,
        0 <= x < USER_MAX_ADDR,
        s.access(mem, x, 0),
    ensures
        area(image, segs, segs.len() as int, x) is Some,
{
    let i = s.lemma_user_page(mem, x);
    let r = s.regions()[i];
    assert(s.region_ok(mem, i));
    assert(r.lower());
    s.lemma_full(mem, i);
    assert(r.first() <= x / 4096 < r.last());
    assert(r.spec_start() <= x < r.spec_end());
    if i < segs.len() {
        assert(loader::carries(r, mem, image, segs[i]));
    }
    lemma_area_some(image, segs, segs.len() as int, i, x);
}

/// Build the user stack region and return the initial stack pointer.
fn map_user_stack(s: &mut AddressSpace, mem: &mut Memory) -> (r: Option<u64>)
    requires
        old(mem).wf(),
        old(s).wf(*old(mem)),
    ensures
        final(mem).wf(),
        r matches Some(top) ==> top == USER_STACK_TOP,
        exists|region: Region, res: Result<(), MapError>|
            {
                &&& r is Some <==> res is Ok
                &&& region.wf()
                &&& region.lower()
                &&& region.spec_backing() == Backing::Framed
                &&& region.spec_start() == STACK_BOTTOM
                &&& region.spec_end() == USER_STACK_TOP
                &&& region.spec_perm() == USER_RW
                &&& #[trigger] final(s).pushed(*final(mem), *old(s), *old(mem), region, res)
            },
        r is Some ==> forall|k: int|
            0 <= k < final(s).regions().last().pages() * 4096 ==> #[trigger] final(s).regions().last().byte(
                *final(mem),
                k,
            ) == 0,
{
    let ghost s0 = *s;
    let ghost m0 = *mem;
    let top: VirtAddr = VirtAddr(USER_STACK_TOP);
    let bottom: VirtAddr = VirtAddr(USER_STACK_TOP - USER_STACK_SIZE);
    let region: Region = Region::new(bottom, top, Backing::Framed, PteFlags(USER_RW));
    let ghost g = region;
    let res = s.push(mem, region);
    proof {
        assert(s.pushed(*mem, s0, m0, g, res));
        if res is Ok {
            let l = s.regions().last();
            assert(l.same_range(g));
            assert forall|k: int| 0 <= k < l.pages() * 4096 implies #[trigger] l.byte(*mem, k) == 0 by {
                let h = k / 4096;
                assert(mem.zeroed(l.frames()[h]));
                assert(mem.word(l.frames()[h], (k % 4096) / 8) == 0);
                bits::lemma_byte_update(0, 0, ((k % 4096) % 8) as u64, 0);
            }
        }
    }
    if res.is_err() {
        return None;
    }
    Some(USER_STACK_TOP)
}

/// A program that was built: its space, where it starts, and what it starts with.
pub struct UserImage {
    /// The address space, with the segments, the stack and the arguments.
    pub space: AddressSpace,
    /// Value for `sepc`.
    pub entry: u64,
    /// Where the heap starts.
    pub brk: u64,
    /// Stack pointer.
    pub sp: u64,
    /// Number of arguments.
    pub argc: u64,
    /// Address of the array of pointers to them.
    pub argv: u64,
}

/// The program is in place but for its arguments.
proof fn lemma_in_place(s: AddressSpace, mem: Memory, l: LoadedImage, m0: Memory, image: Seq<u8>)
    requires
        mem.wf(),
        m0.wf(),
        s.wf(mem),
        s.is_user(),
        l.space.wf(m0),
        l.space.is_user(),
        l.of(m0, image),
        loader::header_of(image) is Ok,
        s.regions().len() == l.space.regions().len() + 1,
        s.regions().drop_last() == l.space.regions(),
        mem.same_but(m0, l.space.spec_table().own()),
        forall|f: int| m0.used(f) ==> #[trigger] mem.used(f),
        s.regions().last().spec_start() == STACK_BOTTOM,
        s.regions().last().spec_end() == USER_STACK_TOP,
        s.regions().last().spec_perm() == USER_RW,
        forall|k: int|
            0 <= k < s.regions().last().pages() * 4096 ==> #[trigger] s.regions().last().byte(mem, k) == 0,
    ensures
        forall|x: int|
            0 <= x < USER_MAX_ADDR ==> shows(s, mem, x, #[trigger] bare(image, x), (bare(image, x)->0).1),
{
    let h = loader::header_of(image)->Ok_0;
    let segs = segments_of(image);
    assert forall|k: int| 0 <= k < segs.len() implies loader::carries(
        #[trigger] s.regions()[k],
        mem,
        image,
        segs[k],
    ) by {
        let r = s.regions()[k];
        assert(r == s.regions().drop_last()[k]);
        assert(r == l.space.regions()[k]);
        assert(loader::carries(r, m0, image, segs[k]));
        assert forall|j: int| 0 <= j < r.pages() * crate::config::PAGE_SIZE implies #[trigger] r.byte(mem, j)
            == r.byte(m0, j) by {
            loader::lemma_byte_kept(l.space, mem, m0, k, j);
        }
    }
    assert forall|k: int| 0 <= k < segs.len() implies 16 <= (#[trigger] segs[k]).perm < 32 && segs[k].vaddr
        <= segs[k].end && segs[k].filesz <= segs[k].end - segs[k].vaddr by {
        loader::lemma_segments(image, h, h.phnum as int, k);
    }
    assert forall|x: int| 0 <= x < USER_MAX_ADDR implies shows(
        s,
        mem,
        x,
        #[trigger] bare(image, x),
        (bare(image, x)->0).1,
    ) by {
        lemma_area(s, mem, image, segs, segs.len() as int, x);
        if s.access(mem, x, 0) {
            lemma_area_none(s, mem, image, segs, x);
        }
    }
}

/// Where the program may write, the arguments fit.
pub proof fn lemma_fits(s: AddressSpace, mem: Memory, image: Seq<u8>, a: Seq<Vec<u8>>)
    requires
        args_room(a) <= USER_STACK_TOP,
        forall|x: int| 0 <= x < USER_MAX_ADDR ==> s.access(mem, x, 4) == #[trigger] writable(image, x),
    ensures
        args::fits(s, mem, a, USER_STACK_TOP as int) == args_fit(image, a),
{
    let sp = USER_STACK_TOP as int;
    let argv = args::argv_at(a, sp);
    let n = a.len() as int;
    args::lemma_layout(a, sp);
    if args::fits(s, mem, a, sp) {
        assert forall|i: int, x: int|
            #![trigger args::string_at(a, sp, i), writable(image, x)]
            0 <= i < a.len() && args::string_at(a, sp, i) <= x <= args::string_at(a, sp, i) + a[i]@.len() implies writable(
            image,
            x,
        ) by {
            let at = args::string_at(a, sp, i);
            assert(args::string_fits(s, mem, a, sp, i));
            s.lemma_reach(mem, at, a[i]@.len() as int + 1, 4);
            assert(s.access(mem, at + (x - at), 4));
        }
        assert forall|x: int| argv <= x < argv + 8 * (n + 1) implies #[trigger] writable(image, x) by {
            let j = (x - argv) / 8;
            assert(args::pointer_fits(s, mem, a, sp, j));
            s.lemma_reach(mem, argv + 8 * j, 8, 4);
            assert(s.access(mem, argv + 8 * j + (x - argv) % 8, 4));
        }
    }
    if args_fit(image, a) {
        assert forall|i: int| 0 <= i < n implies #[trigger] args::string_fits(s, mem, a, sp, i) by {
            let at = args::string_at(a, sp, i);
            assert forall|k: int| 0 <= k < a[i]@.len() + 1 implies s.access(mem, #[trigger] (at + k), 4) by {
                assert(writable(image, at + k));
            }
            s.lemma_reach_over(mem, at, a[i]@.len() as int + 1, 4, a[i]@.len() as int + 1);
        }
        assert forall|j: int| 0 <= j <= n implies #[trigger] args::pointer_fits(s, mem, a, sp, j) by {
            let at = argv + 8 * j;
            assert forall|k: int| 0 <= k < 8 implies s.access(mem, #[trigger] (at + k), 4) by {
                assert(writable(image, at + k));
            }
            s.lemma_reach_over(mem, at, 8, 4, 8);
        }
    }
}

/// What may be written is what the program says may be.
pub proof fn lemma_writable(s: AddressSpace, mem: Memory, image: Seq<u8>, x: int, b: u8)
    requires
        shows(s, mem, x, bare(image, x), b),
    ensures
        s.access(mem, x, 4) == writable(image, x),
{
    if s.access(mem, x, 4) {
        s.lemma_any_access(mem, x, 4);
    }
}

/// Storing in its own memory leaves a space that is being built as it was.
proof fn lemma_built_stored(s: AddressSpace, m2: Memory, m1: Memory, before: Memory, kernel: AddressSpace)
    requires
        before.wf(),
        m1.wf(),
        kernel.live(before),
        s.built(m1, before, kernel),
        args::only_user_memory(s, m2, m1),
    ensures
        s.built(m2, before, kernel),
        m2.drew(m1),
{
    m2.lemma_drew_none(m1);
    assert forall|f: int| before.used(f) && m2.used(f) implies #[trigger] m2.same_frame(before, f) by {
        assert(m1.used(f));
        assert(m1.same_frame(before, f));
        assert(!s.footprint().contains(f));
        assert(m2.same_frame(m1, f));
    }
    kernel.lemma_outlives(before, m1, s.footprint());
    kernel.lemma_outlives(before, m2, s.footprint());
    assert(space::unmoved(m2, m1, kernel.root())) by {
        assert forall|w: int| 0 <= w implies #[trigger] page_table::walk(m2, kernel.root(), w) == page_table::walk(
            m1,
            kernel.root(),
            w,
        ) by {
            assert(page_table::walk(m1, kernel.root(), w) == page_table::walk(before, kernel.root(), w));
        }
    }
    s.lemma_still_shares(s, m1, m2, kernel);
}

/// The arguments are in place.
proof fn lemma_starts(s: AddressSpace, m2: Memory, m1: Memory, image: Seq<u8>, a: Seq<Vec<u8>>)
    requires
        space::unmoved(m2, m1, s.root()),
        forall|x: int|
            0 <= x < USER_MAX_ADDR ==> shows(s, m1, x, #[trigger] bare(image, x), (bare(image, x)->0).1),
        args::overlaid(
            s,
            m2,
            m1,
            |x: int| args::vector(a, USER_STACK_TOP as int, a.len() as int + 1, x),
        ),
    ensures
        starts_as(s, m2, image, a),
{
    assert forall|x: int| 0 <= x < USER_MAX_ADDR implies shows(
        s,
        m2,
        x,
        #[trigger] bare(image, x),
        program_byte(image, a, x),
    ) by {
        assert(shows(s, m1, x, bare(image, x), (bare(image, x)->0).1));
        assert(page_table::walk(m2, s.root(), x / 4096) == page_table::walk(m1, s.root(), x / 4096));
        assert(s.page_entry(m2, x) == s.page_entry(m1, x));
        assert(s.access(m2, x, 0) == s.access(m1, x, 0));
        assert(s.access(m2, x, 2) == s.access(m1, x, 2));
        assert(s.access(m2, x, 4) == s.access(m1, x, 4));
        assert(s.access(m2, x, 8) == s.access(m1, x, 8));
        if s.access(m1, x, 0) {
            assert(s.ubyte(m2, x) == s.ubyte(m2, x));
        }
    }
}

impl UserImage {
    /// What a program that was built from `image` with arguments `a` is, where
    /// `o` is the outcome.
    pub open spec fn of(&self, mem: Memory, image: Seq<u8>, a: Seq<Vec<u8>>, o: Outcome) -> bool {
        &&& self.entry == o.entry
        &&& self.brk == o.brk
        &&& self.space.leaves() == o.leaves
        &&& mem.free() == o.free
        &&& self.argc == a.len()
        &&& self.argv == args::argv_at(a, USER_STACK_TOP as int)
        &&& self.sp == self.argv
        &&& self.space.wf(mem)
        &&& stacked(self.space)
        &&& starts_as(self.space, mem, image, a)
    }
}

/// Build the program `image` with arguments `a`: load it, map its stack, and put
/// its arguments there. On failure all that was taken is given back.
#[verifier::rlimit(40)]
pub fn build(mem: &mut Memory, kernel: &AddressSpace, image: &[u8], a: &Vec<Vec<u8>>) -> (r: Result<
    UserImage,
    ExecError,
>)
    requires
        old(mem).wf(),
        kernel.wf(*old(mem)),
        kernel.supervisor(*old(mem)),
        args_room(a@) <= USER_STACK_TOP,
    ensures
        final(mem).wf(),
        kernel.wf(*final(mem)),
        kernel.supervisor(*final(mem)),
        match exec_result(image@, a@, old(mem).free()) {
            Ok(o) => {
                &&& r is Ok
                &&& r->Ok_0.of(*final(mem), image@, a@, o)
                &&& r->Ok_0.space.built(*final(mem), *old(mem), *kernel)
                &&& final(mem).drew(*old(mem))
            },
            Err(e) => {
                &&& r is Err
                &&& r->Err_0 == e
                &&& final(mem).grew(*old(mem), Set::empty())
                &&& final(mem).same_but(*old(mem), Set::empty())
            },
        },
{
    let ghost m0 = *mem;
    let loaded: LoadedImage = match loader::load(mem, kernel, image) {
        Ok(loaded) => loaded,
        Err(e) => {
            return Err(ExecError::BadImage(e));
        },
    };
    let ghost m1 = *mem;
    let ghost l1 = loaded;
    let LoadedImage { space, entry, brk } = loaded;
    let mut s: AddressSpace = space;
    let ghost s1 = s;
    let stack = map_user_stack(&mut s, mem);
    let ghost m2 = *mem;
    let ghost s2 = s;
    proof {
        let (region, res) = choose|region: Region, res: Result<(), MapError>|
            {
                &&& stack is Some <==> res is Ok
                &&& region.wf()
                &&& region.lower()
                &&& region.spec_backing() == Backing::Framed
                &&& region.spec_start() == STACK_BOTTOM
                &&& region.spec_end() == USER_STACK_TOP
                &&& region.spec_perm() == USER_RW
                &&& #[trigger] s2.pushed(m2, s1, m1, region, res)
            };
        s2.lemma_built_push(m2, s1, m1, m0, *kernel, region, res);
        if res is Ok {
            assert(s2.regions().last().same_range(region));
            lemma_in_place(s2, m2, l1, m1, image@);
            assert forall|x: int| 0 <= x < USER_MAX_ADDR implies s2.access(m2, x, 4) == #[trigger] writable(
                image@,
                x,
            ) by {
                lemma_writable(s2, m2, image@, x, (bare(image@, x)->0).1);
            }
            lemma_fits(s2, m2, image@, a@);
            m2.lemma_drew_twice(m1, m0);
        }
    }
    let sp: u64 = match stack {
        Some(sp) => sp,
        None => {
            s.release(mem);
            proof {
                s2.lemma_built_released(*mem, m2, m0, *kernel);
                kernel.lemma_outlives(m0, *mem, Set::empty());
            }
            return Err(ExecError::OutOfMemory);
        },
    };
    let pushed = args::push_args(&s, mem, sp, a);
    let ghost m3 = *mem;
    proof {
        lemma_built_stored(s2, m3, m2, m0, *kernel);
        m3.lemma_drew_twice(m2, m0);
    }
    match pushed {
        None => {
            s.release(mem);
            proof {
                s2.lemma_built_released(*mem, m3, m0, *kernel);
                kernel.lemma_outlives(m0, *mem, Set::empty());
            }
            Err(ExecError::OutOfMemory)
        },
        Some((sp, argc, argv)) => {
            proof {
                lemma_starts(s2, m3, m2, image@, a@);
                kernel.lemma_outlives(m0, m3, s2.footprint());
            }
            Ok(UserImage { space: s, entry, brk, sp, argc, argv })
        },
    }
}

proof fn lemma_null_area(image: Seq<u8>, n: int, x: int)
    requires
        0 <= n <= segments_of(image).len(),
        0 <= x < 4096,
    ensures
        area(image, segments_of(image), n, x) is None,
    decreases n,
{
    if n > 0 {
        let h = loader::header_of(image)->Ok_0;
        loader::lemma_segments(image, h, h.phnum as int, n - 1);
        lemma_null_area(image, n - 1, x);
    }
}

/// Page zero of a program is never mapped, so that a null dereference faults instead of
/// silently succeeding.
pub proof fn law_null_page_is_unmapped(s: AddressSpace, mem: Memory, image: Seq<u8>, a: Seq<Vec<u8>>, x: int, need: u64)
    requires
        starts_as(s, mem, image, a),
        0 <= x < 4096,
    ensures
        !s.access(mem, x, need),
{
    lemma_null_area(image, segments_of(image).len() as int, x);
    assert(shows(s, mem, x, bare(image, x), program_byte(image, a, x)));
    if s.access(mem, x, need) {
        s.lemma_any_access(mem, x, need);
    }
}

/// The stack of a new program is the 256 KiB below its top, all of it zero but for the
/// arguments. Where neither it nor a segment is, nothing is mapped.
pub proof fn law_nothing_else_is_mapped(s: AddressSpace, mem: Memory, image: Seq<u8>, a: Seq<Vec<u8>>, x: int)
    requires
        starts_as(s, mem, image, a),
        0 <= x < 0x40_0000_0000,
        !(0x3f_fffb_f000 <= x < 0x3f_ffff_f000),
        forall|i: int|
            0 <= i < segments_of(image).len() ==> x < ((#[trigger] segments_of(image)[i]).vaddr as int / 4096) * 4096 || x
                >= ((segments_of(image)[i].end + 4095) / 4096) * 4096,
    ensures
        !s.access(mem, x, 0),
{
    lemma_no_area(image, segments_of(image), segments_of(image).len() as int, x);
    assert(bare(image, x) is None);
}

proof fn lemma_no_area(image: Seq<u8>, segs: Seq<Segment>, n: int, x: int)
    requires
        n <= segs.len(),
        !(0x3f_fffb_f000 <= x < 0x3f_ffff_f000),
        forall|i: int|
            0 <= i < segs.len() ==> x < ((#[trigger] segs[i]).vaddr as int / 4096) * 4096 || x >= ((segs[i].end + 4095)
                / 4096) * 4096,
    ensures
        area(image, segs, n, x) is None,
    decreases n,
{
    if n > 0 {
        let g = segs[n - 1];
        addr::law_pages_are_4096_bytes(g.vaddr as int);
        addr::law_pages_are_4096_bytes(g.end as int);
        lemma_no_area(image, segs, n - 1, x);
    }
}

/// A program that can be loaded can be started, with as many arguments as its stack holds,
/// if its segments are below the stack and there are three frames for each page of it.
pub proof fn law_loaded_programs_can_be_started(image: Seq<u8>, a: Seq<Vec<u8>>, free: int)
    requires
        loader::load_result(image, free) is Ok,
        loader::load_result(image, free)->Ok_0.free >= 192,
        forall|i: int| 0 <= i < segments_of(image).len() ==> (#[trigger] segments_of(image)[i]).end <= 0x3f_fffb_f000,
        args_room(a) <= 0x4_0000,
    ensures
        exec_result(image, a, free) is Ok,
        exec_result(image, a, free)->Ok_0.entry == loader::load_result(image, free)->Ok_0.entry,
        exec_result(image, a, free)->Ok_0.brk == loader::load_result(image, free)->Ok_0.brk,
{
    let o = loader::load_result(image, free)->Ok_0;
    let h = loader::header_of(image)->Ok_0;
    let segs = segments_of(image);
    let sp = USER_STACK_TOP as int;
    assert forall|w: int| 0x3ff_ffbf <= w < 0x3ff_ffff implies !page_table::occupies(o.leaves, w, 2) by {
        if page_table::occupies(o.leaves, w, 2) {
            loader::law_program_takes_its_own_pages(image, free, w);
            let j = choose|j: int|
                {
                    &&& 0 <= j < h.phnum
                    &&& #[trigger] loader::segment_at(image, loader::header_offset(h, j)) matches Ok(Some(g)) && g.first() <= w
                        < g.last()
                };
            let k = loader::lemma_segment_listed(image, h, h.phnum as int, j);
            assert(segs[k].end <= 0x3f_fffb_f000);
        }
    }
    space::law_enough_memory_maps(o.leaves, 0x3ff_ffbf, 0x3ff_ffff, o.free);
    assert forall|x: int| 0x3f_fffb_f000 <= x < 0x3f_ffff_f000 implies #[trigger] writable(image, x) by {
        lemma_stack_area(image, segs, segs.len() as int, x);
    }
    args::lemma_argv_at(a, sp);
    args::lemma_layout(a, sp);
    assert forall|i: int, x: int|
        #![trigger args::string_at(a, sp, i), writable(image, x)]
        0 <= i < a.len() && args::string_at(a, sp, i) <= x <= args::string_at(a, sp, i) + a[i]@.len() implies writable(
        image,
        x,
    ) by {
        args::lemma_strings_within(a, sp, i);
    }
}

proof fn lemma_stack_area(image: Seq<u8>, segs: Seq<Segment>, n: int, x: int)
    requires
        n <= segs.len(),
        0x3f_fffb_f000 <= x < 0x3f_ffff_f000,
        forall|i: int| 0 <= i < segs.len() ==> (#[trigger] segs[i]).end <= 0x3f_fffb_f000,
    ensures
        area(image, segs, n, x) == Some((22u64, 0u8)),
    decreases n,
{
    if n > 0 {
        assert(segs[n - 1].end <= 0x3f_fffb_f000);
        addr::law_pages_are_4096_bytes(segs[n - 1].end as int);
        lemma_stack_area(image, segs, n - 1, x);
    }
}

/// A new program finds its segments as its file has them: at every address of a segment
/// that no other one has a page at, the byte of the file that belongs there, or zero where
/// the file has none, with the segment's permissions.
pub proof fn law_new_program_finds_its_segments(
    s: AddressSpace,
    mem: Memory,
    image: Seq<u8>,
    a: Seq<Vec<u8>>,
    k: int,
    x: int,
)
    requires
        starts_as(s, mem, image, a),
        0 <= x < 0x40_0000_0000,
        0 <= k < segments_of(image).len(),
        segments_of(image)[k].vaddr <= x < segments_of(image)[k].end,
        forall|i: int|
            0 <= i < segments_of(image).len() && i != k ==> x < ((#[trigger] segments_of(image)[i]).vaddr as int / 4096)
                * 4096 || x >= ((segments_of(image)[i].end + 4095) / 4096) * 4096,
        x < args::argv_at(a, USER_STACK_TOP as int),
        args_room(a) <= USER_STACK_TOP,
    ensures
        ({
            let g = segments_of(image)[k];
            &&& s.access(mem, x, 0)
            &&& s.access(mem, x, 2) == ((g.perm / 2) % 2 == 1)
            &&& s.access(mem, x, 4) == ((g.perm / 4) % 2 == 1)
            &&& s.access(mem, x, 8) == ((g.perm / 8) % 2 == 1)
            &&& s.ubyte(mem, x) == (if x < g.vaddr + g.filesz {
                image[g.offset + x - g.vaddr]
            } else {
                0
            })
        }),
{
    let segs = segments_of(image);
    lemma_one_area(image, segs, segs.len() as int, k, x);
    args::lemma_below_arguments(a, USER_STACK_TOP as int, x);
    assert(shows(s, mem, x, bare(image, x), program_byte(image, a, x)));
}

proof fn lemma_one_area(image: Seq<u8>, segs: Seq<Segment>, n: int, k: int, x: int)
    requires
        0 <= k < n <= segs.len(),
        segs[k].vaddr <= x < segs[k].end,
        forall|i: int|
            0 <= i < segs.len() && i != k ==> x < ((#[trigger] segs[i]).vaddr as int / 4096) * 4096 || x >= ((segs[i].end
                + 4095) / 4096) * 4096,
    ensures
        area(image, segs, n, x) == Some(
            (
                segs[k].perm,
                if x < segs[k].vaddr + segs[k].filesz {
                    image[segs[k].offset + x - segs[k].vaddr]
                } else {
                    0u8
                },
            ),
        ),
    decreases n,
{
    let g = segs[n - 1];
    addr::law_pages_are_4096_bytes(g.vaddr as int);
    addr::law_pages_are_4096_bytes(g.end as int);
    if k < n - 1 {
        lemma_one_area(image, segs, n - 1, k, x);
    }
}

/// The stack of a new program is empty below its arguments: zero, to read and to write and
/// not to execute.
pub proof fn law_stack_starts_empty(s: AddressSpace, mem: Memory, image: Seq<u8>, a: Seq<Vec<u8>>, x: int)
    requires
        starts_as(s, mem, image, a),
        0x3f_fffb_f000 <= x < 0x3f_ffff_f000,
        x < args::argv_at(a, USER_STACK_TOP as int),
        args_room(a) <= USER_STACK_TOP,
        forall|i: int| 0 <= i < segments_of(image).len() ==> (#[trigger] segments_of(image)[i]).end <= 0x3f_fffb_f000,
    ensures
        s.access(mem, x, 2),
        s.access(mem, x, 4),
        !s.access(mem, x, 8),
        s.ubyte(mem, x) == 0,
{
    lemma_stack_area(image, segments_of(image), segments_of(image).len() as int, x);
    args::lemma_below_arguments(a, USER_STACK_TOP as int, x);
    assert(shows(s, mem, x, bare(image, x), program_byte(image, a, x)));
}

} // verus!
