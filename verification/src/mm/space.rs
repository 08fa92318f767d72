//! Address spaces.
//!
//! An [`AddressSpace`] is a page table plus the list of regions mapped into it.
//! Keeping the region list -- rather than only the hardware table -- is what
//! makes `fork`, `exec` and demand paging tractable: the fault handler needs to
//! answer "is this address supposed to be valid?", and a page table can only
//! say what *is* mapped, never what *should* be.

use vstd::prelude::*;
use crate::config::{PAGE_SIZE, USER_MAX_ADDR, VIRT_OFFSET};
use crate::mm::addr::{self, PhysAddr, PhysPageNum, VirtAddr, VirtPageNum};
use crate::mm::frame::{self, Frame, Memory};
use crate::mm::page_table::{self, Mark, MapError, PageTable, PteFlags};

verus! {

/// Size of a level-1 leaf: one entry covers 2 MiB.
pub const SUPERPAGE_SIZE: u64 = 2 * 1024 * 1024;

/// Page number of the direct map's base.
pub const OFFSET_PAGES: u64 = 0xf_ffff_fc00_0000;

/// How a region's virtual pages are backed.
#[derive(Debug, Clone, Copy, PartialEq, Eq, Structural)]
pub enum Backing {
    /// Linear: virtual page `v` maps to physical frame `v - VIRT_OFFSET`. Used
    /// for the kernel image and the physical-memory window, where the mapping
    /// is a fixed offset and the frames are not owned by anyone.
    Linear,
    /// Each page is backed by a frame from the allocator, owned by the region.
    /// Used for everything in user space.
    Framed,
}

/// The level of the leaf that page `v` of a region up to page `end` gets: a
/// 2 MiB leaf where a linear region has room for a whole one.
pub open spec fn leaf_level(backing: Backing, v: int, end: int) -> int {
    if backing == Backing::Linear && v % 512 == 0 && v + 512 <= end {
        1
    } else {
        2
    }
}

/// How installing pages goes, and what the table holds and how many frames are
/// left then.
pub struct Plan {
    /// The answer.
    pub result: Result<(), MapError>,
    /// What was done to the table.
    pub leaves: Seq<Mark>,
    /// Frames left, if it succeeded.
    pub free: int,
}

impl Plan {
    /// What the table is like after an attempt that failed, where the history was
    /// `leaves` before: every page is mapped as before, and the interior tables that
    /// were put in place are there.
    pub open spec fn undone(&self, mem: Memory, before: Memory, root: int, leaves: Seq<Mark>, tops: int) -> bool {
        &&& unmoved(mem, before, root)
        &&& page_table::shaped(mem, root, self.history(leaves), tops)
    }

    /// The history of the table after the attempt, where it was `leaves` before.
    pub open spec fn history(&self, leaves: Seq<Mark>) -> Seq<Mark> {
        if self.result is Ok {
            self.leaves
        } else {
            page_table::stripped(self.leaves, leaves.len() as int, self.leaves.len() as int)
        }
    }
}

/// How installing pages `v` up to `end` goes, in a table with the history `leaves`,
/// with `free` frames left. Page by page: a frame for the page if the region owns
/// its frames, a free slot, and frames for the interior tables that are missing. If
/// they run out on the way, the ones that were put in place stay.
pub open spec fn install(leaves: Seq<Mark>, backing: Backing, v: int, end: int, free: int) -> Plan
    decreases end - v,
{
    if v >= end {
        Plan { result: Ok(()), leaves, free }
    } else {
        let lev = leaf_level(backing, v, end);
        let left = if backing == Backing::Framed {
            free - 1
        } else {
            free
        };
        let need = page_table::lacking(leaves, v, lev);
        if left < 0 {
            Plan { result: Err(MapError::OutOfMemory), leaves, free }
        } else if page_table::occupies(leaves, v, lev) {
            Plan { result: Err(MapError::AlreadyMapped), leaves, free }
        } else if need > left {
            Plan {
                result: Err(MapError::OutOfMemory),
                leaves: leaves.push(page_table::tables_to(v, lev - need + left)),
                free,
            }
        } else {
            install(
                leaves.push(page_table::leaf_at(v, lev)),
                backing,
                v + page_table::level_pages(lev),
                end,
                left - need,
            )
        }
    }
}

/// Distance in pages from page `first` to page `v` around the table's 2^27
/// slots.
pub open spec fn offset(v: int, first: int) -> int {
    (v - first) % 0x800_0000
}

/// The distance in terms of the low 27 bits.
proof fn lemma_offset_value(v: int, u: int)
    requires
        0 <= v,
        0 <= u,
    ensures
        offset(v, u) == (if v % 0x800_0000 >= u % 0x800_0000 {
            v % 0x800_0000 - u % 0x800_0000
        } else {
            v % 0x800_0000 - u % 0x800_0000 + 0x800_0000
        }),
{
}

/// The low 27 bits in terms of the indices.
proof fn lemma_index_sum(v: int)
    requires
        0 <= v,
    ensures
        v % 0x800_0000 == addr::table_index(v, 0) * 0x4_0000 + addr::table_index(v, 1) * 512
            + addr::table_index(v, 2),
        0 <= addr::table_index(v, 0) < 512,
        0 <= addr::table_index(v, 1) < 512,
        0 <= addr::table_index(v, 2) < 512,
{
}

/// Pages share a slot if and only if they are a multiple of 2^27 pages apart.
pub proof fn lemma_offset(v: int, u: int)
    requires
        0 <= v,
        0 <= u,
    ensures
        0 <= offset(v, u) < 0x800_0000,
        page_table::same_slot(v, u, 2) <==> offset(v, u) == 0,
        u % 512 == 0 ==> (page_table::same_slot(v, u, 1) <==> offset(v, u) < 512),
{
    lemma_offset_value(v, u);
    lemma_index_sum(v);
    lemma_index_sum(u);
    let a = v % 0x800_0000;
    let b = u % 0x800_0000;
    let i0 = addr::table_index(v, 0);
    let i1 = addr::table_index(v, 1);
    let i2 = addr::table_index(v, 2);
    let j0 = addr::table_index(u, 0);
    let j1 = addr::table_index(u, 1);
    let j2 = addr::table_index(u, 2);
    if u % 512 == 0 {
        assert(j2 == 0);
    }
    lemma_digits(i0, i1, i2, j0, j1, j2);
}

/// Pages at the same distance from a third share their slot.
pub proof fn lemma_offset_equal(u: int, v: int, first: int)
    requires
        0 <= u,
        0 <= v,
        0 <= first,
        offset(u, first) == offset(v, first),
    ensures
        page_table::same_slot(u, v, 2),
{
    lemma_offset_value(u, first);
    lemma_offset_value(v, first);
    lemma_offset_value(u, v);
    lemma_offset(u, v);
}

/// Comparing numbers by their digits in base 512.
proof fn lemma_digits(i0: int, i1: int, i2: int, j0: int, j1: int, j2: int)
    requires
        0 <= i0 < 512,
        0 <= i1 < 512,
        0 <= i2 < 512,
        0 <= j0 < 512,
        0 <= j1 < 512,
        0 <= j2 < 512,
    ensures
        ({
            let a = i0 * 0x4_0000 + i1 * 512 + i2;
            let b = j0 * 0x4_0000 + j1 * 512 + j2;
            let d = if a >= b {
                a - b
            } else {
                a - b + 0x800_0000
            };
            &&& d == 0 <==> i0 == j0 && i1 == j1 && i2 == j2
            &&& j2 == 0 ==> (d < 512 <==> i0 == j0 && i1 == j1)
        }),
{
}

/// The frame that page `v` is mapped to and the flags of the mapping, by a leaf
/// of whatever level.
pub open spec fn resolve(mem: Memory, root: int, v: int) -> Option<(int, u64)> {
    match page_table::walk(mem, root, v) {
        Some((l, w)) => Some((page_table::entry_ppn(w) + v % page_table::level_pages(l), page_table::entry_flags(w))),
        None => None,
    }
}

/// Every page is mapped as before.
pub open spec fn unmoved(mem: Memory, before: Memory, root: int) -> bool {
    forall|w: int|
        0 <= w ==> #[trigger] page_table::walk(mem, root, w) == page_table::walk(before, root, w)
}

/// The page of mark `k`, where marks end before `e` and page `v` comes next.
pub open spec fn page_after(marks: Seq<Mark>, k: int, e: int, v: int) -> int {
    if k < e {
        marks[k].page
    } else {
        v
    }
}

/// Mark `k` is a leaf that is in place, and the page after it is that of the next.
pub open spec fn in_line(
    mem: Memory,
    root: int,
    marks: Seq<Mark>,
    k: int,
    e: int,
    v: int,
    tops: int,
) -> bool {
    let m = marks[k];
    &&& m.leaf
    &&& 1 <= m.level <= 2
    &&& 0 <= m.page
    &&& addr::table_index(m.page, 0) < tops
    &&& m.page + page_table::level_pages(m.level) == page_after(marks, k + 1, e, v)
    &&& m.page + page_table::level_pages(m.level) <= v
    &&& page_table::walk(mem, root, m.page) matches Some((l, x)) && l == m.level
}

/// Marks `n` up to `e` are leaves for the pages from `first` to `v`, side by side.
pub open spec fn lined_up(
    mem: Memory,
    root: int,
    marks: Seq<Mark>,
    n: int,
    e: int,
    first: int,
    v: int,
    tops: int,
) -> bool {
    &&& 0 <= n <= e <= marks.len()
    &&& page_after(marks, n, e, v) == first
    &&& forall|k: int| n <= k < e ==> #[trigger] in_line(mem, root, marks, k, e, v, tops)
}

/// Is page `w` below the leaf of one of the marks `n` up to `e`?
pub open spec fn among(marks: Seq<Mark>, n: int, e: int, w: int) -> bool {
    exists|k: int| n <= k < e && page_table::same_slot(w, (#[trigger] marks[k]).page, marks[k].level)
}

/// The pages below the leaves of the marks `n` up to `e` are the `count` pages from
/// `first` on.
pub open spec fn covers(marks: Seq<Mark>, n: int, e: int, first: int, count: int) -> bool {
    forall|w: int| 0 <= w ==> (#[trigger] among(marks, n, e, w) <==> offset(w, first) < count)
}

/// One leaf more in the line.
proof fn lemma_line_more(
    mem: Memory,
    m1: Memory,
    root: int,
    marks: Seq<Mark>,
    n: int,
    first: int,
    v: int,
    lev: int,
    tops: int,
    x: u64,
)
    requires
        lined_up(m1, root, marks, n, marks.len() as int, first, v, tops),
        covers(marks, n, marks.len() as int, first, v - first),
        page_table::mapped(mem, m1, root, v, lev, true, x),
        !page_table::occupies(marks, v, lev),
        0 <= first <= v,
        1 <= lev <= 2,
        lev == 1 ==> v % 512 == 0,
        v - first + page_table::level_pages(lev) <= 0x800_0000,
        addr::table_index(v, 0) < tops,
    ensures
        ({
            let more = marks.push(page_table::leaf_at(v, lev));
            let u = v + page_table::level_pages(lev);
            &&& lined_up(mem, root, more, n, more.len() as int, first, u, tops)
            &&& covers(more, n, more.len() as int, first, u - first)
        }),
{
    let e = marks.len() as int;
    let m = page_table::leaf_at(v, lev);
    let more = marks.push(m);
    let u = v + page_table::level_pages(lev);
    assert(more[e] == m);
    assert forall|k: int| n <= k < e + 1 implies #[trigger] in_line(mem, root, more, k, e + 1, u, tops) by {
        assert(page_table::walk(mem, root, more[k].page) == page_table::walk(mem, root, more[k].page));
        if k < e {
            assert(in_line(m1, root, marks, k, e, v, tops));
            assert(more[k] == marks[k]);
            assert(!page_table::takes(marks[k], v, lev));
        }
    }
    assert forall|w: int| 0 <= w implies (#[trigger] among(more, n, e + 1, w) <==> offset(w, first) < u - first) by {
        lemma_offset(w, v);
        lemma_offset(w, first);
        lemma_offset_shift(w, first, v);
        assert(among(marks, n, e, w) <==> offset(w, first) < v - first);
        if among(marks, n, e, w) {
            let k = choose|k: int|
                n <= k < e && page_table::same_slot(w, (#[trigger] marks[k]).page, marks[k].level);
            assert(more[k] == marks[k]);
        }
        if among(more, n, e + 1, w) {
            let k = choose|k: int|
                n <= k < e + 1 && page_table::same_slot(w, (#[trigger] more[k]).page, more[k].level);
            if k < e {
                assert(marks[k] == more[k]);
            }
        }
        if page_table::same_slot(w, v, lev) {
            assert(page_table::same_slot(w, more[e].page, more[e].level));
        }
    }
}

/// The line stays while pages are mapped as they were.
proof fn lemma_line_kept(
    mem: Memory,
    m1: Memory,
    root: int,
    marks: Seq<Mark>,
    more: Seq<Mark>,
    n: int,
    first: int,
    v: int,
    tops: int,
)
    requires
        lined_up(m1, root, marks, n, marks.len() as int, first, v, tops),
        covers(marks, n, marks.len() as int, first, v - first),
        marks.len() <= more.len(),
        forall|k: int| 0 <= k < marks.len() ==> #[trigger] more[k] == marks[k],
        forall|w: int|
            0 <= w ==> #[trigger] page_table::walk(mem, root, w) == page_table::walk(m1, root, w),
    ensures
        lined_up(mem, root, more, n, marks.len() as int, first, v, tops),
        covers(more, n, marks.len() as int, first, v - first),
{
    let e = marks.len() as int;
    assert forall|k: int| n <= k < e implies #[trigger] in_line(mem, root, more, k, e, v, tops) by {
        assert(in_line(m1, root, marks, k, e, v, tops));
        assert(more[k] == marks[k]);
        assert(page_table::walk(mem, root, more[k].page) == page_table::walk(m1, root, more[k].page));
    }
    assert forall|w: int| 0 <= w implies (#[trigger] among(more, n, e, w) <==> offset(w, first) < v - first) by {
        assert(among(marks, n, e, w) <==> offset(w, first) < v - first);
        if among(marks, n, e, w) {
            let k = choose|k: int|
                n <= k < e && page_table::same_slot(w, (#[trigger] marks[k]).page, marks[k].level);
            assert(more[k] == marks[k]);
        }
        if among(more, n, e, w) {
            let k = choose|k: int|
                n <= k < e && page_table::same_slot(w, (#[trigger] more[k]).page, more[k].level);
            assert(more[k] == marks[k]);
        }
    }
}

/// What a page that could not be installed leaves in the table.
proof fn lemma_attempt_failed(
    mem: Memory,
    m1: Memory,
    m0: Memory,
    root: int,
    leaves: Seq<Mark>,
    marks: Seq<Mark>,
    more: Seq<Mark>,
    first: int,
    v: int,
    lev: int,
    left: int,
    tops: int,
)
    requires
        page_table::shaped(m1, root, marks, tops),
        leaves.len() <= marks.len(),
        forall|k: int| 0 <= k < leaves.len() ==> #[trigger] marks[k] == leaves[k],
        lined_up(m1, root, marks, leaves.len() as int, marks.len() as int, first, v, tops),
        covers(marks, leaves.len() as int, marks.len() as int, first, v - first),
        0 <= v,
        addr::table_index(v, 0) < tops,
        1 <= lev <= 2,
        unmoved(mem, m1, root),
        forall|w: int|
            0 <= w && offset(w, first) >= v - first ==> #[trigger] page_table::walk(m1, root, w)
                == page_table::walk(m0, root, w),
        if left < 0 || page_table::occupies(marks, v, lev) {
            more == marks && page_table::alike(mem, m1, root)
        } else {
            &&& page_table::lacking(marks, v, lev) > left
            &&& more == marks.push(
                page_table::tables_to(v, lev - page_table::lacking(marks, v, lev) + left),
            )
            &&& page_table::reached(
                mem,
                m1,
                root,
                v,
                lev - page_table::missing(m1, root, v, lev) + left,
            )
        },
    ensures
        page_table::shaped(mem, root, more, tops),
        marks.len() <= more.len() <= marks.len() + 1,
        more.len() == marks.len() + 1 ==> !more[marks.len() as int].leaf,
        forall|k: int| 0 <= k < leaves.len() ==> #[trigger] more[k] == leaves[k],
        lined_up(mem, root, more, leaves.len() as int, marks.len() as int, first, v, tops),
        covers(more, leaves.len() as int, marks.len() as int, first, v - first),
        forall|w: int|
            0 <= w && offset(w, first) >= v - first ==> #[trigger] page_table::walk(mem, root, w)
                == page_table::walk(m0, root, w),
{
    page_table::lemma_shape_at(m1, root, marks, tops, v, lev);
    if left < 0 || page_table::occupies(marks, v, lev) {
        page_table::lemma_shape_alike(mem, m1, root, marks, tops);
    } else {
        page_table::lemma_missing(m1, root, v, lev);
        page_table::lemma_shape_reached(
            mem,
            m1,
            root,
            marks,
            tops,
            v,
            lev - page_table::missing(m1, root, v, lev) + left,
            lev,
        );
    }
    assert forall|k: int| 0 <= k < marks.len() implies #[trigger] more[k] == marks[k] by {}
    assert forall|k: int| 0 <= k < leaves.len() implies #[trigger] more[k] == leaves[k] by {
        assert(more[k] == marks[k]);
    }
    lemma_line_kept(mem, m1, root, marks, more, leaves.len() as int, first, v, tops);
    assert forall|w: int| 0 <= w && offset(w, first) >= v - first implies #[trigger] page_table::walk(mem, root, w)
        == page_table::walk(m0, root, w) by {
        assert(page_table::walk(m1, root, w) == page_table::walk(m0, root, w));
    }
}

/// Removing the leaves that were added leaves every page mapped as before.
proof fn lemma_undone(
    mem: Memory,
    m1: Memory,
    m0: Memory,
    root: int,
    leaves: Seq<Mark>,
    marks: Seq<Mark>,
    e: int,
    first: int,
    v: int,
    tops: int,
)
    requires
        page_table::shaped(m0, root, leaves, tops),
        page_table::shaped(mem, root, page_table::stripped(marks, leaves.len() as int, e), tops),
        leaves.len() <= e <= marks.len() <= e + 1,
        marks.len() == e + 1 ==> !marks[e].leaf,
        forall|k: int| 0 <= k < leaves.len() ==> #[trigger] marks[k] == leaves[k],
        lined_up(m1, root, marks, leaves.len() as int, e, first, v, tops),
        covers(marks, leaves.len() as int, e, first, v - first),
        forall|w: int|
            0 <= w ==> #[trigger] page_table::walk(mem, root, w) == (if among(marks, leaves.len() as int, e, w) {
                None
            } else {
                page_table::walk(m1, root, w)
            }),
        forall|w: int|
            0 <= w && offset(w, first) >= v - first ==> #[trigger] page_table::walk(m1, root, w)
                == page_table::walk(m0, root, w),
    ensures
        unmoved(mem, m0, root),
        page_table::stripped(marks, leaves.len() as int, e) == page_table::stripped(
            marks,
            leaves.len() as int,
            marks.len() as int,
        ),
{
    let n = leaves.len() as int;
    let less = page_table::stripped(marks, n, e);
    assert(less =~= page_table::stripped(marks, n, marks.len() as int));
    assert forall|w: int| 0 <= w implies #[trigger] page_table::walk(mem, root, w) == page_table::walk(m0, root, w) by {
        if among(marks, n, e, w) {
            let k = choose|k: int|
                n <= k < e && page_table::same_slot(w, (#[trigger] marks[k]).page, marks[k].level);
            assert(in_line(m1, root, marks, k, e, v, tops));
            assert(addr::table_index(w, 0) < tops);
            page_table::lemma_shape_at(m0, root, leaves, tops, w, 2);
            page_table::lemma_shape_at(mem, root, less, tops, w, 2);
            page_table::lemma_blocked_page(m0, root, w);
            page_table::lemma_blocked_page(mem, root, w);
            if page_table::occupies(leaves, w, 2) {
                page_table::lemma_shape_tidy(m0, root, leaves, tops);
                let j = choose|j: int| 0 <= j < leaves.len() && page_table::takes(#[trigger] leaves[j], w, 2);
                assert(marks[j] == leaves[j]);
                assert(less[j] == leaves[j]);
                assert(page_table::occupies(less, w, 2));
            }
        } else {
            assert(page_table::walk(m1, root, w) == page_table::walk(m0, root, w));
        }
    }
}

/// Is the slot of page `w` at `lev` in, or below, a leaf that maps one of the pages
/// `first` up to `last`?
pub open spec fn cut(mem: Memory, root: int, first: int, last: int, w: int, lev: int) -> bool {
    exists|v: int| first <= v < last && #[trigger] page_below(mem, root, v, w, lev)
}

/// Is the slot of page `w` at `lev` in, or below, the leaf that maps page `v`?
pub open spec fn page_below(mem: Memory, root: int, v: int, w: int, lev: int) -> bool {
    page_table::walk(mem, root, v) matches Some((l, x)) && lev >= l && page_table::same_slot(w, v, l)
}

/// `mem` is `before` with every leaf removed, of whatever level, that maps one of the
/// pages `first` up to `last`: the pages below it are not mapped and its slot is
/// free. Every other page is mapped as before.
pub open spec fn removed(mem: Memory, before: Memory, root: int, first: int, last: int) -> bool {
    &&& forall|w: int|
        0 <= w ==> #[trigger] page_table::walk(mem, root, w) == (if cut(before, root, first, last, w, 2) {
            None
        } else {
            page_table::walk(before, root, w)
        })
    &&& forall|w: int, lev: int|
        0 <= w && 0 <= lev <= 2 ==> #[trigger] page_table::blocked(mem, root, w, lev) == (page_table::blocked(
            before,
            root,
            w,
            lev,
        ) && !cut(before, root, first, last, w, lev))
}

/// Removing the leaf of one page more.
proof fn lemma_removed_more(mem: Memory, m1: Memory, m0: Memory, root: int, first: int, v: int)
    requires
        0 <= first <= v,
        removed(m1, m0, root, first, v),
        match page_table::walk(m1, root, v) {
            Some((l, x)) => 0 <= l <= 2 && page_table::vacated(mem, m1, root, v, l),
            None => mem == m1,
        },
    ensures
        removed(mem, m0, root, first, v + 1),
{
    assert(page_table::walk(m1, root, v) == page_table::walk(m1, root, v));
    assert forall|w: int, lev: int| #[trigger] cut(m0, root, first, v + 1, w, lev) == (cut(
        m0,
        root,
        first,
        v,
        w,
        lev,
    ) || page_below(m0, root, v, w, lev)) by {
        if cut(m0, root, first, v, w, lev) {
            let u = choose|u: int| first <= u < v && #[trigger] page_below(m0, root, u, w, lev);
            assert(page_below(m0, root, u, w, lev));
        }
    }
    if cut(m0, root, first, v, v, 2) {
        // The leaf of this page went with that of an earlier one.
        let u = choose|u: int| first <= u < v && #[trigger] page_below(m0, root, u, v, 2);
        page_table::lemma_leaf_shared(m0, root, v, u);
        assert forall|w: int, lev: int| #[trigger] page_below(m0, root, v, w, lev) implies cut(
            m0,
            root,
            first,
            v,
            w,
            lev,
        ) by {
            assert(page_below(m0, root, u, w, lev));
        }
    }
    reveal(page_table::vacated);
    assert forall|w: int| 0 <= w implies #[trigger] page_table::walk(mem, root, w) == (if cut(
        m0,
        root,
        first,
        v + 1,
        w,
        2,
    ) {
        None
    } else {
        page_table::walk(m0, root, w)
    }) by {
        assert(page_table::walk(m1, root, w) == page_table::walk(m1, root, w));
        assert(cut(m0, root, first, v + 1, w, 2) == (cut(m0, root, first, v, w, 2) || page_below(m0, root, v, w, 2)));
    }
    assert forall|w: int, lev: int| 0 <= w && 0 <= lev <= 2 implies #[trigger] page_table::blocked(
        mem,
        root,
        w,
        lev,
    ) == (page_table::blocked(m0, root, w, lev) && !cut(m0, root, first, v + 1, w, lev)) by {
        assert(page_table::blocked(m1, root, w, lev) == page_table::blocked(m1, root, w, lev));
        assert(cut(m0, root, first, v + 1, w, lev) == (cut(m0, root, first, v, w, lev) || page_below(
            m0,
            root,
            v,
            w,
            lev,
        )));
    }
}

/// Take the leaves of the marks `n` up to `e`, which are those of the pages `from` up
/// to `to`, out of `table` again. The interior tables stay.
fn undo(
    table: &mut PageTable,
    mem: &mut Memory,
    from: VirtPageNum,
    to: VirtPageNum,
    Ghost(marks): Ghost<Seq<Mark>>,
    Ghost(n): Ghost<int>,
    Ghost(e): Ghost<int>,
    Ghost(tops): Ghost<int>,
)
    requires
        old(mem).wf(),
        old(table).wf(*old(mem)),
        old(table).private(tops),
        page_table::shaped(*old(mem), old(table).spec_root(), marks, tops),
        lined_up(*old(mem), old(table).spec_root(), marks, n, e, from.0 as int, to.0 as int, tops),
    ensures
        final(mem).wf(),
        *final(table) == *old(table),
        final(table).wf(*final(mem)),
        final(mem).allocator() == old(mem).allocator(),
        final(mem).same_but(*old(mem), old(table).own()),
        page_table::shaped(*final(mem), old(table).spec_root(), page_table::stripped(marks, n, e), tops),
        forall|w: int|
            0 <= w ==> #[trigger] page_table::walk(*final(mem), old(table).spec_root(), w) == (if among(
                marks,
                n,
                e,
                w,
            ) {
                None
            } else {
                page_table::walk(*old(mem), old(table).spec_root(), w)
            }),
{
    let ghost m0 = *mem;
    let ghost t0 = *table;
    let ghost root = table.spec_root();
    let ghost v = to.0 as int;
    let ghost mut k: int = n;
    let mut vpn: VirtPageNum = from;
    proof {
        page_table::lemma_shape_tidy(m0, root, marks, tops);
        assert(page_table::stripped(marks, n, n) =~= marks);
        if n < e {
            assert(in_line(m0, root, marks, n, e, v, tops));
        }
    }
    while vpn.0 < to.0
        invariant
            mem.wf(),
            table.wf(*mem),
            *table == t0,
            t0.private(tops),
            root == t0.spec_root(),
            mem.allocator() == m0.allocator(),
            mem.same_but(m0, t0.own()),
            page_table::tidy(marks),
            v == to.0,
            0 <= n <= k <= e <= marks.len(),
            vpn.0 == page_after(marks, k, e, v),
            forall|j: int| k <= j < e ==> #[trigger] in_line(*mem, root, marks, j, e, v, tops),
            page_table::shaped(*mem, root, page_table::stripped(marks, n, k), tops),
            forall|w: int|
                0 <= w ==> #[trigger] page_table::walk(*mem, root, w) == (if among(marks, n, k, w) {
                    None
                } else {
                    page_table::walk(m0, root, w)
                }),
            k < e ==> vpn.0 < to.0,
        decreases to.0 - vpn.0,
    {
        let ghost m1 = *mem;
        let ghost m = marks[k];
        proof {
            assert(in_line(m1, root, marks, k, e, v, tops));
            page_table::lemma_index(m.page, 0);
            t0.lemma_private(m1, tops, addr::table_index(m.page, 0));
        }
        match table.unmap_leaf(mem, vpn) {
            None => {
                assert(false);
                vpn = to;
            },
            Some(level) => {
                vpn = VirtPageNum(vpn.0 + PageTable::level_page_size(level) / PAGE_SIZE);
                proof {
                    let less = page_table::stripped(marks, n, k);
                    assert(less[k] == m);
                    page_table::lemma_shape_vacated(*mem, m1, root, less, tops, k);
                    assert(page_table::stripped(marks, n, k + 1) =~= less.update(
                        k,
                        page_table::tables_to(m.page, m.level),
                    ));
                    page_table::lemma_vacated(*mem, m1, root, m.page, m.level);
                    assert forall|j: int| k + 1 <= j < e implies #[trigger] in_line(
                        *mem,
                        root,
                        marks,
                        j,
                        e,
                        v,
                        tops,
                    ) by {
                        assert(in_line(m1, root, marks, j, e, v, tops));
                        assert(!page_table::takes(marks[k], marks[j].page, marks[j].level));
                        assert(page_table::walk(*mem, root, marks[j].page) == page_table::walk(
                            m1,
                            root,
                            marks[j].page,
                        ));
                    }
                    assert forall|w: int| 0 <= w implies #[trigger] page_table::walk(*mem, root, w) == (if among(
                        marks,
                        n,
                        k + 1,
                        w,
                    ) {
                        None
                    } else {
                        page_table::walk(m0, root, w)
                    }) by {
                        assert(page_table::walk(m1, root, w) == page_table::walk(m1, root, w));
                        if among(marks, n, k, w) {
                            let j = choose|j: int|
                                n <= j < k && page_table::same_slot(w, (#[trigger] marks[j]).page, marks[j].level);
                            assert(page_table::same_slot(w, marks[j].page, marks[j].level));
                        }
                        if page_table::same_slot(w, m.page, m.level) {
                            assert(page_table::same_slot(w, marks[k].page, marks[k].level));
                        }
                    }
                    assert forall|f: int| m0.used(f) && mem.used(f) && !t0.own().contains(f) implies
                        #[trigger] mem.same_frame(m0, f) by {
                        assert(m1.used(f));
                        assert(m1.same_frame(m0, f));
                        assert(mem.same_frame(m1, f));
                    }
                    k = k + 1;
                    if k < e {
                        assert(in_line(*mem, root, marks, k, e, v, tops));
                    }
                }
            },
        }
    }
}

/// Every page outside a region from page `first` on, of `pages` pages, is mapped as
/// before.
#[verifier::opaque]
pub open spec fn elsewhere(mem: Memory, before: Memory, root: int, first: int, pages: int) -> bool {
    forall|w: int|
        0 <= w && offset(w, first) >= pages ==> #[trigger] page_table::walk(mem, root, w) == page_table::walk(
            before,
            root,
            w,
        )
}

/// A contiguous range of virtual pages sharing a backing and permissions.
pub struct Region {
    start: VirtAddr,
    end: VirtAddr,
    backing: Backing,
    perm: PteFlags,
    /// Frames owned by this region, for `Backing::Framed`: one per page, in
    /// order.
    frames: Vec<Frame>,
}

impl Region {
    /// First address of the region.
    pub closed spec fn spec_start(&self) -> int {
        self.start.0 as int
    }

    /// One past the last address of the region.
    pub closed spec fn spec_end(&self) -> int {
        self.end.0 as int
    }

    /// How the pages are backed.
    pub closed spec fn spec_backing(&self) -> Backing {
        self.backing
    }

    /// Permissions every page carries.
    pub closed spec fn spec_perm(&self) -> u64 {
        self.perm.0
    }

    /// The frames of the region, in the order of its pages.
    pub closed spec fn frames(&self) -> Seq<int> {
        frame::ppns(self.frames@)
    }

    /// First page.
    pub open spec fn first(&self) -> int {
        self.spec_start() / 4096
    }

    /// One past the last page.
    pub open spec fn last(&self) -> int {
        self.spec_end() / 4096
    }

    /// Page aligned, with flags that fit an entry.
    pub open spec fn wf(&self) -> bool {
        &&& 0 <= self.spec_start() <= u64::MAX
        &&& 0 <= self.spec_end() <= u64::MAX
        &&& self.spec_start() % 4096 == 0
        &&& self.spec_end() % 4096 == 0
        &&& self.spec_perm() < 1024
    }

    /// Does the region lie in the lower, user half of the address space?
    pub open spec fn lower(&self) -> bool {
        self.spec_end() <= USER_MAX_ADDR
    }

    /// Can the region be mapped: it lies in one half of the address space, and
    /// if linear, in the direct map's with permissions that make a leaf?
    pub open spec fn mappable(&self) -> bool {
        &&& self.wf()
        &&& self.lower() || self.spec_start() >= VIRT_OFFSET
        &&& self.spec_backing() == Backing::Linear ==> self.spec_start() >= VIRT_OFFSET && self.spec_perm() & 14
            != 0
    }

    /// Every frame of the region is one that was handed out of `mem`, and no two
    /// are the same.
    pub closed spec fn owned(&self, mem: Memory) -> bool {
        &&& self.frames().no_duplicates()
        &&& forall|j: int|
            0 <= j < self.frames@.len() ==> (#[trigger] self.frames@[j]).spec_order() == 0 && mem.owns(
                self.frames@[j].spec_ppn(),
                0,
            )
    }

    /// What it means that a region's frames are handed out.
    pub proof fn lemma_owned(&self, mem: Memory)
        requires
            self.owned(mem),
        ensures
            self.frames().no_duplicates(),
            forall|p: int| #[trigger] self.frames().to_set().contains(p) ==> mem.owns(p, 0),
            forall|j: int| 0 <= j < self.frames().len() ==> mem.owns(#[trigger] self.frames()[j], 0),
            self.frames().to_set().finite(),
            self.frames().to_set().len() == self.frames().len(),
    {
        assert forall|j: int| 0 <= j < self.frames().len() implies mem.owns(#[trigger] self.frames()[j], 0) by {
            assert(self.frames()[j] == self.frames@[j].spec_ppn());
        }
        assert forall|p: int| #[trigger] self.frames().to_set().contains(p) implies mem.owns(p, 0) by {
            let j = choose|j: int| 0 <= j < self.frames().len() && self.frames()[j] == p;
            assert(mem.owns(self.frames()[j], 0));
        }
        self.frames().unique_seq_to_set();
        vstd::seq_lib::seq_to_set_is_finite(self.frames());
    }

    /// A region keeps its frames as long as they stay handed out.
    pub proof fn lemma_still_owned(&self, m0: Memory, m1: Memory)
        requires
            self.owned(m0),
            forall|p: int| #[trigger] self.frames().to_set().contains(p) ==> m1.owns(p, 0),
        ensures
            self.owned(m1),
    {
        assert forall|j: int| 0 <= j < self.frames@.len() implies (#[trigger] self.frames@[j]).spec_order()
            == 0 && m1.owns(self.frames@[j].spec_ppn(), 0) by {
            assert(self.frames()[j] == self.frames@[j].spec_ppn());
            assert(self.frames().to_set().contains(self.frames()[j]));
        }
    }

    /// A region keeps its frames while nothing is given back.
    pub proof fn lemma_still_owned_same(&self, m0: Memory, m1: Memory)
        requires
            self.owned(m0),
            m1.allocator() == m0.allocator(),
        ensures
            self.owned(m1),
    {
    }

    /// Byte `k` of the region, counted from its start.
    pub open spec fn byte(&self, mem: Memory, k: int) -> u8 {
        mem.byte(self.frames()[k / 4096], k % 4096)
    }

    /// Describe a region without mapping it yet.
    pub fn new(start: VirtAddr, end: VirtAddr, backing: Backing, perm: PteFlags) -> (r: Region)
        requires
            end.0 + PAGE_SIZE - 1 <= u64::MAX,
            perm.0 < 1024,
        ensures
            r.wf(),
            r.spec_start() == addr::page_floor(start.0 as int),
            r.spec_end() == addr::page_ceil(end.0 as int),
            r.spec_backing() == backing,
            r.spec_perm() == perm.0,
            r.frames() == Seq::<int>::empty(),
            forall|mem: Memory| #[trigger] r.owned(mem),
    {
        let r = Region {
            start: start.align_down(),
            end: end.align_up(),
            backing,
            perm,
            frames: Vec::new(),
        };
        assert(r.frames() =~= Seq::<int>::empty());
        r
    }

    /// First page of the region.
    pub fn start(&self) -> (r: VirtAddr)
        ensures
            r.0 == self.spec_start(),
    {
        self.start
    }

    /// One past the last page of the region.
    pub fn end(&self) -> (r: VirtAddr)
        ensures
            r.0 == self.spec_end(),
    {
        self.end
    }

    /// Permissions every page in the region carries.
    pub fn perm(&self) -> (r: PteFlags)
        ensures
            r.0 == self.spec_perm(),
    {
        self.perm
    }

    /// Remove every page of this region from `table`, by whatever leaf it is mapped,
    /// releasing owned frames.
    #[verifier::rlimit(40)]
    pub fn unmap_from(&mut self, table: &mut PageTable, mem: &mut Memory)
        requires
            old(mem).wf(),
            old(table).wf(*old(mem)),
            old(self).mappable(),
            old(self).owned(*old(mem)),
            old(self).frames().to_set().disjoint(old(table).own()),
            old(self).frames().to_set().disjoint(old(table).tables()),
            old(self).lower() || old(table).tables().subset_of(old(table).own()),
        ensures
            final(mem).wf(),
            *final(table) == *old(table),
            final(table).wf(*final(mem)),
            final(self).same_range(*old(self)),
            final(self).frames() == Seq::<int>::empty(),
            final(mem).shrank(*old(mem), old(self).frames().to_set()),
            final(mem).same_but(*old(mem), old(table).own()),
            removed(
                *final(mem),
                *old(mem),
                old(table).spec_root(),
                old(self).first(),
                old(self).last(),
            ),
            forall|v: int|
                old(self).first() <= v < old(self).last() ==> #[trigger] page_table::walk(
                    *final(mem),
                    old(table).spec_root(),
                    v,
                ) is None,
    {
        let ghost r0 = *self;
        let ghost m0 = *mem;
        let ghost t0 = *table;
        let ghost own = table.own();
        let ghost root = table.spec_root();
        let ghost first = self.first();
        let ghost tops: int = if self.lower() {
            256
        } else {
            512
        };
        proof {
            assert forall|w: int, lev: int| !#[trigger] cut(m0, root, first, first, w, lev) by {}
            if self.last() < first {
                assert forall|w: int, lev: int| !#[trigger] cut(m0, root, first, self.last(), w, lev) by {}
            }
        }
        let mut vpn: VirtPageNum = self.start.vpn();
        let end: VirtPageNum = self.end.vpn();
        while vpn.0 < end.0
            invariant
                mem.wf(),
                table.wf(*mem),
                *table == t0,
                own == t0.own(),
                t0.private(tops),
                *self == r0,
                self.mappable(),
                self.lower() || tops == 512,
                end.0 == self.last(),
                root == t0.spec_root(),
                first == self.first(),
                first <= vpn.0,
                first <= end.0 ==> vpn.0 <= end.0,
                first > end.0 ==> vpn.0 == first,
                mem.allocator() == m0.allocator(),
                mem.same_but(m0, own),
                removed(*mem, m0, root, first, vpn.0 as int),
            decreases end.0 - vpn.0,
        {
            let ghost m1 = *mem;
            proof {
                page_table::lemma_index(vpn.0 as int, 0);
                t0.lemma_private(m1, tops, addr::table_index(vpn.0 as int, 0));
            }
            let _ = table.unmap_leaf(mem, vpn);
            proof {
                lemma_removed_more(*mem, m1, m0, root, first, vpn.0 as int);
                assert forall|f: int| m0.used(f) && mem.used(f) && !own.contains(f) implies
                    #[trigger] mem.same_frame(m0, f) by {
                    assert(m1.used(f));
                    assert(m1.same_frame(m0, f));
                    assert(mem.same_frame(m1, f));
                }
            }
            vpn = vpn.next();
        }
        let ghost m2 = *mem;
        proof {
            r0.lemma_still_owned(m0, m2);
            t0.lemma_wf(m2);
        }
        self.release_frames(mem);
        proof {
            let fs = r0.frames().to_set();
            assert forall|t: int| #[trigger] t0.tables().contains(t) implies mem.owns(t, 0) && mem.same_frame(
                m2,
                t,
            ) by {
                assert(!fs.contains(t));
                assert(mem.used(t));
            }
            assert forall|t: int| #[trigger] t0.own().contains(t) implies mem.owns(t, 0) by {
                assert(!fs.contains(t));
            }
            t0.lemma_kept(m2, *mem);
            assert(removed(m2, m0, root, first, r0.last()));
            assert forall|w: int| 0 <= w implies #[trigger] page_table::walk(*mem, root, w) == (if cut(
                m0,
                root,
                first,
                r0.last(),
                w,
                2,
            ) {
                None
            } else {
                page_table::walk(m0, root, w)
            }) by {
                assert(page_table::walk(m2, root, w) == page_table::walk(m2, root, w));
            }
            assert forall|w: int, lev: int| 0 <= w && 0 <= lev <= 2 implies #[trigger] page_table::blocked(
                *mem,
                root,
                w,
                lev,
            ) == (page_table::blocked(m0, root, w, lev) && !cut(m0, root, first, r0.last(), w, lev)) by {
                assert(page_table::blocked(m2, root, w, lev) == page_table::blocked(m2, root, w, lev));
            }
            assert forall|v: int| first <= v < r0.last() implies #[trigger] page_table::walk(
                *mem,
                root,
                v,
            ) is None by {
                if page_table::walk(m0, root, v) is Some {
                    page_table::lemma_walk_level(m0, root, v);
                    assert(page_below(m0, root, v, v, 2));
                }
            }
            assert forall|f: int| m0.used(f) && mem.used(f) && !own.contains(f) implies #[trigger] mem.same_frame(
                m0,
                f,
            ) by {
                assert(m2.used(f));
                assert(m2.same_frame(m0, f));
                assert(mem.same_frame(m2, f));
            }
        }
    }

    /// Return the region's frames to the allocator.
    fn release_frames(&mut self, mem: &mut Memory)
        requires
            old(mem).wf(),
            old(self).owned(*old(mem)),
        ensures
            final(mem).wf(),
            final(self).same_range(*old(self)),
            final(self).frames() == Seq::<int>::empty(),
            final(mem).shrank(*old(mem), old(self).frames().to_set()),
            final(mem).same_but(*old(mem), Set::empty()),
    {
        let ghost r0 = *self;
        let ghost m0 = *mem;
        let ghost all = self.frames();
        let ghost mut done: Set<int> = Set::empty();
        proof {
            m0.lemma_grew_none(m0);
        }
        while self.frames.len() > 0
            invariant
                mem.wf(),
                self.same_range(r0),
                r0.owned(m0),
                all == r0.frames(),
                self.frames@.len() <= all.len(),
                self.frames@ == r0.frames@.take(self.frames@.len() as int),
                forall|p: int|
                    #[trigger] done.contains(p) <==> exists|j: int|
                        self.frames@.len() <= j < all.len() && #[trigger] all[j] == p,
                mem.shrank(m0, done),
                mem.same_but(m0, Set::empty()),
            decreases self.frames@.len(),
        {
            let ghost n = self.frames@.len() - 1;
            let ghost m1 = *mem;
            let ghost d1 = done;
            let ghost p = all[n];
            proof {
                r0.lemma_owned(m0);
                assert(r0.frames@[n].spec_ppn() == p);
                if d1.contains(p) {
                    let j = choose|j: int| n < j < all.len() && #[trigger] all[j] == p;
                    assert(all[j] == all[n]);
                }
            }
            match self.frames.pop() {
                None => {},
                Some(frame) => {
                    assert(frame == r0.frames@[n]);
                    frame.release(mem);
                    proof {
                        let one = Set::<int>::empty().insert(p);
                        mem.lemma_shrank_one(m1, p);
                        mem.lemma_shrank_twice(m1, m0, d1, one);
                        done = d1.union(one);
                        assert forall|q: int| #[trigger] done.contains(q) <==> exists|j: int|
                            n <= j < all.len() && #[trigger] all[j] == q by {
                            if d1.contains(q) {
                                let j = choose|j: int| n < j < all.len() && #[trigger] all[j] == q;
                                assert(all[j] == q);
                            }
                            if q == p {
                                assert(all[n] == q);
                            }
                            if exists|j: int| n <= j < all.len() && #[trigger] all[j] == q {
                                let j = choose|j: int| n <= j < all.len() && #[trigger] all[j] == q;
                                if j > n {
                                    assert(d1.contains(q));
                                }
                            }
                        }
                        assert forall|f: int| m0.used(f) && mem.used(f) implies #[trigger] mem.same_frame(
                            m0,
                            f,
                        ) by {
                            assert(m1.used(f));
                            assert(m1.same_frame(m0, f));
                            assert(mem.same_frame(m1, f));
                        }
                        assert(self.frames@ =~= r0.frames@.take(n));
                    }
                },
            }
        }
        proof {
            assert forall|p: int| done.contains(p) <==> all.to_set().contains(p) by {
                if all.contains(p) {
                    let j = choose|j: int| 0 <= j < all.len() && all[j] == p;
                    assert(all[j] == p);
                }
            }
            assert(done =~= all.to_set());
            assert(self.frames() =~= Seq::<int>::empty());
        }
    }

    /// Copy `data` into the region, `offset` bytes from its base.
    ///
    /// Only meaningful for `Backing::Framed`; this is how `exec` gets an ELF
    /// segment into a space that is not currently active. Writing through the
    /// direct map avoids having to switch `satp` mid-load.
    #[verifier::rlimit(40)]
    pub fn write_data(&self, mem: &mut Memory, offset: u64, data: &[u8])
        requires
            old(mem).wf(),
            self.owned(*old(mem)),
            self.spec_backing() == Backing::Framed,
            offset + data@.len() <= self.frames().len() * PAGE_SIZE,
            offset + data@.len() <= u64::MAX,
        ensures
            final(mem).wf(),
            final(mem).allocator() == old(mem).allocator(),
            final(mem).same_but(*old(mem), self.frames().to_set()),
            forall|k: int|
                0 <= k < self.frames().len() * PAGE_SIZE ==> #[trigger] self.byte(*final(mem), k) == (
                if offset <= k < offset + data@.len() {
                    data@[k - offset]
                } else {
                    self.byte(*old(mem), k)
                }),
    {
        let ghost m0 = *mem;
        let ghost fs = self.frames();
        let ghost n = self.frames().len() as int;
        proof {
            self.lemma_owned(m0);
            assert(self.frames@.len() == n);
        }
        let count: usize = self.frames.len();
        let mut written: usize = 0;
        while written < data.len()
            invariant
                mem.wf(),
                mem.allocator() == m0.allocator(),
                self.owned(m0),
                fs == self.frames(),
                fs.len() == n,
                self.frames@.len() == n,
                fs.no_duplicates(),
                written <= data@.len(),
                offset + data@.len() <= n * PAGE_SIZE,
                offset + data@.len() <= u64::MAX,
                m0.wf(),
                n == count,
                mem.same_but(m0, fs.to_set()),
                forall|k: int|
                    0 <= k < n * PAGE_SIZE ==> #[trigger] self.byte(*mem, k) == (if offset <= k < offset
                        + written {
                        data@[k - offset]
                    } else {
                        self.byte(m0, k)
                    }),
            decreases data@.len() - written,
        {
            let ghost m1 = *mem;
            let pos: u64 = offset + written as u64;
            let page: usize = (pos / PAGE_SIZE) as usize;
            let ghost g = pos as int / 4096;
            proof {
                assert(0 <= g < n);
                assert(g == page);
                self.lemma_owned(m0);
                assert(fs[g] == self.frames@[g].spec_ppn());
                m0.lemma_owns_frame(fs[g]);
            }
            let ppn: PhysPageNum = self.frames[page].ppn();
            mem.write_byte(ppn, pos % PAGE_SIZE, data[written]);
            proof {
                assert forall|k: int| 0 <= k < n * PAGE_SIZE implies #[trigger] self.byte(*mem, k) == (if offset
                    <= k < offset + written + 1 {
                    data@[k - offset]
                } else {
                    self.byte(m0, k)
                }) by {
                    assert(self.byte(m1, k) == (if offset <= k < offset + written {
                        data@[k - offset]
                    } else {
                        self.byte(m0, k)
                    }));
                    let h = k / 4096;
                    assert(0 <= h < n);
                    self.lemma_owned(m0);
                    m0.lemma_owns_frame(fs[h]);
                    if h != g {
                        assert(fs[h] != fs[g]);
                        assert(mem.same_frame(m1, fs[h]));
                        assert(mem.word(fs[h], (k % 4096) / 8) == m1.word(fs[h], (k % 4096) / 8));
                    }
                }
                assert(fs.to_set().contains(fs[g]));
                assert forall|f: int| m0.used(f) && mem.used(f) && !fs.to_set().contains(f) implies
                    #[trigger] mem.same_frame(m0, f) by {
                    assert(m1.same_frame(m0, f));
                    assert(mem.same_frame(m1, f));
                }
            }
            written = written + 1;
        }
    }

    /// How the region's pages are backed.
    pub fn backing(&self) -> (r: Backing)
        ensures
            r == self.spec_backing(),
    {
        self.backing
    }

    /// Overwrite this region's frames with the contents of those of `from`, page
    /// by page.
    pub fn copy_frames(&self, mem: &mut Memory, from: &Region)
        requires
            old(mem).wf(),
            self.owned(*old(mem)),
            from.owned(*old(mem)),
            self.frames().len() == from.frames().len(),
            self.frames().to_set().disjoint(from.frames().to_set()),
        ensures
            final(mem).wf(),
            final(mem).allocator() == old(mem).allocator(),
            final(mem).same_but(*old(mem), self.frames().to_set()),
            forall|j: int, i: int|
                0 <= j < self.frames().len() && 0 <= i < 512 ==> #[trigger] final(mem).word(
                    self.frames()[j],
                    i,
                ) == old(mem).word(from.frames()[j], i),
    {
        let ghost m0 = *mem;
        let ghost to = self.frames();
        let ghost src = from.frames();
        proof {
            self.lemma_owned(m0);
            from.lemma_owned(m0);
        }
        let count: usize = self.frames.len();
        let mut k: usize = 0;
        while k < count
            invariant
                k <= count,
                count == self.frames@.len(),
                count == from.frames@.len(),
                to == self.frames(),
                src == from.frames(),
                to.len() == count,
                src.len() == count,
                mem.wf(),
                m0.wf(),
                self.owned(m0),
                from.owned(m0),
                to.to_set().disjoint(src.to_set()),
                mem.allocator() == m0.allocator(),
                mem.same_but(m0, to.to_set()),
                forall|j: int, i: int|
                    0 <= j < k && 0 <= i < 512 ==> #[trigger] mem.word(to[j], i) == m0.word(src[j], i),
            decreases count - k,
        {
            let ghost m1 = *mem;
            let ghost g = k as int;
            proof {
                self.lemma_owned(m0);
                from.lemma_owned(m0);
                assert(to[g] == self.frames@[g].spec_ppn());
                assert(src[g] == from.frames@[g].spec_ppn());
                m0.lemma_owns_frame(to[g]);
                m0.lemma_owns_frame(src[g]);
                assert(to.to_set().contains(to[g]));
                assert(src.to_set().contains(src[g]));
                assert(m1.same_frame(m0, src[g]));
            }
            mem.copy_frame(from.frames[k].ppn(), self.frames[k].ppn());
            proof {
                assert forall|j: int, i: int| 0 <= j < k + 1 && 0 <= i < 512 implies #[trigger] mem.word(to[j], i)
                    == m0.word(src[j], i) by {
                    if j < k {
                        assert(to[j] != to[g]);
                        m0.lemma_owns_frame(to[j]);
                        assert(mem.same_frame(m1, to[j]));
                        assert(m1.word(to[j], i) == m0.word(src[j], i));
                    } else {
                        assert(m1.word(src[g], i) == m0.word(src[g], i));
                    }
                }
                assert forall|f: int| m0.used(f) && mem.used(f) && !to.to_set().contains(f) implies
                    #[trigger] mem.same_frame(m0, f) by {
                    assert(m1.same_frame(m0, f));
                    assert(mem.same_frame(m1, f));
                }
            }
            k = k + 1;
        }
    }

    /// Does `addr` fall inside this region?
    pub fn contains(&self, addr: VirtAddr) -> (r: bool)
        ensures
            r == (self.spec_start() <= addr.0 < self.spec_end()),
    {
        addr.0 >= self.start.0 && addr.0 < self.end.0
    }

    /// `table` and this region's frames came out of `mem0`, in which the table
    /// was `before`: new tables and frames are fresh, all distinct, and no frame
    /// but the table's own was touched.
    pub open spec fn laid(&self, mem: Memory, table: PageTable, mem0: Memory, before: PageTable) -> bool {
        let new = table.own().difference(before.own());
        let fs = self.frames().to_set();
        &&& self.owned(mem)
        &&& table.spec_root() == before.spec_root()
        &&& before.own().subset_of(table.own())
        &&& table.tables() == before.tables().union(new)
        &&& fs.disjoint(table.own())
        &&& fs.disjoint(table.tables())
        &&& mem.grew(mem0, new.union(fs))
        &&& mem.same_but(mem0, before.own())
    }

    /// Same region, perhaps with other frames.
    pub open spec fn same_range(&self, other: Region) -> bool {
        &&& self.spec_start() == other.spec_start()
        &&& self.spec_end() == other.spec_end()
        &&& self.spec_backing() == other.spec_backing()
        &&& self.spec_perm() == other.spec_perm()
    }

    /// Back page `vpn` with a frame of its own.
    #[verifier::rlimit(60)]
    fn map_framed_page(&mut self, table: &mut PageTable, mem: &mut Memory, vpn: VirtPageNum) -> (r: Result<
        (),
        MapError,
    >)
        requires
            old(mem).wf(),
            old(table).wf(*old(mem)),
            old(self).wf(),
            old(self).owned(*old(mem)),
            old(self).frames().to_set().disjoint(old(table).own()),
            old(self).frames().to_set().disjoint(old(table).tables()),
            old(table).under(addr::table_index(vpn.0 as int, 0)).subset_of(old(table).own()),
        ensures
            final(mem).wf(),
            final(table).wf(*final(mem)),
            final(self).same_range(*old(self)),
            final(self).owned(*final(mem)),
            ({
                let root = old(table).spec_root();
                let v = vpn.0 as int;
                let new = final(table).own().difference(old(table).own());
                let n = old(self).frames().len() as int;
                let p = final(self).frames()[n];
                &&& r == (if old(mem).free() <= 0 {
                    Err::<(), MapError>(MapError::OutOfMemory)
                } else if page_table::blocked(*old(mem), root, v, 2) {
                    Err(MapError::AlreadyMapped)
                } else if page_table::missing(*old(mem), root, v, 2) > old(mem).free() - 1 {
                    Err(MapError::OutOfMemory)
                } else {
                    Ok(())
                })
                &&& final(table).spec_root() == root
                &&& old(table).own().subset_of(final(table).own())
                &&& final(table).tables() == old(table).tables().union(new)
                &&& final(mem).same_but(*old(mem), old(table).own())
                &&& final(self).frames().to_set().disjoint(final(table).own())
                &&& final(self).frames().to_set().disjoint(final(table).tables())
                &&& r is Err ==> {
                    &&& final(self).frames() == old(self).frames()
                    &&& final(mem).grew(*old(mem), new)
                    &&& forall|w: int|
                        0 <= w ==> #[trigger] page_table::walk(*final(mem), root, w) == page_table::walk(
                            *old(mem),
                            root,
                            w,
                        )
                }
                &&& r is Err ==> if old(mem).free() <= 0 || page_table::blocked(*old(mem), root, v, 2) {
                    page_table::alike(*final(mem), *old(mem), root)
                } else {
                    page_table::reached(
                        *final(mem),
                        *old(mem),
                        root,
                        v,
                        2 - page_table::missing(*old(mem), root, v, 2) + old(mem).free() - 1,
                    )
                }
                &&& r is Ok ==> {
                    &&& final(self).frames() == old(self).frames().push(p)
                    &&& final(mem).grew(*old(mem), new.insert(p))
                    &&& final(mem).zeroed(p)
                    &&& final(mem).drew(*old(mem))
                    &&& final(mem).free() == old(mem).free() - 1 - page_table::missing(*old(mem), root, v, 2)
                    &&& page_table::occupied(*final(mem), *old(mem), root, v, 2)
                    &&& page_table::mapped(
                        *final(mem),
                        *old(mem),
                        root,
                        v,
                        2,
                        true,
                        page_table::make_entry(p, page_table::installed(old(self).spec_perm())),
                    )
                }
            }),
    {
        let ghost r0 = *self;
        let ghost m0 = *mem;
        let ghost t0 = *table;
        let ghost root = table.spec_root();
        let ghost v = vpn.0 as int;
        let ghost own0 = table.own();
        proof {
            t0.lemma_wf(m0);
            r0.lemma_owned(m0);
            assert(own0.difference(own0) =~= Set::<int>::empty());
            assert(t0.tables().union(Set::empty()) =~= t0.tables());
            m0.lemma_grew_none(m0);
        }
        match Frame::allocate(mem) {
            None => Err(MapError::OutOfMemory),
            Some(frame) => {
                let ghost m1 = *mem;
                let ghost p = frame.spec_ppn();
                let ghost one = Set::<int>::empty().insert(p);
                proof {
                    m1.lemma_grew_one(m0, p);
                    m1.lemma_owns_frame(p);
                    assert(one.contains(p));
                    assert(!m0.used(p));
                    assert forall|t: int| #[trigger] t0.tables().contains(t) implies m1.owns(t, 0) && m1.same_frame(
                        m0,
                        t,
                    ) by {}
                    t0.lemma_kept(m0, m1);
                    assert(page_table::blocked(m1, root, v, 2) == page_table::blocked(m0, root, v, 2));
                }
                match table.map(mem, vpn, frame.ppn(), self.perm) {
                    Err(e) => {
                        let ghost m2 = *mem;
                        let ghost t2 = *table;
                        let ghost new = t2.own().difference(own0);
                        proof {
                            t2.lemma_wf(m2);
                            m2.lemma_grew_twice(m1, m0, one, new);
                        }
                        frame.release(mem);
                        proof {
                            mem.lemma_shrank_one(m2, p);
                            mem.lemma_grew_shrank(m2, m0, one.union(new), one);
                            assert(one.union(new).difference(one) =~= new);
                            assert forall|t: int| #[trigger] t2.tables().contains(t) || t2.own().contains(
                                t,
                            ) implies t != p by {}
                            assert forall|t: int| #[trigger] t2.tables().contains(t) implies mem.owns(t, 0)
                                && mem.same_frame(m2, t) by {
                                assert(t != p);
                                assert(mem.used(t));
                            }
                            assert forall|t: int| #[trigger] t2.own().contains(t) implies mem.owns(t, 0) by {
                                assert(t != p);
                            }
                            t2.lemma_kept(m2, *mem);
                            if e != MapError::AlreadyMapped {
                                page_table::lemma_reached_since(
                                    *mem,
                                    m2,
                                    m1,
                                    m0,
                                    root,
                                    v,
                                    2 - page_table::missing(m0, root, v, 2) + m0.free() - 1,
                                );
                            } else {
                                assert(page_table::alike(*mem, m0, root)) by {
                                    assert forall|w: int, lev: int|
                                        #![trigger page_table::blocked(*mem, root, w, lev)]
                                        #![trigger page_table::missing(*mem, root, w, lev)]
                                        0 <= w && 0 <= lev <= 2 implies page_table::blocked(*mem, root, w, lev)
                                        == page_table::blocked(m0, root, w, lev) && page_table::missing(
                                        *mem,
                                        root,
                                        w,
                                        lev,
                                    ) == page_table::missing(m0, root, w, lev) by {
                                        assert(page_table::blocked(m1, root, w, lev) == page_table::blocked(
                                            m0,
                                            root,
                                            w,
                                            lev,
                                        ));
                                    }
                                }
                            }
                            self.lemma_still_owned(m0, *mem);
                            lemma_untouched(m0, m1, m2, *mem, own0, t0.under(addr::table_index(v, 0)));
                            assert forall|w: int| 0 <= w implies #[trigger] page_table::walk(*mem, root, w)
                                == page_table::walk(m0, root, w) by {
                                assert(page_table::walk(m2, root, w) == page_table::walk(m1, root, w));
                            }
                            self.lemma_apart(m0, m2, t0, t2);
                        }
                        Err(e)
                    },
                    Ok(()) => {
                        let ghost m2 = *mem;
                        let ghost t2 = *table;
                        let ghost new = t2.own().difference(own0);
                        proof {
                            t2.lemma_wf(m2);
                            m2.lemma_grew_twice(m1, m0, one, new);
                            m1.lemma_drew_one(m0, p);
                            m2.lemma_drew_twice(m1, m0);
                            assert(one.union(new) =~= new.insert(p));
                            frame::lemma_ppns_push(self.frames@, frame);
                            page_table::lemma_occupied_since(m2, m1, m0, root, v, 2);
                            lemma_untouched(m0, m1, m2, m2, own0, t0.under(addr::table_index(v, 0)));
                        }
                        self.frames.push(frame);
                        proof {
                            assert(!r0.frames().contains(p)) by {
                                if r0.frames().contains(p) {
                                    assert(r0.frames().to_set().contains(p));
                                    m0.lemma_owns_frame(p);
                                }
                            }
                            assert(self.owned(m2)) by {
                                assert forall|j: int| 0 <= j < self.frames@.len() implies (
                                #[trigger] self.frames@[j]).spec_order() == 0 && m2.owns(
                                    self.frames@[j].spec_ppn(),
                                    0,
                                ) by {
                                    if j < r0.frames@.len() {
                                        assert(self.frames@[j] == r0.frames@[j]);
                                    }
                                }
                            }
                            r0.lemma_apart(m0, m2, t0, t2);
                            assert(!t2.own().contains(p)) by {
                                if t2.own().contains(p) {
                                    assert(new.contains(p));
                                }
                            }
                            assert(m2.same_frame(m1, p)) by {
                                assert(!t0.under(addr::table_index(v, 0)).contains(p));
                            }
                            assert forall|i: int| 0 <= i < 512 implies #[trigger] m2.word(p, i) == 0 by {
                                assert(m1.word(p, i) == 0);
                            }
                        }
                        Ok(())
                    },
                }
            },
        }
    }

    /// Take the pages before `vpn` out of the table again: those of the marks from the
    /// end of `leaves` up to the `e`th. The interior tables stay.
    fn back_out(
        &self,
        table: &mut PageTable,
        mem: &mut Memory,
        vpn: VirtPageNum,
        Ghost(m0): Ghost<Memory>,
        Ghost(t0): Ghost<PageTable>,
        Ghost(leaves): Ghost<Seq<Mark>>,
        Ghost(marks): Ghost<Seq<Mark>>,
        Ghost(e): Ghost<int>,
        Ghost(tops): Ghost<int>,
    )
        requires
            old(mem).wf(),
            m0.wf(),
            t0.wf(m0),
            old(table).wf(*old(mem)),
            old(table).private(tops),
            self.wf(),
            self.laid(*old(mem), *old(table), m0, t0),
            page_table::shaped(m0, t0.spec_root(), leaves, tops),
            page_table::shaped(*old(mem), t0.spec_root(), marks, tops),
            leaves.len() <= e <= marks.len() <= e + 1,
            marks.len() == e + 1 ==> !marks[e].leaf,
            forall|k: int| 0 <= k < leaves.len() ==> #[trigger] marks[k] == leaves[k],
            lined_up(
                *old(mem),
                t0.spec_root(),
                marks,
                leaves.len() as int,
                e,
                self.first(),
                vpn.0 as int,
                tops,
            ),
            covers(marks, leaves.len() as int, e, self.first(), vpn.0 - self.first()),
            forall|w: int|
                0 <= w && offset(w, self.first()) >= vpn.0 - self.first() ==> #[trigger] page_table::walk(
                    *old(mem),
                    t0.spec_root(),
                    w,
                ) == page_table::walk(m0, t0.spec_root(), w),
        ensures
            final(mem).wf(),
            *final(table) == *old(table),
            final(table).wf(*final(mem)),
            self.laid(*final(mem), *final(table), m0, t0),
            unmoved(*final(mem), m0, t0.spec_root()),
            page_table::shaped(
                *final(mem),
                t0.spec_root(),
                page_table::stripped(marks, leaves.len() as int, marks.len() as int),
                tops,
            ),
    {
        let ghost m1 = *mem;
        let ghost n = leaves.len() as int;
        let start: VirtPageNum = self.start.vpn();
        undo(table, mem, start, vpn, Ghost(marks), Ghost(n), Ghost(e), Ghost(tops));
        proof {
            lemma_undone(
                *mem,
                m1,
                m0,
                t0.spec_root(),
                leaves,
                marks,
                e,
                self.first(),
                vpn.0 as int,
                tops,
            );
            self.lemma_laid_same(*mem, *table, m1, m0, t0);
        }
    }

    /// The first `n` pages of the region are mapped to the first `n` of `frames`
    /// with its permissions; every other page is mapped as in `before`.
    pub open spec fn framed_walks(&self, mem: Memory, before: Memory, root: int, frames: Seq<int>) -> bool {
        forall|w: int|
            0 <= w ==> #[trigger] page_table::walk(mem, root, w) == (if offset(w, self.first()) < frames.len() {
                Some(
                    (
                        2int,
                        page_table::make_entry(
                            frames[offset(w, self.first())],
                            page_table::installed(self.spec_perm()),
                        ),
                    ),
                )
            } else {
                page_table::walk(before, root, w)
            })
    }

    /// Install every page of a region with frames of its own.
    #[verifier::rlimit(60)]
    fn map_framed(
        &mut self,
        table: &mut PageTable,
        mem: &mut Memory,
        Ghost(leaves): Ghost<Seq<Mark>>,
        Ghost(tops): Ghost<int>,
    ) -> (r: Result<(), MapError>)
        requires
            old(mem).wf(),
            old(table).wf(*old(mem)),
            old(self).mappable(),
            old(self).spec_backing() == Backing::Framed,
            old(self).frames() == Seq::<int>::empty(),
            old(table).private(tops),
            old(self).lower() || tops == 512,
            page_table::shaped(*old(mem), old(table).spec_root(), leaves, tops),
        ensures
            final(mem).wf(),
            final(table).wf(*final(mem)),
            final(table).private(tops),
            final(self).same_range(*old(self)),
            final(self).laid(*final(mem), *final(table), *old(mem), *old(table)),
            ({
                let root = old(table).spec_root();
                let plan = install(
                    leaves,
                    Backing::Framed,
                    old(self).first(),
                    old(self).last(),
                    old(mem).free(),
                );
                let frames = final(self).frames();
                &&& r == plan.result
                &&& r is Ok ==> {
                    &&& final(mem).free() == plan.free
                    &&& final(mem).drew(*old(mem))
                    &&& page_table::shaped(*final(mem), root, plan.leaves, tops)
                    &&& frames.len() == old(self).pages()
                    &&& forall|j: int| 0 <= j < frames.len() ==> final(mem).zeroed(#[trigger] frames[j])
                    &&& old(self).framed_walks(*final(mem), *old(mem), root, frames)
                }
                &&& r is Err ==> plan.undone(*final(mem), *old(mem), root, leaves, tops)
            }),
    {
        let ghost r0 = *self;
        let ghost m0 = *mem;
        let ghost t0 = *table;
        let ghost root = table.spec_root();
        let ghost first = self.first();
        let ghost last = self.last();
        let ghost plan = install(leaves, Backing::Framed, first, last, m0.free());
        let ghost mut cur: Seq<Mark> = leaves;
        let mut vpn: VirtPageNum = self.start.vpn();
        let end: VirtPageNum = self.end.vpn();
        proof {
            t0.lemma_wf(m0);
            assert(t0.own().difference(t0.own()) =~= Set::<int>::empty());
            assert(t0.tables().union(Set::empty()) =~= t0.tables());
            assert(self.frames().to_set() =~= Set::<int>::empty());
            assert(Set::<int>::empty().union(Set::empty()) =~= Set::<int>::empty());
            m0.lemma_grew_none(m0);
            m0.lemma_drew_none(m0);
            assert(self.frames@.len() == 0) by {
                assert(self.frames().len() == self.frames@.len());
            }
            assert(self.owned(m0));
        }
        while vpn.0 < end.0
            invariant
                mem.wf(),
                table.wf(*mem),
                table.private(tops),
                self.mappable(),
                self.same_range(r0),
                self.laid(*mem, *table, m0, t0),
                m0.wf(),
                mem.drew(m0),
                t0.wf(m0),
                root == t0.spec_root(),
                first == r0.first(),
                last == r0.last(),
                end.0 == last,
                first <= last ==> first <= vpn.0 <= last,
                first > last ==> vpn.0 == first,
                self.frames().len() == vpn.0 - first,
                self.lower() || tops == 512,
                tops == 256 || tops == 512,
                plan == install(cur, Backing::Framed, vpn.0 as int, last, mem.free()),
                page_table::shaped(m0, root, leaves, tops),
                page_table::shaped(*mem, root, cur, tops),
                forall|k: int| 0 <= k < leaves.len() ==> #[trigger] cur[k] == leaves[k],
                lined_up(*mem, root, cur, leaves.len() as int, cur.len() as int, first, vpn.0 as int, tops),
                covers(cur, leaves.len() as int, cur.len() as int, first, vpn.0 - first),
                forall|j: int| 0 <= j < self.frames().len() ==> mem.zeroed(#[trigger] self.frames()[j]),
                r0.framed_walks(*mem, m0, root, self.frames()),
                r0 == *old(self),
                m0 == *old(mem),
                t0 == *old(table),
                plan == install(leaves, Backing::Framed, first, last, m0.free()),
            decreases end.0 - vpn.0,
        {
            let ghost r1 = *self;
            let ghost m1 = *mem;
            let ghost t1 = *table;
            let ghost v = vpn.0 as int;
            proof {
                m1.lemma_free();
                page_table::lemma_index(v, 0);
                page_table::lemma_shape_at(m1, root, cur, tops, v, 2);
                t1.lemma_private(m1, tops, addr::table_index(v, 0));
            }
            match self.map_framed_page(table, mem, vpn) {
                Err(e) => {
                    proof {
                        let left = m1.free() - 1;
                        self.lemma_laid_step(*mem, *table, m1, t1, r1, m0, t0);
                        lemma_attempt_failed(*mem, m1, m0, root, leaves, cur, plan.leaves, first, v, 2, left, tops);
                    }
                    self.back_out(
                        table,
                        mem,
                        vpn,
                        Ghost(m0),
                        Ghost(t0),
                        Ghost(leaves),
                        Ghost(plan.leaves),
                        Ghost(cur.len() as int),
                        Ghost(tops),
                    );
                    return Err(e);
                },
                Ok(()) => {
                    proof {
                        let p = self.frames()[v - first];
                        self.lemma_laid_step(*mem, *table, m1, t1, r1, m0, t0);
                        mem.lemma_drew_twice(m1, m0);
                        page_table::lemma_shape_install(*mem, m1, root, cur, tops, v, 2);
                        lemma_line_more(
                            *mem,
                            m1,
                            root,
                            cur,
                            leaves.len() as int,
                            first,
                            v,
                            2,
                            tops,
                            page_table::make_entry(p, page_table::installed(r0.spec_perm())),
                        );
                        cur = cur.push(page_table::leaf_at(v, 2));
                        assert forall|j: int| 0 <= j < self.frames().len() implies mem.zeroed(
                            #[trigger] self.frames()[j],
                        ) by {
                            if j < v - first {
                                assert(self.frames()[j] == r1.frames()[j]);
                                r1.lemma_frame_kept(*mem, m1, t1, j);
                            }
                        }
                        assert forall|w: int| 0 <= w implies #[trigger] page_table::walk(*mem, root, w) == (
                        if offset(w, first) < self.frames().len() {
                            Some(
                                (
                                    2int,
                                    page_table::make_entry(
                                        self.frames()[offset(w, first)],
                                        page_table::installed(r0.spec_perm()),
                                    ),
                                ),
                            )
                        } else {
                            page_table::walk(m0, root, w)
                        }) by {
                            assert(page_table::walk(m1, root, w) == page_table::walk(m1, root, w));
                            lemma_offset(w, v);
                            lemma_offset_next(w, first, v);
                        }
                    }
                },
            }
            vpn = vpn.next();
        }
        Ok(())
    }

    /// The first `n` pages of the region are mapped to the frames at the direct
    /// map's offset, with its permissions; every other page is mapped as in
    /// `before`.
    pub open spec fn linear_walks(&self, mem: Memory, before: Memory, root: int, n: int) -> bool {
        forall|w: int|
            #![trigger page_table::walk(mem, root, w)]
            0 <= w ==> if offset(w, self.first()) < n {
                resolve(mem, root, w) == Some(
                    (
                        self.first() + offset(w, self.first()) - OFFSET_PAGES,
                        page_table::installed(self.spec_perm()),
                    ),
                )
            } else {
                page_table::walk(mem, root, w) == page_table::walk(before, root, w)
            }
    }

    /// Install every page of a region of the direct map.
    #[verifier::rlimit(60)]
    fn map_linear(
        &mut self,
        table: &mut PageTable,
        mem: &mut Memory,
        Ghost(leaves): Ghost<Seq<Mark>>,
        Ghost(tops): Ghost<int>,
    ) -> (r: Result<(), MapError>)
        requires
            old(mem).wf(),
            old(table).wf(*old(mem)),
            old(self).mappable(),
            old(self).spec_backing() == Backing::Linear,
            old(self).frames() == Seq::<int>::empty(),
            old(table).private(tops),
            old(self).lower() || tops == 512,
            page_table::shaped(*old(mem), old(table).spec_root(), leaves, tops),
        ensures
            final(mem).wf(),
            final(table).wf(*final(mem)),
            final(table).private(tops),
            *final(self) == *old(self),
            final(self).laid(*final(mem), *final(table), *old(mem), *old(table)),
            ({
                let root = old(table).spec_root();
                let plan = install(
                    leaves,
                    Backing::Linear,
                    old(self).first(),
                    old(self).last(),
                    old(mem).free(),
                );
                &&& r == plan.result
                &&& r is Ok ==> {
                    &&& final(mem).free() == plan.free
                    &&& final(mem).drew(*old(mem))
                    &&& page_table::shaped(*final(mem), root, plan.leaves, tops)
                    &&& old(self).linear_walks(
                        *final(mem),
                        *old(mem),
                        root,
                        old(self).last() - old(self).first(),
                    )
                }
                &&& r is Err ==> plan.undone(*final(mem), *old(mem), root, leaves, tops)
            }),
    {
        let ghost r0 = *self;
        let ghost m0 = *mem;
        let ghost t0 = *table;
        let ghost root = table.spec_root();
        let ghost first = self.first();
        let ghost last = self.last();
        let ghost plan = install(leaves, Backing::Linear, first, last, m0.free());
        let ghost mut cur: Seq<Mark> = leaves;
        let mut vpn: VirtPageNum = self.start.vpn();
        let end: VirtPageNum = self.end.vpn();
        proof {
            t0.lemma_wf(m0);
            assert(t0.own().difference(t0.own()) =~= Set::<int>::empty());
            assert(t0.tables().union(Set::empty()) =~= t0.tables());
            assert(self.frames().to_set() =~= Set::<int>::empty());
            assert(Set::<int>::empty().union(Set::empty()) =~= Set::<int>::empty());
            m0.lemma_grew_none(m0);
            m0.lemma_drew_none(m0);
            assert(self.frames@.len() == 0) by {
                assert(self.frames().len() == self.frames@.len());
            }
            assert(self.owned(m0));
            page_table::lemma_installed(self.spec_perm());
            page_table::lemma_flag_bits(self.spec_perm());
        }
        while vpn.0 < end.0
            invariant
                mem.wf(),
                table.wf(*mem),
                table.private(tops),
                self.mappable(),
                *self == r0,
                self.spec_backing() == Backing::Linear,
                self.frames() == Seq::<int>::empty(),
                self.laid(*mem, *table, m0, t0),
                m0.wf(),
                mem.drew(m0),
                t0.wf(m0),
                root == t0.spec_root(),
                first == r0.first(),
                last == r0.last(),
                end.0 == last,
                first <= last ==> first <= vpn.0 <= last,
                first > last ==> vpn.0 == first,
                first <= last ==> tops == 512,
                plan == install(cur, Backing::Linear, vpn.0 as int, last, mem.free()),
                page_table::shaped(m0, root, leaves, tops),
                page_table::shaped(*mem, root, cur, tops),
                forall|k: int| 0 <= k < leaves.len() ==> #[trigger] cur[k] == leaves[k],
                lined_up(*mem, root, cur, leaves.len() as int, cur.len() as int, first, vpn.0 as int, tops),
                covers(cur, leaves.len() as int, cur.len() as int, first, vpn.0 - first),
                r0.linear_walks(*mem, m0, root, vpn.0 - first),
                page_table::installed(r0.spec_perm()) < 1024,
                r0 == *old(self),
                m0 == *old(mem),
                t0 == *old(table),
                plan == install(leaves, Backing::Linear, first, last, m0.free()),
            decreases end.0 - vpn.0,
        {
            let ghost m1 = *mem;
            let ghost t1 = *table;
            let ghost v = vpn.0 as int;
            let ghost flags = page_table::installed(self.spec_perm());
            let ppn: PhysPageNum = PhysPageNum(vpn.0 - OFFSET_PAGES);
            // Use a 2 MiB leaf when both ends line up and the whole superpage is
            // inside the region: one entry instead of 512.
            let pages: u64 = SUPERPAGE_SIZE / PAGE_SIZE;
            let large: bool = vpn.0 % pages == 0 && ppn.0 % pages == 0 && vpn.0 + pages <= end.0;
            let level: usize = if large {
                1
            } else {
                2
            };
            let ghost lev = level as int;
            proof {
                m1.lemma_free();
                page_table::lemma_index(v, 0);
                page_table::lemma_shape_at(m1, root, cur, tops, v, lev);
                t1.lemma_private(m1, tops, addr::table_index(v, 0));
                assert(pages == 512);
                lemma_offset_aligned(v);
                assert(lev == leaf_level(Backing::Linear, v, last));
            }
            match table.map_at_level(mem, vpn, ppn, self.perm, level) {
                Err(e) => {
                    proof {
                        let left = m1.free();
                        self.lemma_extended(*mem, *table, m1, t1, addr::table_index(v, 0), m0, t0);
                        assert(page_table::alike(m1, m1, root));
                        lemma_attempt_failed(*mem, m1, m0, root, leaves, cur, plan.leaves, first, v, lev, left, tops);
                    }
                    self.back_out(
                        table,
                        mem,
                        vpn,
                        Ghost(m0),
                        Ghost(t0),
                        Ghost(leaves),
                        Ghost(plan.leaves),
                        Ghost(cur.len() as int),
                        Ghost(tops),
                    );
                    return Err(e);
                },
                Ok(()) => {
                    proof {
                        self.lemma_extended(*mem, *table, m1, t1, addr::table_index(v, 0), m0, t0);
                        mem.lemma_drew_twice(m1, m0);
                        page_table::lemma_shape_install(*mem, m1, root, cur, tops, v, lev);
                        lemma_line_more(
                            *mem,
                            m1,
                            root,
                            cur,
                            leaves.len() as int,
                            first,
                            v,
                            lev,
                            tops,
                            page_table::make_entry(v - OFFSET_PAGES, page_table::installed(r0.spec_perm())),
                        );
                        cur = cur.push(page_table::leaf_at(v, lev));
                        r0.lemma_linear_more(*mem, m1, m0, root, v, lev);
                    }
                },
            }
            vpn = if large {
                VirtPageNum(vpn.0 + pages)
            } else {
                vpn.next()
            };
        }
        Ok(())
    }

    /// One more leaf of a linear region.
    proof fn lemma_linear_more(
        &self,
        mem: Memory,
        m1: Memory,
        m0: Memory,
        root: int,
        v: int,
        lev: int,
    )
        requires
            self.mappable(),
            self.spec_start() >= VIRT_OFFSET,
            self.first() <= v,
            1 <= lev <= 2,
            lev == 1 ==> v % 512 == 0,
            v + page_table::level_pages(lev) <= self.last(),
            self.linear_walks(m1, m0, root, v - self.first()),
            page_table::mapped(
                mem,
                m1,
                root,
                v,
                lev,
                true,
                page_table::make_entry(v - OFFSET_PAGES, page_table::installed(self.spec_perm())),
            ),
        ensures
            self.linear_walks(mem, m0, root, v + page_table::level_pages(lev) - self.first()),
    {
        let first = self.first();
        let n = page_table::level_pages(lev);
        let flags = page_table::installed(self.spec_perm());
        page_table::lemma_installed(self.spec_perm());
        assert forall|w: int|
            #![trigger page_table::walk(mem, root, w)]
            0 <= w implies if offset(w, first) < v + n - first {
            resolve(mem, root, w) == Some((first + offset(w, first) - OFFSET_PAGES, flags))
        } else {
            page_table::walk(mem, root, w) == page_table::walk(m0, root, w)
        } by {
            assert(page_table::walk(m1, root, w) == page_table::walk(m1, root, w));
            lemma_offset(w, v);
            lemma_offset(w, first);
            lemma_offset_shift(w, first, v);
            if page_table::same_slot(w, v, lev) {
                lemma_linear_leaf(w, v, lev, v - OFFSET_PAGES, flags);
            }
        }
    }

    /// Interior tables were added, or a leaf installed, and no frame taken.
    proof fn lemma_extended(
        &self,
        mem: Memory,
        table: PageTable,
        m1: Memory,
        t1: PageTable,
        top: int,
        m0: Memory,
        t0: PageTable,
    )
        requires
            m0.wf(),
            t0.wf(m0),
            m1.wf(),
            self.laid(m1, t1, m0, t0),
            self.frames() == Seq::<int>::empty(),
            table.extends(mem, t1, m1, top),
            t1.under(top).subset_of(t1.own()),
        ensures
            self.laid(mem, table, m0, t0),
    {
        assert(self.frames().to_set() =~= Set::<int>::empty());
        assert(self.frames@.len() == 0) by {
            assert(self.frames().len() == self.frames@.len());
        }
        assert forall|f: int| m1.used(f) && mem.used(f) && !t1.own().contains(f) implies #[trigger] mem.same_frame(
            m1,
            f,
        ) by {}
        self.lemma_laid_step(mem, table, m1, t1, *self, m0, t0);
    }

    /// Install every page of this region into `table`, whose history below its first
    /// `tops` root entries is `leaves`. If a page cannot be installed, those before it
    /// are removed again.
    fn map_into(
        &mut self,
        table: &mut PageTable,
        mem: &mut Memory,
        Ghost(leaves): Ghost<Seq<Mark>>,
        Ghost(tops): Ghost<int>,
    ) -> (r: Result<(), MapError>)
        requires
            old(mem).wf(),
            old(table).wf(*old(mem)),
            old(self).mappable(),
            old(self).frames() == Seq::<int>::empty(),
            old(table).private(tops),
            old(self).lower() || tops == 512,
            page_table::shaped(*old(mem), old(table).spec_root(), leaves, tops),
        ensures
            final(mem).wf(),
            final(table).wf(*final(mem)),
            final(table).private(tops),
            final(self).same_range(*old(self)),
            final(self).laid(*final(mem), *final(table), *old(mem), *old(table)),
            ({
                let root = old(table).spec_root();
                let plan = install(
                    leaves,
                    old(self).spec_backing(),
                    old(self).first(),
                    old(self).last(),
                    old(mem).free(),
                );
                &&& r == plan.result
                &&& r is Ok ==> {
                    &&& final(mem).free() == plan.free
                    &&& final(mem).drew(*old(mem))
                    &&& page_table::shaped(*final(mem), root, plan.leaves, tops)
                    &&& old(self).placed(*final(mem), *old(mem), root, final(self).frames())
                }
                &&& r is Err ==> plan.undone(*final(mem), *old(mem), root, leaves, tops)
            }),
    {
        match self.backing {
            Backing::Linear => self.map_linear(table, mem, Ghost(leaves), Ghost(tops)),
            Backing::Framed => self.map_framed(table, mem, Ghost(leaves), Ghost(tops)),
        }
    }

    /// Number of pages.
    pub open spec fn pages(&self) -> int {
        if self.last() > self.first() {
            self.last() - self.first()
        } else {
            0
        }
    }

    /// The region is mapped, as its backing says, and every other page is mapped
    /// as in `before`: to `frames`, zeroed, or to the frames at the direct map's
    /// offset.
    pub open spec fn placed(&self, mem: Memory, before: Memory, root: int, frames: Seq<int>) -> bool {
        match self.spec_backing() {
            Backing::Framed => {
                &&& frames.len() == self.pages()
                &&& forall|j: int| 0 <= j < frames.len() ==> mem.zeroed(#[trigger] frames[j])
                &&& self.framed_walks(mem, before, root, frames)
            },
            Backing::Linear => {
                &&& frames.len() == 0
                &&& self.linear_walks(mem, before, root, self.pages())
            },
        }
    }

    /// What a frame of a region holds stays while a table is worked on.
    proof fn lemma_frame_kept(&self, mem: Memory, m1: Memory, t1: PageTable, j: int)
        requires
            m1.wf(),
            self.owned(m1),
            self.frames().to_set().disjoint(t1.own()),
            mem.same_but(m1, t1.own()),
            forall|f: int| m1.used(f) ==> #[trigger] mem.used(f),
            0 <= j < self.frames().len(),
            m1.zeroed(self.frames()[j]),
        ensures
            mem.zeroed(self.frames()[j]),
    {
        self.lemma_owned(m1);
        let p = self.frames()[j];
        assert(self.frames().to_set().contains(p));
        m1.lemma_owns_frame(p);
        assert(mem.same_frame(m1, p));
    }

    /// One page more.
    proof fn lemma_laid_step(
        &self,
        mem: Memory,
        table: PageTable,
        m1: Memory,
        t1: PageTable,
        r1: Region,
        m0: Memory,
        t0: PageTable,
    )
        requires
            m0.wf(),
            t0.wf(m0),
            r1.laid(m1, t1, m0, t0),
            self.owned(mem),
            table.spec_root() == t1.spec_root(),
            t1.own().subset_of(table.own()),
            table.tables() == t1.tables().union(table.own().difference(t1.own())),
            self.frames().to_set().disjoint(table.own()),
            self.frames().to_set().disjoint(table.tables()),
            mem.same_but(m1, t1.own()),
            ({
                let new = table.own().difference(t1.own());
                ||| self.frames() == r1.frames() && mem.grew(m1, new)
                ||| self.frames() == r1.frames().push(self.frames().last()) && self.frames().len() > 0
                    && mem.grew(m1, new.insert(self.frames().last()))
            }),
        ensures
            self.laid(mem, table, m0, t0),
    {
        t0.lemma_wf(m0);
        let a = t1.own().difference(t0.own()).union(r1.frames().to_set());
        let new = table.own().difference(t1.own());
        let all = table.own().difference(t0.own());
        let fs = self.frames().to_set();
        assert forall|q: int| new.contains(q) implies !t0.own().contains(q) by {}
        assert(all =~= t1.own().difference(t0.own()).union(new));
        if self.frames() == r1.frames() && mem.grew(m1, new) {
            mem.lemma_grew_twice(m1, m0, a, new);
            assert(a.union(new) =~= all.union(fs));
        } else {
            let p = self.frames().last();
            let b = new.insert(p);
            mem.lemma_grew_twice(m1, m0, a, b);
            assert forall|q: int| fs.contains(q) <==> r1.frames().to_set().contains(q) || q == p by {
                if r1.frames().contains(q) {
                    let j = choose|j: int| 0 <= j < r1.frames().len() && r1.frames()[j] == q;
                    assert(self.frames()[j] == q);
                }
                if self.frames().contains(q) {
                    let j = choose|j: int| 0 <= j < self.frames().len() && self.frames()[j] == q;
                    if j < r1.frames().len() {
                        assert(r1.frames()[j] == q);
                    }
                }
                assert(self.frames()[r1.frames().len() as int] == p);
            }
            assert(a.union(b) =~= all.union(fs));
        }
        assert(table.tables() =~= t0.tables().union(all));
        assert forall|f: int| m0.used(f) && mem.used(f) && !t0.own().contains(f) implies #[trigger] mem.same_frame(
            m0,
            f,
        ) by {
            assert(m1.used(f));
            assert(m1.same_frame(m0, f));
            assert(!t1.own().contains(f)) by {
                if t1.own().contains(f) {
                    assert(t1.own().difference(t0.own()).contains(f));
                    assert(a.contains(f));
                }
            }
            assert(mem.same_frame(m1, f));
        }
    }

    /// Entries of the table's own frames changed.
    proof fn lemma_laid_same(&self, mem: Memory, table: PageTable, m1: Memory, m0: Memory, t0: PageTable)
        requires
            m0.wf(),
            t0.wf(m0),
            self.laid(m1, table, m0, t0),
            mem.allocator() == m1.allocator(),
            mem.same_but(m1, table.own()),
        ensures
            self.laid(mem, table, m0, t0),
    {
        assert(table.own().difference(table.own()) =~= Set::<int>::empty());
        assert(table.tables().union(Set::empty()) =~= table.tables());
        mem.lemma_grew_none(m1);
        self.lemma_still_owned_same(m1, mem);
        self.lemma_laid_step(mem, table, m1, table, *self, m0, t0);
    }

    /// Frames of a region stay apart from tables that are added.
    proof fn lemma_apart(&self, m0: Memory, m1: Memory, t0: PageTable, t1: PageTable)
        requires
            m0.wf(),
            self.owned(m0),
            self.frames().to_set().disjoint(t0.own()),
            self.frames().to_set().disjoint(t0.tables()),
            t0.own().subset_of(t1.own()),
            t1.tables() == t0.tables().union(t1.own().difference(t0.own())),
            forall|q: int| #[trigger] t1.own().difference(t0.own()).contains(q) ==> !m0.used(q),
        ensures
            self.frames().to_set().disjoint(t1.own()),
            self.frames().to_set().disjoint(t1.tables()),
    {
        self.lemma_owned(m0);
        let fs = self.frames().to_set();
        assert forall|q: int| fs.contains(q) implies !t1.own().difference(t0.own()).contains(q) by {
            m0.lemma_owns_frame(q);
        }
        assert forall|q: int| fs.contains(q) implies !t1.own().contains(q) && !t1.tables().contains(q) by {
            assert(!t1.own().difference(t0.own()).contains(q));
        }
    }
}

/// The next page is the one at the next distance.
proof fn lemma_offset_next(w: int, first: int, v: int)
    requires
        0 <= w,
        0 <= first <= v,
        v - first < 0x800_0000,
    ensures
        offset(w, v) == 0 <==> offset(w, first) == v - first,
{
    lemma_offset_value(w, v);
    lemma_offset_value(w, first);
    lemma_offset_value(v, first);
    assert(offset(v, first) == v - first);
}

/// Distances from two starting points.
proof fn lemma_offset_shift(w: int, first: int, v: int)
    requires
        0 <= w,
        0 <= first <= v,
        v - first < 0x800_0000,
    ensures
        offset(w, v) == (if offset(w, first) >= v - first {
            offset(w, first) - (v - first)
        } else {
            offset(w, first) - (v - first) + 0x800_0000
        }),
{
    lemma_offset_value(w, v);
    lemma_offset_value(w, first);
    lemma_offset_value(v, first);
    assert(offset(v, first) == v - first);
}

/// What a linear leaf at page `v` maps page `w` to.
proof fn lemma_linear_leaf(w: int, v: int, lev: int, ppn: int, flags: u64)
    requires
        0 <= w,
        0 <= v,
        1 <= lev <= 2,
        lev == 1 ==> v % 512 == 0,
        page_table::same_slot(w, v, lev),
        0 <= ppn < 0x1000_0000_0000,
        flags < 1024,
    ensures
        offset(w, v) < page_table::level_pages(lev),
        page_table::entry_ppn(page_table::make_entry(ppn, flags)) + w % page_table::level_pages(lev) == ppn
            + offset(w, v),
        page_table::entry_flags(page_table::make_entry(ppn, flags)) == flags,
{
    lemma_offset(w, v);
    page_table::lemma_make_entry(ppn, flags);
    if lev == 1 {
        lemma_offset_low(w, v);
    }
}

/// The direct map's offset keeps the low bits of page numbers.
proof fn lemma_offset_aligned(v: int)
    requires
        OFFSET_PAGES <= v,
    ensures
        (v - OFFSET_PAGES) % 512 == v % 512,
{
}

/// Low bits of a page number and its distance from a multiple of 512.
proof fn lemma_offset_low(w: int, v: int)
    requires
        0 <= w,
        0 <= v,
        v % 512 == 0,
        offset(w, v) < 512,
    ensures
        w % 512 == offset(w, v),
{
    let k = (w - v) / 0x800_0000;
    let d = offset(w, v);
    assert(w == v + 0x800_0000 * k + d);
    let a = v / 512;
    assert(v == 512 * a);
    assert(w == 512 * (a + 0x4_0000 * k) + d);
}

/// Steps that hand out, touch only `under`, and give back leave the rest as it
/// was.
proof fn lemma_untouched(m0: Memory, m1: Memory, m2: Memory, m3: Memory, own: Set<int>, under: Set<int>)
    requires
        under.subset_of(own),
        m1.same_but(m0, Set::empty()),
        m2.same_but(m1, under),
        m3 == m2 || m3.same_but(m2, Set::empty()),
        forall|f: int| m0.used(f) ==> #[trigger] m1.used(f),
        forall|f: int| m1.used(f) ==> #[trigger] m2.used(f),
    ensures
        m3.same_but(m0, own),
{
    assert forall|f: int| m0.used(f) && m3.used(f) && !own.contains(f) implies #[trigger] m3.same_frame(m0, f) by {
        assert(m1.used(f) && m2.used(f));
        assert(m1.same_frame(m0, f));
        assert(m2.same_frame(m1, f));
        assert(m3 == m2 || m3.same_frame(m2, f));
    }
}

/// Pages can only be installed where nothing was mapped.
proof fn lemma_install_free(
    leaves: Seq<Mark>,
    backing: Backing,
    v: int,
    end: int,
    free: int,
    u: int,
)
    requires
        0 <= v <= u < end,
        install(leaves, backing, v, end, free).result is Ok,
    ensures
        !page_table::occupies(leaves, u, 2),
    decreases end - v,
{
    let lev = leaf_level(backing, v, end);
    let left = if backing == Backing::Framed {
        free - 1
    } else {
        free
    };
    let need = page_table::lacking(leaves, v, lev);
    let n = page_table::level_pages(lev);
    if page_table::occupies(leaves, u, 2) {
        if u >= v + n {
            page_table::lemma_occupies_push(leaves, page_table::leaf_at(v, lev), u, 2);
            lemma_install_free(
                leaves.push(page_table::leaf_at(v, lev)),
                backing,
                v + n,
                end,
                left - need,
                u,
            );
        } else {
            let k = choose|k: int| 0 <= k < leaves.len() && page_table::takes(#[trigger] leaves[k], u, 2);
            if lev == 1 {
                lemma_offset(u, v);
                lemma_offset_value(u, v);
                assert(page_table::same_slot(u, v, 1));
            }
            assert(page_table::takes(leaves[k], v, lev));
            assert(page_table::occupies(leaves, v, lev));
        }
    }
}

/// The frames of a list of regions.
pub open spec fn frames_of(regions: Seq<Region>) -> Set<int>
    decreases regions.len(),
{
    if regions.len() == 0 {
        Set::empty()
    } else {
        frames_of(regions.drop_last()).union(regions.last().frames().to_set())
    }
}

/// A frame of a list of regions is one of some region.
pub proof fn lemma_frames_of(regions: Seq<Region>, p: int)
    ensures
        frames_of(regions).contains(p) <==> exists|i: int|
            0 <= i < regions.len() && (#[trigger] regions[i]).frames().to_set().contains(p),
    decreases regions.len(),
{
    if regions.len() > 0 {
        let t = regions.drop_last();
        lemma_frames_of(t, p);
        if frames_of(t).contains(p) {
            let i = choose|i: int| 0 <= i < t.len() && (#[trigger] t[i]).frames().to_set().contains(p);
            assert(regions[i] == t[i]);
        }
        if exists|i: int| 0 <= i < regions.len() && (#[trigger] regions[i]).frames().to_set().contains(p) {
            let i = choose|i: int|
                0 <= i < regions.len() && (#[trigger] regions[i]).frames().to_set().contains(p);
            if i < t.len() {
                assert(t[i] == regions[i]);
            }
        }
    }
}

/// A page table plus the regions mapped into it.
pub struct AddressSpace {
    table: PageTable,
    regions: Vec<Region>,
    /// The leaves that were installed, in order.
    leaves: Ghost<Seq<Mark>>,
    /// How many of the root entries are the space's own: all, or the lower half
    /// once it shares the kernel's.
    tops: Ghost<int>,
}

impl AddressSpace {
    /// The page table.
    pub closed spec fn spec_table(&self) -> PageTable {
        self.table
    }

    /// Frame number of the root table.
    pub open spec fn root(&self) -> int {
        self.spec_table().spec_root()
    }

    /// The regions, in the order in which they were mapped.
    pub closed spec fn regions(&self) -> Seq<Region> {
        self.regions@
    }

    /// The leaves that were installed, in order.
    pub closed spec fn leaves(&self) -> Seq<Mark> {
        self.leaves@
    }

    /// How many of the root entries are the space's own.
    pub closed spec fn tops(&self) -> int {
        self.tops@
    }

    /// Every frame that the space owns: those of its table and those of its
    /// regions.
    pub open spec fn footprint(&self) -> Set<int> {
        self.spec_table().own().union(frames_of(self.regions()))
    }

    /// Every frame that what the space maps depends on: its footprint and the
    /// tables that it shares.
    pub open spec fn support(&self) -> Set<int> {
        self.footprint().union(self.spec_table().tables())
    }

    /// Region `i` is in order: it can be mapped, its frames are handed out and
    /// apart from the tables.
    pub open spec fn region_ok(&self, mem: Memory, i: int) -> bool {
        let r = self.regions()[i];
        &&& r.mappable()
        &&& r.lower() || self.tops() == 512
        &&& r.owned(mem)
        &&& r.frames().to_set().disjoint(self.spec_table().own())
        &&& r.frames().to_set().disjoint(self.spec_table().tables())
    }

    /// What the space owns is its alone and can be given back.
    pub open spec fn live(&self, mem: Memory) -> bool {
        &&& self.spec_table().wf(mem)
        &&& self.spec_table().private(self.tops())
        &&& forall|i: int| 0 <= i < self.regions().len() ==> #[trigger] self.region_ok(mem, i)
        &&& forall|i: int, j: int|
            0 <= i < self.regions().len() && 0 <= j < self.regions().len() && i != j ==> (
            #[trigger] self.regions()[i]).frames().to_set().disjoint(
                (#[trigger] self.regions()[j]).frames().to_set(),
            )
    }

    /// Does page `w` belong to region `i`?
    pub open spec fn in_region(&self, w: int, i: int) -> bool {
        offset(w, self.regions()[i].first()) < self.regions()[i].pages()
    }

    /// Page `w` of region `i` is mapped as the region says.
    pub open spec fn backed(&self, mem: Memory, w: int, i: int) -> bool {
        let r = self.regions()[i];
        let o = offset(w, r.first());
        match r.spec_backing() {
            Backing::Framed => page_table::walk(mem, self.root(), w) == Some(
                (2int, page_table::make_entry(r.frames()[o], page_table::installed(r.spec_perm()))),
            ),
            Backing::Linear => resolve(mem, self.root(), w) == Some(
                (r.first() + o - OFFSET_PAGES, page_table::installed(r.spec_perm())),
            ),
        }
    }

    /// Regions and mappings agree: every page of a region is mapped as the region
    /// says, and whatever the space itself maps is a page of a region. What it
    /// shares is not for users.
    #[verifier::opaque]
    pub open spec fn sound(&self, mem: Memory) -> bool {
        &&& forall|i: int|
            0 <= i < self.regions().len() && (#[trigger] self.regions()[i]).spec_backing() == Backing::Framed
                ==> self.regions()[i].frames().len() == self.regions()[i].pages()
        &&& forall|w: int, i: int|
            0 <= w && 0 <= i < self.regions().len() && #[trigger] self.in_region(w, i) ==> self.backed(mem, w, i)
        &&& forall|w: int|
            0 <= w && addr::table_index(w, 0) < self.tops() && (#[trigger] page_table::walk(
                mem,
                self.root(),
                w,
            )) is Some ==> exists|i: int| 0 <= i < self.regions().len() && #[trigger] self.in_region(w, i)
        &&& forall|w: int|
            0 <= w && addr::table_index(w, 0) >= self.tops() ==> (#[trigger] page_table::walk(
                mem,
                self.root(),
                w,
            ) matches Some((l, x)) ==> x & 16 != 16)
    }

    /// The space is as its regions say.
    pub open spec fn wf(&self, mem: Memory) -> bool {
        &&& self.live(mem)
        &&& page_table::shaped(mem, self.root(), self.leaves(), self.tops())
        &&& self.sound(mem)
    }

    /// What it means that the frames of a space are its alone.
    pub proof fn lemma_live(&self, mem: Memory)
        requires
            mem.wf(),
            self.live(mem),
        ensures
            forall|p: int| #[trigger] self.footprint().contains(p) ==> mem.owns(p, 0) && mem.used(p),
            forall|p: int| #[trigger] self.support().contains(p) ==> mem.owns(p, 0) && mem.used(p),
    {
        self.spec_table().lemma_wf(mem);
        assert forall|p: int| #[trigger] frames_of(self.regions()).contains(p) implies mem.owns(p, 0) && mem.used(
            p,
        ) by {
            lemma_frames_of(self.regions(), p);
            let i = choose|i: int|
                0 <= i < self.regions().len() && (#[trigger] self.regions()[i]).frames().to_set().contains(p);
            assert(self.region_ok(mem, i));
            self.regions()[i].lemma_owned(mem);
            mem.lemma_owns_frame(p);
        }
    }

    /// A space is not disturbed by what happens to frames it does not depend on.
    pub proof fn lemma_undisturbed(&self, m0: Memory, m1: Memory)
        requires
            m0.wf(),
            self.live(m0),
            forall|p: int| #[trigger] self.support().contains(p) ==> m1.owns(p, 0),
            forall|p: int| #[trigger] self.spec_table().tables().contains(p) ==> m1.same_frame(m0, p),
        ensures
            self.live(m1),
            self.wf(m0) ==> self.wf(m1),
            forall|v: int|
                0 <= v ==> #[trigger] page_table::walk(m1, self.root(), v) == page_table::walk(
                    m0,
                    self.root(),
                    v,
                ),
    {
        let t = self.spec_table();
        assert forall|p: int| #[trigger] t.tables().contains(p) implies m1.owns(p, 0) && m1.same_frame(m0, p) by {
            assert(self.support().contains(p));
        }
        assert forall|p: int| #[trigger] t.own().contains(p) implies m1.owns(p, 0) by {
            assert(self.support().contains(p));
        }
        t.lemma_kept(m0, m1);
        assert forall|i: int| 0 <= i < self.regions().len() implies #[trigger] self.region_ok(m1, i) by {
            assert(self.region_ok(m0, i));
            let r = self.regions()[i];
            assert forall|p: int| #[trigger] r.frames().to_set().contains(p) implies m1.owns(p, 0) by {
                lemma_frames_of(self.regions(), p);
                assert(self.support().contains(p));
            }
            r.lemma_still_owned(m0, m1);
        }
        if self.wf(m0) {
            assert(self.sound(m1)) by {
                reveal(AddressSpace::sound);
                assert forall|w: int, i: int|
                    0 <= w && 0 <= i < self.regions().len() && #[trigger] self.in_region(w, i) implies self.backed(
                    m1,
                    w,
                    i,
                ) by {
                    assert(self.backed(m0, w, i));
                    assert(page_table::walk(m1, self.root(), w) == page_table::walk(m0, self.root(), w));
                }
            }
        }
    }

    /// An empty space with a fresh root table.
    pub fn new(mem: &mut Memory) -> (r: Option<AddressSpace>)
        requires
            old(mem).wf(),
        ensures
            final(mem).wf(),
            r is Some <==> old(mem).free() > 0,
            r is None ==> *final(mem) == *old(mem),
            r matches Some(s) ==> {
                &&& s.wf(*final(mem))
                &&& s.regions() == Seq::<Region>::empty()
                &&& s.leaves() == Seq::<Mark>::empty()
                &&& s.tops() == 512
                &&& s.support() == s.footprint()
                &&& s.spec_table().own() == s.footprint()
                &&& final(mem).grew(*old(mem), s.footprint())
                &&& final(mem).free() == old(mem).free() - 1
                &&& final(mem).drew(*old(mem))
                &&& final(mem).same_but(*old(mem), Set::empty())
            },
    {
        match PageTable::new(mem) {
            None => None,
            Some(table) => {
                let s = AddressSpace {
                    table,
                    regions: Vec::new(),
                    leaves: Ghost(Seq::empty()),
                    tops: Ghost(512),
                };
                proof {
                    assert(frames_of(s.regions()) =~= Set::<int>::empty());
                    assert(s.footprint() =~= table.own());
                    assert(s.support() =~= table.own());
                    assert(s.sound(*mem)) by {
                        reveal(AddressSpace::sound);
                        assert forall|w: int|
                            0 <= w && addr::table_index(w, 0) >= 512 implies (#[trigger] page_table::walk(
                            *mem,
                            s.root(),
                            w,
                        ) matches Some((l, x)) ==> x & 16 != 16) by {
                            page_table::lemma_index(w, 0);
                        }
                    }
                }
                Some(s)
            },
        }
    }

    /// Region `i` stays in order when the table gets new tables.
    proof fn lemma_region_kept(&self, mem: Memory, s0: AddressSpace, m0: Memory, added: Set<int>, i: int)
        requires
            m0.wf(),
            s0.live(m0),
            0 <= i < s0.regions().len(),
            i < self.regions().len(),
            self.regions()[i] == s0.regions()[i],
            self.tops() == s0.tops(),
            mem.grew(m0, added),
            s0.spec_table().own().subset_of(self.spec_table().own()),
            self.spec_table().tables() == s0.spec_table().tables().union(
                self.spec_table().own().difference(s0.spec_table().own()),
            ),
            self.spec_table().own().difference(s0.spec_table().own()).subset_of(added),
        ensures
            self.region_ok(mem, i),
    {
        assert(s0.region_ok(m0, i));
        let r = s0.regions()[i];
        r.lemma_owned(m0);
        assert forall|p: int| #[trigger] r.frames().to_set().contains(p) implies mem.owns(p, 0) by {
            assert(m0.owns(p, 0));
        }
        r.lemma_still_owned(m0, mem);
        assert forall|q: int| #[trigger] self.spec_table().own().difference(s0.spec_table().own()).contains(
            q,
        ) implies !m0.used(q) by {
            assert(added.contains(q));
        }
        r.lemma_apart(m0, mem, s0.spec_table(), self.spec_table());
    }

    /// Map `region` and take ownership of it.
    ///
    /// If a page cannot be mapped, those mapped before it are removed and their
    /// frames given back. Interior tables stay in the table.
    #[verifier::rlimit(60)]
    pub fn push(&mut self, mem: &mut Memory, region: Region) -> (r: Result<(), MapError>)
        requires
            old(mem).wf(),
            old(self).wf(*old(mem)),
            region.mappable(),
            region.frames() == Seq::<int>::empty(),
            region.lower() || old(self).tops() == 512,
        ensures
            final(mem).wf(),
            final(self).pushed(*final(mem), *old(self), *old(mem), region, r),
            r is Ok ==> final(self).regions().last().placed(
                *final(mem),
                *old(mem),
                old(self).root(),
                final(self).regions().last().frames(),
            ),
    {
        let ghost s0 = *self;
        let ghost m0 = *mem;
        let ghost t0 = self.table;
        let ghost root = self.root();
        let ghost plan = install(
            self.leaves@,
            region.spec_backing(),
            region.first(),
            region.last(),
            m0.free(),
        );
        let mut region = region;
        let ghost g0 = region;
        proof {
            s0.lemma_live(m0);
        }
        let r = region.map_into(&mut self.table, mem, Ghost(s0.leaves@), Ghost(s0.tops@));
        let ghost m1 = *mem;
        let ghost t1 = self.table;
        let ghost fs = region.frames().to_set();
        let ghost new = t1.own().difference(t0.own());
        self.leaves = Ghost(plan.history(s0.leaves@));
        proof {
            region.lemma_owned(m1);
            t1.lemma_wf(m1);
        }
        if r.is_err() {
            region.release_frames(mem);
            proof {
                self.lemma_push_failed(*mem, s0, m0, m1, t1, fs, g0, r);
            }
        } else {
            let ghost g1 = region;
            self.regions.push(region);
            proof {
                self.lemma_push_done(m1, s0, m0, g0, g1, r);
            }
        }
        r
    }

    /// How a push changes a space and the memory.
    pub open spec fn pushed(
        &self,
        mem: Memory,
        s0: AddressSpace,
        m0: Memory,
        region: Region,
        r: Result<(), MapError>,
    ) -> bool {
        let plan = install(
            s0.leaves(),
            region.spec_backing(),
            region.first(),
            region.last(),
            m0.free(),
        );
        let added = self.footprint().difference(s0.footprint());
        &&& r == plan.result
        &&& self.leaves() == plan.history(s0.leaves())
        &&& self.root() == s0.root()
        &&& self.tops() == s0.tops()
        &&& self.live(mem)
        &&& self.wf(mem)
        &&& s0.footprint().subset_of(self.footprint())
        &&& self.support() == s0.support().union(added)
        &&& mem.grew(m0, added)
        &&& mem.same_but(m0, s0.spec_table().own())
        &&& elsewhere(mem, m0, s0.root(), region.first(), region.pages())
        &&& r is Ok ==> {
            &&& mem.free() == plan.free
            &&& mem.drew(m0)
            &&& self.regions().len() == s0.regions().len() + 1
            &&& self.regions().drop_last() == s0.regions()
            &&& self.regions().last().same_range(region)
        }
        &&& r is Err ==> self.regions() == s0.regions() && unmoved(mem, m0, s0.root())
    }

    proof fn lemma_push_failed(
        &self,
        mem: Memory,
        s0: AddressSpace,
        m0: Memory,
        m1: Memory,
        t1: PageTable,
        fs: Set<int>,
        g0: Region,
        r: Result<(), MapError>,
    )
        requires
            m0.wf(),
            m1.wf(),
            mem.wf(),
            s0.wf(m0),
            self.table == t1,
            self.regions@ == s0.regions@,
            self.tops == s0.tops,
            self.leaves@ == install(s0.leaves@, g0.spec_backing(), g0.first(), g0.last(), m0.free()).history(
                s0.leaves@,
            ),
            install(s0.leaves@, g0.spec_backing(), g0.first(), g0.last(), m0.free()).result == r,
            r is Err,
            t1.wf(m1),
            t1.private(s0.tops@),
            t1.spec_root() == s0.root(),
            s0.table.own().subset_of(t1.own()),
            t1.tables() == s0.table.tables().union(t1.own().difference(s0.table.own())),
            fs.disjoint(t1.own()),
            fs.disjoint(t1.tables()),
            m1.grew(m0, t1.own().difference(s0.table.own()).union(fs)),
            m1.same_but(m0, s0.table.own()),
            mem.shrank(m1, fs),
            mem.same_but(m1, Set::empty()),
            page_table::shaped(m1, s0.root(), self.leaves@, s0.tops@),
            unmoved(m1, m0, s0.root()),
        ensures
            self.pushed(mem, s0, m0, g0, r),
    {
        let t0 = s0.table;
        let new = t1.own().difference(t0.own());
        s0.lemma_live(m0);
        t1.lemma_wf(m1);
        mem.lemma_grew_shrank(m1, m0, new.union(fs), fs);
        assert(new.union(fs).difference(fs) =~= new);
        assert forall|t: int| #[trigger] t1.tables().contains(t) implies mem.owns(t, 0) && mem.same_frame(m1, t) by {
            assert(!fs.contains(t));
            assert(mem.used(t));
        }
        assert forall|t: int| #[trigger] t1.own().contains(t) implies mem.owns(t, 0) by {
            assert(!fs.contains(t));
        }
        t1.lemma_kept(m1, mem);
        assert forall|i: int| 0 <= i < self.regions().len() implies #[trigger] self.region_ok(mem, i) by {
            self.lemma_region_kept(mem, s0, m0, new, i);
        }
        let f0 = frames_of(s0.regions());
        assert forall|q: int| #[trigger] new.contains(q) implies !f0.contains(q) && !s0.support().contains(q) by {
            if f0.contains(q) {
                assert(s0.footprint().contains(q));
            }
        }
        assert(self.footprint().difference(s0.footprint()) =~= new);
        assert(self.support() =~= s0.support().union(new));
        assert forall|f: int| m0.used(f) && mem.used(f) && !t0.own().contains(f) implies #[trigger] mem.same_frame(
            m0,
            f,
        ) by {
            assert(m1.used(f));
            assert(m1.same_frame(m0, f));
            assert(mem.same_frame(m1, f));
        }
        assert forall|w: int| 0 <= w implies #[trigger] page_table::walk(mem, s0.root(), w) == page_table::walk(
            m0,
            s0.root(),
            w,
        ) by {
            assert(page_table::walk(m1, s0.root(), w) == page_table::walk(m0, s0.root(), w));
        }
        self.lemma_sound_kept(mem, s0, m0);
        assert(elsewhere(mem, m0, s0.root(), g0.first(), g0.pages())) by {
            reveal(elsewhere);
        }
    }

    /// Regions and mappings that stay agree.
    proof fn lemma_sound_kept(&self, mem: Memory, s0: AddressSpace, m0: Memory)
        requires
            s0.sound(m0),
            self.regions() == s0.regions(),
            self.tops() == s0.tops(),
            self.root() == s0.root(),
            unmoved(mem, m0, s0.root()),
        ensures
            self.sound(mem),
    {
        reveal(AddressSpace::sound);
        assert forall|w: int, i: int|
            0 <= w && 0 <= i < self.regions().len() && #[trigger] self.in_region(w, i) implies self.backed(
            mem,
            w,
            i,
        ) by {
            assert(s0.in_region(w, i));
            assert(s0.backed(m0, w, i));
            assert(page_table::walk(mem, self.root(), w) == page_table::walk(m0, self.root(), w));
        }
        assert forall|w: int|
            0 <= w && addr::table_index(w, 0) < self.tops() && (#[trigger] page_table::walk(
                mem,
                self.root(),
                w,
            )) is Some implies exists|i: int| 0 <= i < self.regions().len() && #[trigger] self.in_region(w, i) by {
            assert(page_table::walk(m0, s0.root(), w) is Some);
            let i = choose|i: int| 0 <= i < s0.regions().len() && #[trigger] s0.in_region(w, i);
            assert(self.in_region(w, i));
        }
    }

    proof fn lemma_push_done(&self, mem: Memory, s0: AddressSpace, m0: Memory, g0: Region, g1: Region, r: Result<(), MapError>)
        requires
            m0.wf(),
            mem.wf(),
            s0.wf(m0),
            self.regions@ == s0.regions@.push(g1),
            self.tops == s0.tops,
            self.leaves@ == install(s0.leaves@, g0.spec_backing(), g0.first(), g0.last(), m0.free()).leaves,
            install(s0.leaves@, g0.spec_backing(), g0.first(), g0.last(), m0.free()).result == r,
            install(s0.leaves@, g0.spec_backing(), g0.first(), g0.last(), m0.free()).free == mem.free(),
            mem.drew(m0),
            r is Ok,
            self.table.wf(mem),
            self.table.private(s0.tops@),
            g0.mappable(),
            g0.lower() || s0.tops@ == 512,
            g1.same_range(g0),
            g1.laid(mem, self.table, m0, s0.table),
            page_table::shaped(mem, s0.root(), self.leaves@, s0.tops@),
            g0.placed(mem, m0, s0.root(), g1.frames()),
        ensures
            self.pushed(mem, s0, m0, g0, r),
            self.regions().last() == g1,
            g1.placed(mem, m0, s0.root(), g1.frames()),
    {
        let t0 = s0.table;
        let t1 = self.table;
        let new = t1.own().difference(t0.own());
        let fs = g1.frames().to_set();
        let n = s0.regions().len() as int;
        let added = new.union(fs);
        s0.lemma_live(m0);
        t1.lemma_wf(mem);
        g1.lemma_owned(mem);
        assert(self.regions().drop_last() =~= s0.regions());
        assert forall|i: int| 0 <= i < self.regions().len() implies #[trigger] self.region_ok(mem, i) by {
            if i < n {
                self.lemma_region_kept(mem, s0, m0, added, i);
            }
        }
        let f0 = frames_of(s0.regions());
        assert forall|q: int| #[trigger] added.contains(q) implies !s0.support().contains(q) by {}
        assert(self.footprint() =~= s0.footprint().union(added));
        assert(self.footprint().difference(s0.footprint()) =~= added);
        assert(self.support() =~= s0.support().union(added));
        assert forall|i: int, j: int|
            0 <= i < self.regions().len() && 0 <= j < self.regions().len() && i != j implies (
        #[trigger] self.regions()[i]).frames().to_set().disjoint((#[trigger] self.regions()[j]).frames().to_set()) by {
            if i == n || j == n {
                let k = if i == n {
                    j
                } else {
                    i
                };
                let rk = s0.regions()[k];
                assert(self.regions()[k] == rk);
                assert forall|q: int| rk.frames().to_set().contains(q) implies !fs.contains(q) by {
                    lemma_frames_of(s0.regions(), q);
                    assert(s0.support().contains(q));
                    if fs.contains(q) {
                        assert(added.contains(q));
                    }
                }
            } else {
                assert(self.regions()[i] == s0.regions()[i]);
                assert(self.regions()[j] == s0.regions()[j]);
            }
        }
        self.lemma_sound_more(mem, s0, m0, g0, g1);
        assert(elsewhere(mem, m0, s0.root(), g0.first(), g0.pages())) by {
            reveal(elsewhere);
        }
    }

    /// One region more, and its pages.
    #[verifier::rlimit(60)]
    proof fn lemma_sound_more(&self, mem: Memory, s0: AddressSpace, m0: Memory, g0: Region, g1: Region)
        requires
            s0.sound(m0),
            page_table::shaped(m0, s0.root(), s0.leaves(), s0.tops()),
            self.regions() == s0.regions().push(g1),
            self.tops() == s0.tops(),
            self.root() == s0.root(),
            g1.same_range(g0),
            g0.mappable(),
            g0.lower() || s0.tops() == 512,
            s0.tops() == 256 || s0.tops() == 512,
            install(s0.leaves(), g0.spec_backing(), g0.first(), g0.last(), m0.free()).result is Ok,
            g0.placed(mem, m0, s0.root(), g1.frames()),
        ensures
            self.sound(mem),
    {
        reveal(AddressSpace::sound);
        let n = s0.regions().len() as int;
        let root = s0.root();
        let first = g0.first();
        // No page of the new region was mapped before.
        assert forall|w: int| 0 <= w && offset(w, first) < g0.pages() implies (#[trigger] page_table::walk(
            m0,
            root,
            w,
        )) is None && addr::table_index(w, 0) < self.tops() by {
            let u = first + offset(w, first);
            lemma_offset(w, first);
            lemma_install_free(
                s0.leaves(),
                g0.spec_backing(),
                first,
                g0.last(),
                m0.free(),
                u,
            );
            lemma_offset(w, u);
            lemma_offset_shift(w, first, u);
            assert(page_table::same_slot(w, u, 2));
            page_table::lemma_index(u, 0);
            page_table::lemma_shape_at(m0, root, s0.leaves(), s0.tops(), u, 2);
            page_table::lemma_blocked_page(m0, root, u);
            page_table::lemma_walk_shared(m0, root, w, u);
        }
        assert forall|w: int, i: int|
            0 <= w && 0 <= i < self.regions().len() && #[trigger] self.in_region(w, i) implies self.backed(
            mem,
            w,
            i,
        ) by {
            assert(page_table::walk(mem, root, w) == page_table::walk(mem, root, w));
            if i < n {
                assert(self.regions()[i] == s0.regions()[i]);
                assert(s0.in_region(w, i));
                assert(s0.backed(m0, w, i));
                assert(page_table::walk(m0, root, w) is Some);
                assert(page_table::walk(mem, root, w) == page_table::walk(m0, root, w));
            }
        }
        assert forall|w: int|
            0 <= w && addr::table_index(w, 0) < self.tops() && (#[trigger] page_table::walk(
                mem,
                self.root(),
                w,
            )) is Some implies exists|i: int| 0 <= i < self.regions().len() && #[trigger] self.in_region(w, i) by {
            if offset(w, first) < g0.pages() {
                assert(self.in_region(w, n));
            } else {
                assert(page_table::walk(m0, root, w) is Some);
                let i = choose|i: int| 0 <= i < s0.regions().len() && #[trigger] s0.in_region(w, i);
                assert(self.regions()[i] == s0.regions()[i]);
                assert(self.in_region(w, i));
            }
        }
        assert forall|w: int| 0 <= w && addr::table_index(w, 0) >= self.tops() implies (
        #[trigger] page_table::walk(mem, self.root(), w) matches Some((l, x)) ==> x & 16 != 16) by {
            assert(page_table::walk(m0, root, w) == page_table::walk(m0, root, w));
            assert(!(offset(w, first) < g0.pages()));
        }
        assert forall|i: int|
            0 <= i < self.regions().len() && (#[trigger] self.regions()[i]).spec_backing()
                == Backing::Framed implies self.regions()[i].frames().len() == self.regions()[i].pages() by {
            if i < n {
                assert(self.regions()[i] == s0.regions()[i]);
            }
        }
    }

    /// Map `region` and seed it with `data`, from its base on.
    pub fn push_with_data(&mut self, mem: &mut Memory, region: Region, data: &[u8]) -> (r: Result<(), MapError>)
        requires
            old(mem).wf(),
            old(self).wf(*old(mem)),
            region.mappable(),
            region.spec_backing() == Backing::Framed,
            region.frames() == Seq::<int>::empty(),
            region.lower() || old(self).tops() == 512,
            data@.len() <= region.pages() * PAGE_SIZE,
        ensures
            final(mem).wf(),
            final(self).pushed(*final(mem), *old(self), *old(mem), region, r),
            r is Ok ==> final(self).seeded(*final(mem), 0, data@),
    {
        self.push_with_offset(mem, region, 0, data)
    }

    /// The last region holds `data` from byte `at` on, and zeroes elsewhere.
    pub open spec fn seeded(&self, mem: Memory, at: int, data: Seq<u8>) -> bool {
        let r = self.regions().last();
        forall|k: int|
            0 <= k < r.pages() * PAGE_SIZE ==> #[trigger] r.byte(mem, k) == (if at <= k < at + data.len() {
                data[k - at]
            } else {
                0
            })
    }

    /// Map `region` and seed it with `data`, `at` bytes from its base.
    pub fn push_with_offset(&mut self, mem: &mut Memory, region: Region, at: u64, data: &[u8]) -> (r: Result<
        (),
        MapError,
    >)
        requires
            old(mem).wf(),
            old(self).wf(*old(mem)),
            region.mappable(),
            region.spec_backing() == Backing::Framed,
            region.frames() == Seq::<int>::empty(),
            region.lower() || old(self).tops() == 512,
            at + data@.len() <= region.pages() * PAGE_SIZE,
        ensures
            final(mem).wf(),
            final(self).pushed(*final(mem), *old(self), *old(mem), region, r),
            r is Ok ==> final(self).seeded(*final(mem), at as int, data@),
    {
        let ghost s0 = *self;
        let ghost m0 = *mem;
        let r = self.push(mem, region);
        if r.is_ok() {
            let n: usize = self.regions.len() - 1;
            let ghost m1 = *mem;
            let ghost g = self.regions@[n as int];
            proof {
                assert(self.regions().last() == g);
                assert(self.region_ok(m1, n as int));
                assert(region.pages() * PAGE_SIZE <= u64::MAX);
            }
            self.regions[n].write_data(mem, at, data);
            proof {
                let fs = g.frames().to_set();
                let t = self.table;
                assert forall|p: int| #[trigger] self.support().contains(p) implies mem.owns(p, 0) by {
                    self.lemma_live(m1);
                }
                assert forall|p: int| #[trigger] t.tables().contains(p) implies mem.same_frame(m1, p) by {
                    self.lemma_live(m1);
                    assert(self.support().contains(p));
                    assert(!fs.contains(p));
                }
                self.lemma_undisturbed(m1, *mem);
                assert(elsewhere(*mem, m0, s0.root(), region.first(), region.pages())) by {
                    reveal(elsewhere);
                    assert forall|w: int| 0 <= w && offset(w, region.first()) >= region.pages() implies
                        #[trigger] page_table::walk(*mem, s0.root(), w) == page_table::walk(m0, s0.root(), w) by {
                        assert(page_table::walk(m1, s0.root(), w) == page_table::walk(m0, s0.root(), w));
                    }
                }
                mem.lemma_drew_none(m1);
                mem.lemma_drew_twice(m1, m0);
                assert forall|f: int| m0.used(f) && mem.used(f) && !s0.spec_table().own().contains(f) implies
                    #[trigger] mem.same_frame(m0, f) by {
                    assert(m1.same_frame(m0, f));
                    assert(!fs.contains(f)) by {
                        if fs.contains(f) {
                            lemma_frames_of(self.regions(), f);
                            assert(self.footprint().contains(f));
                            s0.lemma_live(m0);
                            if s0.footprint().contains(f) {
                                lemma_frames_of(s0.regions(), f);
                                self.lemma_last_apart(m1, s0, m0, f);
                            } else {
                                assert(self.footprint().difference(s0.footprint()).contains(f));
                            }
                        }
                    }
                    assert(mem.same_frame(m1, f));
                }
                assert forall|k: int| 0 <= k < g.pages() * PAGE_SIZE implies #[trigger] g.byte(*mem, k) == (
                if at <= k < at + data@.len() {
                    data@[k - at]
                } else {
                    0
                }) by {
                    let h = k / 4096;
                    assert(m1.zeroed(g.frames()[h]));
                    assert(m1.word(g.frames()[h], (k % 4096) / 8) == 0);
                    crate::bits::lemma_byte_update(0, 0, ((k % 4096) % 8) as u64, 0);
                    assert(g.byte(m1, k) == 0);
                }
            }
        }
        r
    }

    /// The last region's frames are none that the space had before.
    proof fn lemma_last_apart(&self, mem: Memory, s0: AddressSpace, m0: Memory, f: int)
        requires
            m0.wf(),
            s0.live(m0),
            self.live(mem),
            s0.spec_table().own().subset_of(self.spec_table().own()) || !s0.spec_table().own().contains(f),
            self.regions().len() == s0.regions().len() + 1,
            self.regions().drop_last() == s0.regions(),
            self.regions().last().frames().to_set().contains(f),
        ensures
            !s0.footprint().contains(f),
    {
        let n = s0.regions().len() as int;
        assert(self.region_ok(mem, n));
        if frames_of(s0.regions()).contains(f) {
            lemma_frames_of(s0.regions(), f);
            let i = choose|i: int|
                0 <= i < s0.regions().len() && (#[trigger] s0.regions()[i]).frames().to_set().contains(f);
            assert(s0.regions()[i] == self.regions()[i]);
            assert(self.regions()[i].frames().to_set().disjoint(self.regions()[n].frames().to_set()));
        }
    }

    /// Nothing the space maps can be reached from user mode.
    pub open spec fn supervisor(&self, mem: Memory) -> bool {
        forall|w: int|
            0 <= w ==> (#[trigger] page_table::walk(mem, self.root(), w) matches Some((l, x)) ==> x & 16 != 16)
    }

    /// Every region is in the user half and has frames of its own.
    pub open spec fn is_user(&self) -> bool {
        forall|i: int|
            0 <= i < self.regions().len() ==> (#[trigger] self.regions()[i]).lower()
                && self.regions()[i].spec_backing() == Backing::Framed
    }

    /// The upper half of this space is that of `kernel`: every page there is mapped as
    /// it is there, so that a trap out of this space finds the kernel.
    #[verifier::opaque]
    pub open spec fn shares(&self, mem: Memory, kernel: AddressSpace) -> bool {
        forall|v: int|
            0 <= v && addr::table_index(v, 0) >= 256 ==> #[trigger] page_table::walk(mem, self.root(), v)
                == page_table::walk(mem, kernel.root(), v)
    }

    /// The upper half stays the kernel's while neither space is remapped.
    pub proof fn lemma_still_shares(&self, s0: AddressSpace, m0: Memory, mem: Memory, kernel: AddressSpace)
        requires
            s0.shares(m0, kernel),
            self.root() == s0.root(),
            unmoved(mem, m0, s0.root()),
            unmoved(mem, m0, kernel.root()),
        ensures
            self.shares(mem, kernel),
    {
        reveal(AddressSpace::shares);
        assert forall|v: int| 0 <= v && addr::table_index(v, 0) >= 256 implies #[trigger] page_table::walk(
            mem,
            self.root(),
            v,
        ) == page_table::walk(mem, kernel.root(), v) by {
            assert(page_table::walk(m0, s0.root(), v) == page_table::walk(m0, kernel.root(), v));
            assert(page_table::walk(mem, kernel.root(), v) == page_table::walk(m0, kernel.root(), v));
        }
    }

    /// The upper half stays the kernel's when a region is pushed into the lower one.
    pub proof fn lemma_push_shares(
        &self,
        mem: Memory,
        s0: AddressSpace,
        m0: Memory,
        kernel: AddressSpace,
        region: Region,
        r: Result<(), MapError>,
    )
        requires
            s0.shares(m0, kernel),
            self.pushed(mem, s0, m0, region, r),
            region.lower(),
            region.wf(),
            unmoved(mem, m0, kernel.root()),
        ensures
            self.shares(mem, kernel),
    {
        reveal(AddressSpace::shares);
        reveal(elsewhere);
        let first = region.first();
        assert forall|v: int| 0 <= v && addr::table_index(v, 0) >= 256 implies #[trigger] page_table::walk(
            mem,
            self.root(),
            v,
        ) == page_table::walk(mem, kernel.root(), v) by {
            if offset(v, first) < region.pages() {
                let u = first + offset(v, first);
                lemma_offset(v, first);
                lemma_offset(v, u);
                lemma_offset_shift(v, first, u);
                assert(page_table::same_slot(v, u, 2));
                assert(addr::table_index(u, 0) < 256);
            }
            assert(page_table::walk(m0, s0.root(), v) == page_table::walk(m0, kernel.root(), v));
            assert(page_table::walk(mem, kernel.root(), v) == page_table::walk(m0, kernel.root(), v));
        }
    }

    /// Map the kernel into the upper half of this space, as every space that runs
    /// user code needs it.
    pub fn map_kernel_half(&mut self, mem: &mut Memory, kernel: &AddressSpace)
        requires
            old(mem).wf(),
            old(self).wf(*old(mem)),
            old(self).is_user(),
            kernel.wf(*old(mem)),
            kernel.supervisor(*old(mem)),
            old(self).footprint().disjoint(kernel.support()),
        ensures
            final(mem).wf(),
            final(self).wf(*final(mem)),
            final(self).tops() == 256,
            final(self).root() == old(self).root(),
            final(self).regions() == old(self).regions(),
            final(self).leaves() == old(self).leaves(),
            final(self).footprint() == old(self).footprint(),
            final(self).spec_table().own() == old(self).spec_table().own(),
            final(self).support().subset_of(old(self).footprint().union(kernel.support())),
            final(self).shares(*final(mem), *kernel),
            forall|v: int|
                0 <= v && addr::table_index(v, 0) < 256 ==> #[trigger] page_table::walk(
                    *final(mem),
                    old(self).root(),
                    v,
                ) == page_table::walk(*old(mem), old(self).root(), v),
            kernel.wf(*final(mem)),
            kernel.supervisor(*final(mem)),
            final(mem).allocator() == old(mem).allocator(),
            final(mem).same_but(*old(mem), Set::empty().insert(old(self).root())),
    {
        let ghost s0 = *self;
        let ghost m0 = *mem;
        let ghost root = self.root();
        proof {
            s0.lemma_live(m0);
            kernel.lemma_live(m0);
            s0.table.lemma_wf(m0);
            page_table::lemma_shape_fewer(m0, root, s0.leaves@, s0.tops@);
            assert forall|p: int| s0.table.own().contains(p) implies !kernel.table.tables().contains(p) by {
                assert(s0.footprint().contains(p));
                if kernel.table.tables().contains(p) {
                    assert(kernel.support().contains(p));
                }
            }
        }
        self.table.share_upper_half(mem, &kernel.table);
        self.tops = Ghost(256);
        proof {
            assert forall|i: int| 0 <= i < self.regions().len() implies #[trigger] self.region_ok(*mem, i) by {
                assert(s0.region_ok(m0, i));
                let r = s0.regions()[i];
                r.lemma_still_owned_same(m0, *mem);
                assert forall|q: int| r.frames().to_set().contains(q) implies !self.table.tables().contains(q) by {
                    lemma_frames_of(s0.regions(), q);
                    assert(s0.footprint().contains(q));
                }
            }
            assert(self.sound(*mem)) by {
                assert forall|i: int| 0 <= i < s0.regions().len() implies (#[trigger] s0.regions()[i]).wf() by {
                    assert(s0.region_ok(m0, i));
                }
                s0.lemma_sound_shared(*self, m0, *mem, *kernel);
            }
            assert forall|p: int| #[trigger] kernel.support().contains(p) implies mem.owns(p, 0) by {}
            assert forall|p: int| #[trigger] kernel.spec_table().tables().contains(p) implies mem.same_frame(
                m0,
                p,
            ) by {
                assert(kernel.support().contains(p));
                assert(p != root) by {
                    assert(s0.footprint().contains(root));
                }
            }
            kernel.lemma_undisturbed(m0, *mem);
            assert forall|w: int| 0 <= w implies (#[trigger] page_table::walk(
                *mem,
                kernel.root(),
                w,
            ) matches Some((l, x)) ==> x & 16 != 16) by {
                assert(page_table::walk(m0, kernel.root(), w) == page_table::walk(*mem, kernel.root(), w));
            }
            assert(self.shares(*mem, *kernel)) by {
                reveal(AddressSpace::shares);
                assert forall|v: int| 0 <= v && addr::table_index(v, 0) >= 256 implies #[trigger] page_table::walk(
                    *mem,
                    root,
                    v,
                ) == page_table::walk(*mem, kernel.root(), v) by {
                    assert(page_table::walk(*mem, kernel.root(), v) == page_table::walk(m0, kernel.root(), v));
                }
            }
        }
    }

    /// Taking over the kernel's half keeps regions and mappings in agreement.
    proof fn lemma_sound_shared(&self, after: AddressSpace, m0: Memory, mem: Memory, kernel: AddressSpace)
        requires
            self.sound(m0),
            self.is_user(),
            kernel.supervisor(m0),
            after.regions() == self.regions(),
            after.root() == self.root(),
            after.tops() == 256,
            self.tops() == 256 || self.tops() == 512,
            forall|i: int| 0 <= i < self.regions().len() ==> (#[trigger] self.regions()[i]).wf(),
            forall|v: int|
                0 <= v ==> #[trigger] page_table::walk(mem, self.root(), v) == (if addr::table_index(v, 0) < 256 {
                    page_table::walk(m0, self.root(), v)
                } else {
                    page_table::walk(m0, kernel.root(), v)
                }),
        ensures
            after.sound(mem),
    {
        reveal(AddressSpace::sound);
        assert forall|w: int, i: int|
            0 <= w && 0 <= i < after.regions().len() && #[trigger] after.in_region(w, i) implies after.backed(
            mem,
            w,
            i,
        ) by {
            let r = self.regions()[i];
            assert(self.in_region(w, i));
            assert(self.backed(m0, w, i));
            let u = r.first() + offset(w, r.first());
            lemma_offset(w, r.first());
            lemma_offset(w, u);
            lemma_offset_shift(w, r.first(), u);
            assert(page_table::same_slot(w, u, 2));
            assert(addr::table_index(w, 0) < 256);
            assert(page_table::walk(mem, self.root(), w) == page_table::walk(m0, self.root(), w));
        }
        assert forall|w: int|
            0 <= w && addr::table_index(w, 0) < after.tops() && (#[trigger] page_table::walk(
                mem,
                after.root(),
                w,
            )) is Some implies exists|i: int|
            0 <= i < after.regions().len() && #[trigger] after.in_region(w, i) by {
            assert(page_table::walk(m0, self.root(), w) is Some);
            let i = choose|i: int| 0 <= i < self.regions().len() && #[trigger] self.in_region(w, i);
            assert(after.in_region(w, i));
        }
        assert forall|w: int| 0 <= w && addr::table_index(w, 0) >= after.tops() implies (
        #[trigger] page_table::walk(mem, after.root(), w) matches Some((l, x)) ==> x & 16 != 16) by {
            assert(page_table::walk(m0, kernel.root(), w) == page_table::walk(mem, self.root(), w));
        }
    }

    /// What a space depends on stays, in a memory that only has more handed out.
    pub proof fn lemma_outlives(&self, m0: Memory, mem: Memory, added: Set<int>)
        requires
            m0.wf(),
            self.live(m0),
            mem.grew(m0, added),
            mem.same_but(m0, Set::empty()),
        ensures
            self.live(mem),
            self.wf(m0) ==> self.wf(mem),
            self.supervisor(m0) ==> self.supervisor(mem),
            unmoved(mem, m0, self.root()),
    {
        self.lemma_live(m0);
        assert forall|p: int| #[trigger] self.support().contains(p) implies mem.owns(p, 0) by {}
        assert forall|p: int| #[trigger] self.spec_table().tables().contains(p) implies mem.same_frame(m0, p) by {
            assert(self.support().contains(p));
        }
        self.lemma_undisturbed(m0, mem);
        if self.supervisor(m0) {
            assert forall|w: int| 0 <= w implies (#[trigger] page_table::walk(
                mem,
                self.root(),
                w,
            ) matches Some((l, x)) ==> x & 16 != 16) by {
                assert(page_table::walk(m0, self.root(), w) == page_table::walk(mem, self.root(), w));
            }
        }
    }

    /// A user space that was built since `before`, out of frames that were free
    /// then: all that is in use now and was not then is its own, and all else is
    /// as it was. Its upper half is that of `kernel`, and beyond its own frames it rests
    /// on those of `kernel` alone.
    pub open spec fn built(&self, mem: Memory, before: Memory, kernel: AddressSpace) -> bool {
        &&& self.live(mem)
        &&& self.is_user()
        &&& self.tops() == 256
        &&& mem.grew(before, self.footprint())
        &&& mem.same_but(before, Set::empty())
        &&& self.support().subset_of(self.footprint().union(kernel.support()))
        &&& self.shares(mem, kernel)
    }

    /// One more region was pushed, or could not be.
    pub proof fn lemma_built_push(
        &self,
        mem: Memory,
        s0: AddressSpace,
        m0: Memory,
        before: Memory,
        kernel: AddressSpace,
        region: Region,
        r: Result<(), MapError>,
    )
        requires
            before.wf(),
            m0.wf(),
            kernel.live(before),
            s0.built(m0, before, kernel),
            self.pushed(mem, s0, m0, region, r),
            region.wf(),
            region.lower(),
            region.spec_backing() == Backing::Framed,
        ensures
            self.built(mem, before, kernel),
    {
        let added = self.footprint().difference(s0.footprint());
        mem.lemma_grew_twice(m0, before, s0.footprint(), added);
        assert(s0.footprint().union(added) =~= self.footprint());
        assert forall|f: int| before.used(f) && mem.used(f) implies #[trigger] mem.same_frame(before, f) by {
            assert(m0.used(f));
            assert(m0.same_frame(before, f));
            assert(!s0.footprint().contains(f));
            assert(mem.same_frame(m0, f));
        }
        assert forall|k: int| 0 <= k < self.regions().len() implies (#[trigger] self.regions()[k]).lower()
            && self.regions()[k].spec_backing() == Backing::Framed by {
            if r is Ok {
                if k < s0.regions().len() {
                    assert(self.regions()[k] == self.regions().drop_last()[k]);
                    assert(s0.regions()[k].lower());
                } else {
                    assert(self.regions()[k] == self.regions().last());
                }
            } else {
                assert(s0.regions()[k].lower());
            }
        }
        kernel.lemma_outlives(before, m0, s0.footprint());
        kernel.lemma_outlives(before, mem, self.footprint());
        assert(unmoved(mem, m0, kernel.root())) by {
            assert forall|w: int| 0 <= w implies #[trigger] page_table::walk(mem, kernel.root(), w)
                == page_table::walk(m0, kernel.root(), w) by {
                assert(page_table::walk(m0, kernel.root(), w) == page_table::walk(before, kernel.root(), w));
            }
        }
        self.lemma_push_shares(mem, s0, m0, kernel, region, r);
    }

    /// Once such a space is released, memory is as it was before.
    pub proof fn lemma_built_released(&self, mem: Memory, m0: Memory, before: Memory, kernel: AddressSpace)
        requires
            before.wf(),
            m0.wf(),
            self.built(m0, before, kernel),
            mem.shrank(m0, self.footprint()),
            mem.same_but(m0, Set::empty()),
        ensures
            mem.grew(before, Set::empty()),
            mem.same_but(before, Set::empty()),
    {
        let all = self.footprint();
        mem.lemma_grew_shrank(m0, before, all, all);
        assert(all.difference(all) =~= Set::empty());
        assert forall|f: int| before.used(f) && mem.used(f) implies #[trigger] mem.same_frame(before, f) by {
            assert(m0.used(f));
            assert(m0.same_frame(before, f));
            assert(mem.same_frame(m0, f));
        }
    }

    /// An empty user space: the lower half is free and the upper half is that of
    /// the kernel. `None` if there is no frame for the table.
    pub fn with_kernel_half(mem: &mut Memory, kernel: &AddressSpace) -> (r: Option<AddressSpace>)
        requires
            old(mem).wf(),
            kernel.wf(*old(mem)),
            kernel.supervisor(*old(mem)),
        ensures
            final(mem).wf(),
            kernel.wf(*final(mem)),
            kernel.supervisor(*final(mem)),
            r is Some <==> old(mem).free() > 0,
            r is None ==> *final(mem) == *old(mem),
            r matches Some(s) ==> {
                &&& s.wf(*final(mem))
                &&& s.built(*final(mem), *old(mem), *kernel)
                &&& s.regions() == Seq::<Region>::empty()
                &&& s.leaves() == Seq::<Mark>::empty()
                &&& final(mem).free() == old(mem).free() - 1
                &&& final(mem).drew(*old(mem))
            },
    {
        let ghost m0 = *mem;
        proof {
            kernel.lemma_live(m0);
        }
        let mut s: AddressSpace = match AddressSpace::new(mem) {
            Some(s) => s,
            None => {
                return None;
            },
        };
        let ghost m1 = *mem;
        let ghost s1 = s;
        proof {
            kernel.lemma_outlives(m0, m1, s.footprint());
            assert forall|p: int| s.footprint().contains(p) implies !kernel.support().contains(p) by {}
        }
        s.map_kernel_half(mem, kernel);
        proof {
            s.lemma_live(*mem);
            mem.lemma_drew_none(m1);
            mem.lemma_drew_twice(m1, m0);
            s1.spec_table().lemma_wf(m1);
            assert(s1.footprint().contains(s1.root()));
            assert forall|f: int| m0.used(f) && mem.used(f) implies #[trigger] mem.same_frame(m0, f) by {
                assert(m1.same_frame(m0, f));
                assert(f != s1.root());
                assert(mem.same_frame(m1, f));
            }
        }
        Some(s)
    }

    /// Return every frame of the space to the allocator.
    #[verifier::rlimit(40)]
    pub fn release(self, mem: &mut Memory)
        requires
            old(mem).wf(),
            self.live(*old(mem)),
        ensures
            final(mem).wf(),
            final(mem).shrank(*old(mem), self.footprint()),
            final(mem).same_but(*old(mem), Set::empty()),
    {
        let ghost s0 = self;
        let ghost m0 = *mem;
        let ghost own = self.table.own();
        let ghost tops = self.tops@;
        let ghost all = self.regions@;
        let mut table = self.table;
        let mut regions = self.regions;
        let ghost mut done: Set<int> = Set::empty();
        proof {
            m0.lemma_grew_none(m0);
            s0.lemma_live(m0);
        }
        // Unmap explicitly so owned frames go back to the allocator before the
        // page table's own frames do.
        while regions.len() > 0
            invariant
                mem.wf(),
                m0.wf(),
                s0.live(m0),
                own == s0.table.own(),
                all == s0.regions@,
                tops == s0.tops@,
                table == s0.table,
                table.wf(*mem),
                regions@.len() <= all.len(),
                regions@ == all.take(regions@.len() as int),
                done.union(frames_of(regions@)) == frames_of(all),
                done.disjoint(frames_of(regions@)),
                mem.shrank(m0, done),
                mem.same_but(m0, own),
            decreases regions@.len(),
        {
            let ghost n = regions@.len() - 1;
            let ghost m1 = *mem;
            let ghost d1 = done;
            let ghost r1 = regions@;
            match regions.pop() {
                None => {},
                Some(region) => {
                    let mut region = region;
                    let ghost g = region;
                    let ghost fs = g.frames().to_set();
                    proof {
                        assert(g == s0.regions()[n]);
                        assert(s0.region_ok(m0, n));
                        assert(regions@ =~= r1.drop_last());
                        assert forall|p: int| #[trigger] fs.contains(p) implies m1.owns(p, 0) && !d1.contains(
                            p,
                        ) by {
                            g.lemma_owned(m0);
                            assert(frames_of(r1).contains(p));
                        }
                        g.lemma_still_owned(m0, m1);
                    }
                    region.unmap_from(&mut table, mem);
                    proof {
                        mem.lemma_shrank_twice(m1, m0, d1, fs);
                        done = d1.union(fs);
                        s0.lemma_regions_apart(m0, n);
                        assert(frames_of(r1) == frames_of(regions@).union(fs));
                        assert(done.union(frames_of(regions@)) =~= frames_of(all));
                        assert(regions@ =~= all.take(n));
                        assert(done.disjoint(frames_of(regions@)));
                        assert forall|f: int| m0.used(f) && mem.used(f) && !own.contains(f) implies
                            #[trigger] mem.same_frame(m0, f) by {
                            assert(m1.used(f));
                            assert(m1.same_frame(m0, f));
                            assert(mem.same_frame(m1, f));
                        }
                    }
                },
            }
        }
        let ghost m2 = *mem;
        proof {
            assert(frames_of(regions@) =~= Set::<int>::empty());
            assert(done =~= frames_of(all));
        }
        table.release(mem);
        proof {
            mem.lemma_shrank_twice(m2, m0, done, own);
            assert(done.union(own) =~= s0.footprint());
            assert forall|f: int| m0.used(f) && mem.used(f) implies #[trigger] mem.same_frame(m0, f) by {
                assert(m2.used(f));
                assert(!own.contains(f));
                assert(m2.same_frame(m0, f));
                assert(mem.same_frame(m2, f));
            }
        }
    }

    /// A region's frames are none of the regions before it.
    proof fn lemma_regions_apart(&self, mem: Memory, n: int)
        requires
            self.live(mem),
            0 <= n < self.regions().len(),
        ensures
            frames_of(self.regions().take(n)).disjoint(self.regions()[n].frames().to_set()),
    {
        let t = self.regions().take(n);
        let fs = self.regions()[n].frames().to_set();
        assert forall|p: int| frames_of(t).contains(p) implies !fs.contains(p) by {
            lemma_frames_of(t, p);
            let i = choose|i: int| 0 <= i < t.len() && (#[trigger] t[i]).frames().to_set().contains(p);
            assert(t[i] == self.regions()[i]);
            assert(self.regions()[i].frames().to_set().disjoint(self.regions()[n].frames().to_set()));
        }
    }

    /// The `satp` value that activates this space: Sv39, and where the root table is.
    pub open spec fn spec_token(&self) -> int {
        0x8000_0000_0000_0000 + self.root()
    }

    /// The `satp` value that activates this space.
    pub fn token(&self, mem: &Memory) -> (r: u64)
        requires
            mem.wf(),
            self.live(*mem),
        ensures
            r == self.spec_token(),
    {
        self.table.token(mem)
    }

    /// The underlying page table.
    pub fn table(&self) -> (r: &PageTable)
        ensures
            *r == self.spec_table(),
    {
        &self.table
    }

    /// The underlying page table, mutably.
    pub fn table_mut(&mut self) -> (r: &mut PageTable)
        ensures
            *r == old(self).spec_table(),
            final(self).spec_table() == *final(r),
            final(self).regions() == old(self).regions(),
            final(self).leaves() == old(self).leaves(),
            final(self).tops() == old(self).tops(),
    {
        &mut self.table
    }

    /// The region containing `addr`, if any: the first one.
    pub fn find_region(&self, addr: VirtAddr) -> (r: Option<&Region>)
        ensures
            match r {
                Some(g) => exists|i: int|
                    0 <= i < self.regions().len() && *g == #[trigger] self.regions()[i] && g.spec_start()
                        <= addr.0 < g.spec_end() && forall|j: int|
                        0 <= j < i ==> !((#[trigger] self.regions()[j]).spec_start() <= addr.0
                            < self.regions()[j].spec_end()),
                None => forall|j: int|
                    0 <= j < self.regions().len() ==> !((#[trigger] self.regions()[j]).spec_start() <= addr.0
                        < self.regions()[j].spec_end()),
            },
    {
        let mut i: usize = 0;
        while i < self.regions.len()
            invariant
                i <= self.regions@.len(),
                forall|j: int|
                    0 <= j < i ==> !((#[trigger] self.regions@[j]).spec_start() <= addr.0
                        < self.regions@[j].spec_end()),
            decreases self.regions@.len() - i,
        {
            if self.regions[i].contains(addr) {
                assert(self.regions()[i as int] == self.regions@[i as int]);
                return Some(&self.regions[i]);
            }
            i = i + 1;
        }
        None
    }

    /// Resolve `addr` through this space's page table.
    pub fn translate(&self, mem: &Memory, addr: VirtAddr) -> (r: Option<PhysAddr>)
        requires
            mem.wf(),
            self.live(*mem),
        ensures
            match page_table::translation(*mem, self.root(), addr.0 as int / 4096) {
                Some(w) => r matches Some(pa) && pa.0 == page_table::entry_ppn(w) * 4096 + addr.0 % 4096,
                None => r is None,
            },
    {
        self.table.translate_addr(mem, addr)
    }

    /// Number of regions.
    pub fn region_count(&self) -> (r: usize)
        ensures
            r == self.regions().len(),
    {
        self.regions.len()
    }

    /// Region `i`.
    pub fn region(&self, i: usize) -> (r: &Region)
        requires
            i < self.regions().len(),
        ensures
            *r == self.regions()[i as int],
    {
        &self.regions[i]
    }
}

/// A page that is removed with its region can be mapped again: it is not mapped, and
/// the slot of the leaf that mapped it, whatever its level, is free.
pub proof fn law_removed_pages_can_be_mapped_again(
    mem: Memory,
    before: Memory,
    root: int,
    first: int,
    last: int,
    v: int,
)
    requires
        removed(mem, before, root, first, last),
        0 <= first <= v < last,
        page_table::walk(before, root, v) is Some,
    ensures
        page_table::walk(mem, root, v) is None,
        ({
            let l = (page_table::walk(before, root, v)->0).0;
            page_table::map_result(mem, root, v, l) == (if page_table::missing(mem, root, v, l) > mem.free() {
                Err::<(), MapError>(MapError::OutOfMemory)
            } else {
                Ok(())
            })
        }),
{
    let l = (page_table::walk(before, root, v)->0).0;
    page_table::lemma_walk_level(before, root, v);
    assert(page_below(before, root, v, v, 2));
    assert(page_below(before, root, v, v, l));
    assert(cut(before, root, first, last, v, 2) && cut(before, root, first, last, v, l));
}

/// A push that fails costs nothing but interior tables: every page is mapped as before
/// and every address is in the region it was in.
pub proof fn law_failed_push_moves_nothing(
    s: AddressSpace,
    mem: Memory,
    s0: AddressSpace,
    m0: Memory,
    region: Region,
    e: MapError,
    w: int,
)
    requires
        s.pushed(mem, s0, m0, region, Err(e)),
        0 <= w,
    ensures
        s.wf(mem),
        s.regions() == s0.regions(),
        page_table::walk(mem, s.root(), w) == page_table::walk(m0, s0.root(), w),
        frames_of(s.regions()) == frames_of(s0.regions()),
{
}

/// A page that one resolves to: for an entry of the last table its frame, and for one of an
/// earlier table the frame as far into it as the page is.
pub proof fn law_large_pages_are_linear(mem: Memory, root: int, v: int)
    requires
        0 <= v,
    ensures
        match page_table::walk(mem, root, v) {
            None => resolve(mem, root, v) is None,
            Some((l, w)) => resolve(mem, root, v) == Some(
                (
                    (w as int / 1024) % 0x1000_0000_0000 + (if l == 0 {
                        v % 0x4_0000
                    } else if l == 1 {
                        v % 512
                    } else {
                        0
                    }),
                    (w % 1024) as u64,
                ),
            ),
        },
{
    page_table::law_walk_follows_the_tables(mem, root, v);
}

/// Pages of memory can be mapped where nothing is, as long as there are three frames for
/// each: one for the page, and two for tables at most.
#[verifier::spinoff_prover]
pub proof fn law_enough_memory_maps(leaves: Seq<Mark>, v: int, end: int, free: int)
    requires
        0 <= v,
        end <= 0x800_0000,
        end > v ==> free >= 3 * (end - v),
        forall|w: int| v <= w < end ==> !page_table::occupies(leaves, w, 2),
    ensures
        install(leaves, Backing::Framed, v, end, free).result is Ok,
        v <= end ==> free - 3 * (end - v) <= install(leaves, Backing::Framed, v, end, free).free <= free - (end - v),
    decreases end - v,
{
    if v < end {
        page_table::lemma_lacking(leaves, v, 2);
        let need = page_table::lacking(leaves, v, 2);
        let more = leaves.push(page_table::leaf_at(v, 2));
        assert(!page_table::occupies(leaves, v, 2));
        assert forall|w: int| v + 1 <= w < end implies !page_table::occupies(more, w, 2) by {
            assert(!page_table::occupies(leaves, w, 2));
            if page_table::occupies(more, w, 2) {
                lemma_one_more_page(leaves, v, w);
            }
        }
        law_enough_memory_maps(more, v + 1, end, free - 1 - need);
    }
}

/// A page of memory takes a frame: what does not have one for each cannot be mapped.
#[verifier::spinoff_prover]
pub proof fn law_every_page_takes_a_frame(leaves: Seq<Mark>, v: int, end: int, free: int)
    requires
        0 <= v <= end,
        0 <= free < end - v,
    ensures
        install(leaves, Backing::Framed, v, end, free).result is Err,
    decreases end - v,
{
    if v < end {
        page_table::lemma_lacking(leaves, v, 2);
        let need = page_table::lacking(leaves, v, 2);
        if free - 1 - need >= 0 {
            law_every_page_takes_a_frame(leaves.push(page_table::leaf_at(v, 2)), v + 1, end, free - 1 - need);
        }
    }
}

/// What a run of pages takes is what it covers.
#[verifier::spinoff_prover]
pub proof fn lemma_run_occupies(leaves: Seq<Mark>, v: int, end: int, free: int, w: int)
    requires
        0 <= v,
        end <= 0x800_0000,
        0 <= w < 0x800_0000,
        install(leaves, Backing::Framed, v, end, free).result is Ok,
        page_table::occupies(install(leaves, Backing::Framed, v, end, free).leaves, w, 2),
    ensures
        page_table::occupies(leaves, w, 2) || v <= w < end,
    decreases end - v,
{
    if v < end {
        let need = page_table::lacking(leaves, v, 2);
        let more = leaves.push(page_table::leaf_at(v, 2));
        lemma_run_occupies(more, v + 1, end, free - 1 - need, w);
        if page_table::occupies(more, w, 2) {
            lemma_one_more_page(leaves, v, w);
        }
    }
}

/// A page that is taken with `v` was taken before, or is `v`.
#[verifier::spinoff_prover]
proof fn lemma_one_more_page(leaves: Seq<Mark>, v: int, w: int)
    requires
        0 <= v < 0x800_0000,
        0 <= w < 0x800_0000,
        page_table::occupies(leaves.push(page_table::leaf_at(v, 2)), w, 2),
    ensures
        page_table::occupies(leaves, w, 2) || w == v,
{
    let more = leaves.push(page_table::leaf_at(v, 2));
    let k = choose|k: int| 0 <= k < more.len() && page_table::takes(#[trigger] more[k], w, 2);
    if k < leaves.len() {
        assert(more[k] == leaves[k]);
        assert(page_table::takes(leaves[k], w, 2));
    } else {
        addr::law_indices_are_digits(v);
        addr::law_indices_are_digits(w);
    }
}

} // verus!
