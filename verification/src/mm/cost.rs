//! What the kernel's address space costs in page tables.

use vstd::prelude::*;
use crate::config::{
    CLINT_BASE, DRAM_BASE, DRAM_SIZE, PAGE_SIZE, PLIC_BASE, TEST_DEVICE_BASE, UART_BASE, VIRTIO_MMIO_BASE,
    VIRTIO_MMIO_SLOTS, VIRTIO_MMIO_STRIDE, VIRT_OFFSET,
};
use crate::mm::addr;
use crate::mm::kernel::{self, KernelLayout, Window};
use crate::mm::page_table::{self, Mark};
use crate::mm::space::{self, Backing, Plan, OFFSET_PAGES};

verus! {

/// The image is in the 2 MiB where it is loaded on the board, its sections in order
/// and page aligned, and there is some text.
pub open spec fn on_board(l: KernelLayout) -> bool {
    &&& VIRT_OFFSET + 0x8020_0000 <= l.text_start < l.text_end <= l.rodata_start <= l.rodata_end <= l.data_start
        <= l.data_end <= l.bss_start <= l.bss_end <= l.kernel_end < VIRT_OFFSET + 0x8040_0000
    &&& l.text_start % PAGE_SIZE == 0 && l.text_end % PAGE_SIZE == 0
    &&& l.rodata_start % PAGE_SIZE == 0 && l.rodata_end % PAGE_SIZE == 0
    &&& l.data_start % PAGE_SIZE == 0 && l.data_end % PAGE_SIZE == 0
    &&& l.bss_start % PAGE_SIZE == 0 && l.bss_end % PAGE_SIZE == 0
    &&& l.kernel_end % PAGE_SIZE == 0
}

/// `m` is a leaf in the direct map of the lowest 4 GiB, and maps none of the pages `lo`
/// up to `hi`.
spec fn clear_of(m: Mark, lo: int, hi: int) -> bool {
    &&& m.leaf
    &&& 1 <= m.level <= 2
    &&& m.level == 1 ==> m.page % 512 == 0
    &&& OFFSET_PAGES <= m.page
    &&& m.page + page_table::level_pages(m.level) <= OFFSET_PAGES + 0x10_0000
    &&& m.page + page_table::level_pages(m.level) <= lo || hi <= m.page
}

/// No leaf maps any of the pages `lo` up to `hi`.
spec fn apart(leaves: Seq<Mark>, lo: int, hi: int) -> bool {
    &&& OFFSET_PAGES <= lo <= hi <= OFFSET_PAGES + 0x10_0000
    &&& forall|k: int| 0 <= k < leaves.len() ==> clear_of(#[trigger] leaves[k], lo, hi)
}

/// Leaves for the pages `v` up to `b`, one by one.
spec fn small(v: int, b: int) -> Seq<Mark> {
    Seq::new((b - v) as nat, |i: int| page_table::leaf_at(v + i, 2))
}

/// 2 MiB leaves for the pages `v` up to `b`.
spec fn large(v: int, b: int) -> Seq<Mark> {
    Seq::new(((b - v) / 512) as nat, |i: int| page_table::leaf_at(v + 512 * i, 1))
}

/// Table indices in the direct map of the lowest 4 GiB.
proof fn lemma_indices(x: int)
    requires
        0 <= x < 0x10_0000,
    ensures
        addr::table_index(OFFSET_PAGES + x, 0) == 256 + x / 0x4_0000,
        addr::table_index(OFFSET_PAGES + x, 1) == (x / 512) % 512,
        addr::table_index(OFFSET_PAGES + x, 2) == x % 512,
{
    let v = OFFSET_PAGES + x;
    assert(OFFSET_PAGES == 0x3_ffff_ff00 * 0x4_0000);
    assert(v / 0x4_0000 == 0x3_ffff_ff00 + x / 0x4_0000);
    assert(0 <= x / 0x4_0000 < 4);
    assert(v / 512 == 0x3_ffff_ff00 * 512 + x / 512);
}

/// What slots and tables two pages there have in common.
proof fn lemma_slots(a: int, b: int)
    requires
        OFFSET_PAGES <= a < OFFSET_PAGES + 0x10_0000,
        OFFSET_PAGES <= b < OFFSET_PAGES + 0x10_0000,
    ensures
        ({
            let x = a - OFFSET_PAGES;
            let y = b - OFFSET_PAGES;
            &&& page_table::same_slot(a, b, 2) <==> x == y
            &&& page_table::same_slot(a, b, 1) <==> x / 512 == y / 512
            &&& page_table::shared(a, b) == (if x / 0x4_0000 != y / 0x4_0000 {
                0
            } else if x / 512 != y / 512 {
                1
            } else {
                2int
            })
        }),
{
    let x = a - OFFSET_PAGES;
    let y = b - OFFSET_PAGES;
    lemma_indices(x);
    lemma_indices(y);
    let p = x / 512;
    let q = y / 512;
    assert(x / 0x4_0000 == p / 512);
    assert(y / 0x4_0000 == q / 512);
}

/// A leaf elsewhere takes no slot here.
proof fn lemma_not_taken(m: Mark, lo: int, hi: int, u: int, lev: int)
    requires
        clear_of(m, lo, hi),
        OFFSET_PAGES <= lo <= u,
        1 <= lev <= 2,
        lev == 1 ==> u % 512 == 0,
        u + page_table::level_pages(lev) <= hi <= OFFSET_PAGES + 0x10_0000,
    ensures
        !page_table::takes(m, u, lev),
{
    lemma_slots(u, m.page);
    let x = u - OFFSET_PAGES;
    let y = m.page - OFFSET_PAGES;
    assert(OFFSET_PAGES % 512 == 0);
    if lev == 1 {
        assert(x % 512 == 0);
    }
    if m.level == 1 {
        assert(y % 512 == 0);
    }
}

/// So no slot here is taken.
proof fn lemma_vacant(leaves: Seq<Mark>, lo: int, hi: int, u: int, lev: int)
    requires
        apart(leaves, lo, hi),
        lo <= u,
        1 <= lev <= 2,
        lev == 1 ==> u % 512 == 0,
        u + page_table::level_pages(lev) <= hi,
    ensures
        !page_table::occupies(leaves, u, lev),
{
    assert forall|k: int| 0 <= k < leaves.len() implies !page_table::takes(#[trigger] leaves[k], u, lev) by {
        lemma_not_taken(leaves[k], lo, hi, u, lev);
    }
}

/// With tables down to `c` on the way to a vacant slot, and no further.
proof fn lemma_lacks(leaves: Seq<Mark>, lo: int, hi: int, u: int, lev: int, c: int)
    requires
        apart(leaves, lo, hi),
        lo <= u,
        1 <= lev <= 2,
        lev == 1 ==> u % 512 == 0,
        u + page_table::level_pages(lev) <= hi,
        0 <= c <= lev,
        forall|k: int|
            0 <= k < leaves.len() ==> page_table::shared(u, (#[trigger] leaves[k]).page) <= c || leaves[k].level
                <= c,
        c == 0 || exists|k: int|
            0 <= k < leaves.len() && page_table::shared(u, (#[trigger] leaves[k]).page) >= c && leaves[k].level >= c,
    ensures
        page_table::lacking(leaves, u, lev) == lev - c,
{
    assert forall|j: int| 0 <= j < leaves.len() implies !((#[trigger] leaves[j]).leaf && lev > leaves[j].level
        && page_table::same_slot(u, leaves[j].page, leaves[j].level)) by {
        lemma_not_taken(leaves[j], lo, hi, u, lev);
    }
    page_table::lemma_lacking_exact(leaves, u, lev, c);
}

/// Leaves added outside the pages `lo` up to `hi`.
proof fn lemma_apart_small(leaves: Seq<Mark>, lo: int, hi: int, v: int, b: int)
    requires
        apart(leaves, lo, hi),
        OFFSET_PAGES <= v <= b <= OFFSET_PAGES + 0x10_0000,
        b <= lo || hi <= v,
    ensures
        apart(leaves + small(v, b), lo, hi),
{
    let more = leaves + small(v, b);
    assert forall|k: int| 0 <= k < more.len() implies clear_of(#[trigger] more[k], lo, hi) by {
        if k < leaves.len() {
            assert(more[k] == leaves[k]);
        } else {
            assert(more[k] == small(v, b)[k - leaves.len()]);
        }
    }
}

proof fn lemma_apart_large(leaves: Seq<Mark>, lo: int, hi: int, v: int, b: int)
    requires
        apart(leaves, lo, hi),
        OFFSET_PAGES <= v <= b <= OFFSET_PAGES + 0x10_0000,
        v % 512 == 0,
        b % 512 == 0,
        b <= lo || hi <= v,
    ensures
        apart(leaves + large(v, b), lo, hi),
{
    let more = leaves + large(v, b);
    assert forall|k: int| 0 <= k < more.len() implies clear_of(#[trigger] more[k], lo, hi) by {
        if k < leaves.len() {
            assert(more[k] == leaves[k]);
        } else {
            let i = k - leaves.len();
            assert(more[k] == large(v, b)[i]);
            assert((v + 512 * i) % 512 == 0);
            assert(v + 512 * i + 512 <= b);
        }
    }
}

/// Fewer pages are clear too.
proof fn lemma_apart_less(leaves: Seq<Mark>, lo: int, hi: int, l: int, h: int)
    requires
        apart(leaves, lo, hi),
        lo <= l <= h <= hi,
    ensures
        apart(leaves, l, h),
{
    assert forall|k: int| 0 <= k < leaves.len() implies clear_of(#[trigger] leaves[k], l, h) by {
        assert(clear_of(leaves[k], lo, hi));
    }
}

/// Mapping pages one by one, in one 2 MiB block: they cost what the first one costs.
proof fn lemma_small_run(leaves: Seq<Mark>, v: int, b: int, end: int, free: int)
    requires
        v <= b <= end,
        apart(leaves, v, b),
        v < b ==> (v - OFFSET_PAGES) / 512 == (b - 1 - OFFSET_PAGES) / 512,
        forall|u: int| v <= u < b ==> #[trigger] space::leaf_level(Backing::Linear, u, end) == 2,
        v < b ==> 0 <= page_table::lacking(leaves, v, 2) <= free,
    ensures
        space::install(leaves, Backing::Linear, v, end, free) == space::install(
            leaves + small(v, b),
            Backing::Linear,
            b,
            end,
            if v < b {
                free - page_table::lacking(leaves, v, 2)
            } else {
                free
            },
        ),
    decreases b - v,
{
    if v >= b {
        assert(leaves + small(v, b) =~= leaves);
    } else {
        let m = page_table::leaf_at(v, 2);
        let more = leaves.push(m);
        let c = page_table::lacking(leaves, v, 2);
        lemma_vacant(leaves, v, b, v, 2);
        assert(space::leaf_level(Backing::Linear, v, end) == 2);
        assert(more.drop_last() =~= leaves);
        assert forall|k: int| 0 <= k < more.len() implies clear_of(#[trigger] more[k], v + 1, b) by {
            if k < leaves.len() {
                assert(more[k] == leaves[k]);
                assert(clear_of(leaves[k], v, b));
            }
        }
        if v + 1 < b {
            lemma_slots(v + 1, v);
            assert((v + 1 - OFFSET_PAGES) / 512 == (v - OFFSET_PAGES) / 512);
            assert(page_table::lacking(more, v + 1, 2) == 0);
        }
        lemma_small_run(more, v + 1, b, end, free - c);
        assert(more + small(v + 1, b) =~= leaves + small(v, b));
    }
}

/// Mapping 2 MiB blocks of a GiB that has a table costs nothing.
proof fn lemma_large_run(leaves: Seq<Mark>, v: int, end: int, free: int)
    requires
        v <= end,
        apart(leaves, v, end),
        v % 512 == 0,
        end % 512 == 0,
        v < end ==> (v - OFFSET_PAGES) / 0x4_0000 == (end - 1 - OFFSET_PAGES) / 0x4_0000,
        v < end ==> page_table::lacking(leaves, v, 1) == 0,
        0 <= free,
    ensures
        space::install(leaves, Backing::Linear, v, end, free) == (Plan {
            result: Ok(()),
            leaves: leaves + large(v, end),
            free,
        }),
    decreases end - v,
{
    if v >= end {
        assert(leaves + large(v, end) =~= leaves);
    } else {
        let m = page_table::leaf_at(v, 1);
        let more = leaves.push(m);
        assert(v + 512 <= end);
        lemma_vacant(leaves, v, end, v, 1);
        assert(space::leaf_level(Backing::Linear, v, end) == 1);
        assert(more.drop_last() =~= leaves);
        assert forall|k: int| 0 <= k < more.len() implies clear_of(#[trigger] more[k], v + 512, end) by {
            if k < leaves.len() {
                assert(more[k] == leaves[k]);
                assert(clear_of(leaves[k], v, end));
            }
        }
        if v + 512 < end {
            lemma_slots(v + 512, v);
            assert((v + 512 - OFFSET_PAGES) / 0x4_0000 == (v - OFFSET_PAGES) / 0x4_0000);
            assert(page_table::lacking(more, v + 512, 1) == 0);
        }
        lemma_large_run(more, v + 512, end, free);
        assert(more + large(v + 512, end) =~= leaves + large(v, end)) by {
            assert((end - v) / 512 == (end - (v + 512)) / 512 + 1);
            let all = leaves + large(v, end);
            let got = more + large(v + 512, end);
            assert forall|k: int| 0 <= k < all.len() implies #[trigger] got[k] == all[k] by {
                if k == leaves.len() {
                    assert(large(v, end)[0] == m);
                } else if k > leaves.len() {
                    let i = k - leaves.len();
                    assert(large(v, end)[i] == page_table::leaf_at(v + 512 * i, 1));
                    assert(large(v + 512, end)[i - 1] == page_table::leaf_at(v + 512 + 512 * (i - 1), 1));
                }
            }
        }
    }
}

/// Page of the direct map at physical page `x`.
spec fn at(x: int) -> int {
    OFFSET_PAGES + x
}

/// The leaves are 4 KiB pages of the image, all before page `a`.
spec fn image_only(leaves: Seq<Mark>, a: int) -> bool {
    &&& at(0x8_0200) <= a < at(0x8_0400)
    &&& forall|k: int| 0 <= k < leaves.len() ==> image_page(#[trigger] leaves[k], a)
}

spec fn image_page(m: Mark, a: int) -> bool {
    m.leaf && m.level == 2 && at(0x8_0200) <= m.page < a
}

/// What mapping a section of the image comes to: the first one costs two tables.
#[verifier::spinoff_prover]
proof fn lemma_section(
    start: u64,
    end: u64,
    perm: u64,
    rest: Seq<Window>,
    leaves: Seq<Mark>,
    a: int,
    free: int,
) -> (r: Seq<Mark>)
    requires
        image_only(leaves, a),
        a * 4096 <= start <= end < VIRT_OFFSET + 0x8040_0000,
        start % PAGE_SIZE == 0,
        end % PAGE_SIZE == 0,
        free >= 2 || leaves.len() > 0,
        free >= 0,
    ensures
        kernel::left_after(kernel::section(start, end, perm) + rest, leaves, free) == kernel::left_after(
            rest,
            r,
            if start < end && leaves.len() == 0 {
                free - 2
            } else {
                free
            },
        ),
        image_only(r, end as int / 4096),
        start < end || leaves.len() > 0 ==> r.len() > 0,
{
    let v = start as int / 4096;
    let b = end as int / 4096;
    assert(VIRT_OFFSET == OFFSET_PAGES * 4096);
    if start == end {
        assert(kernel::section(start, end, perm) + rest =~= rest);
        assert forall|k: int| 0 <= k < leaves.len() implies image_page(#[trigger] leaves[k], b) by {
            assert(image_page(leaves[k], a));
        }
        leaves
    } else {
        let w = Window { start, end, perm };
        let all = kernel::section(start, end, perm) + rest;
        let r = leaves + small(v, b);
        assert(all[0] == w);
        assert(all.drop_first() =~= rest);
        assert(w.first() == v && w.last() == b);
        assert(at(0x8_0200) <= v < b < at(0x8_0400));
        assert(apart(leaves, v, b)) by {
            assert forall|k: int| 0 <= k < leaves.len() implies clear_of(#[trigger] leaves[k], v, b) by {
                assert(image_page(leaves[k], a));
            }
        }
        assert forall|u: int| v <= u < b implies #[trigger] space::leaf_level(Backing::Linear, u, b) == 2 by {
            if u % 512 == 0 {
                assert(OFFSET_PAGES % 512 == 0);
            }
        }
        assert(page_table::lacking(leaves, v, 2) == (if leaves.len() == 0 {
            2int
        } else {
            0
        })) by {
            if leaves.len() > 0 {
                let m = leaves[0];
                assert(image_page(m, a));
                lemma_slots(v, m.page);
                lemma_lacks(leaves, v, b, v, 2, 2);
            }
        }
        assert((v - OFFSET_PAGES) / 512 == (b - 1 - OFFSET_PAGES) / 512);
        lemma_small_run(leaves, v, b, b, free);
        assert(image_only(r, b)) by {
            assert forall|k: int| 0 <= k < r.len() implies image_page(#[trigger] r[k], b) by {
                if k < leaves.len() {
                    assert(image_page(leaves[k], a));
                } else {
                    assert(r[k] == small(v, b)[k - leaves.len()]);
                }
            }
        }
        r
    }
}

/// What mapping a device with 4 KiB pages comes to, where `c` of the two interior tables
/// that it needs are there.
proof fn lemma_device(base: u64, size: u64, rest: Seq<Window>, leaves: Seq<Mark>, free: int, c: int)
    requires
        base % 4096 == 0,
        size % 4096 == 0,
        0 < size,
        base + size <= 0x8000_0000,
        base as int / 4096 / 512 == ((base + size) / 4096 - 1) / 512,
        !(size == 0x20_0000 && base % 0x20_0000 == 0),
        apart(leaves, at(base as int / 4096), at(0x8_0200)),
        0 <= c <= 2,
        forall|k: int|
            0 <= k < leaves.len() ==> page_table::shared(at(base as int / 4096), (#[trigger] leaves[k]).page) <= c
                || leaves[k].level <= c,
        c == 0 || exists|k: int|
            0 <= k < leaves.len() && page_table::shared(at(base as int / 4096), (#[trigger] leaves[k]).page) >= c
                && leaves[k].level >= c,
        free >= 2 - c,
    ensures
        ({
            let v = at(base as int / 4096);
            let b = at((base + size) / 4096);
            &&& kernel::left_after(seq![kernel::device(base, size)] + rest, leaves, free) == kernel::left_after(
                rest,
                leaves + small(v, b),
                free - (2 - c),
            )
            &&& apart(leaves + small(v, b), b, at(0x8_0200))
        }),
{
    let v = at(base as int / 4096);
    let b = at((base + size) / 4096);
    let w = kernel::device(base, size);
    let all = seq![w] + rest;
    assert(VIRT_OFFSET == OFFSET_PAGES * 4096);
    assert(all[0] == w);
    assert(all.drop_first() =~= rest);
    assert(w.first() == v && w.last() == b);
    lemma_apart_less(leaves, v, at(0x8_0200), v, b);
    lemma_apart_less(leaves, v, at(0x8_0200), b, at(0x8_0200));
    lemma_lacks(leaves, v, b, v, 2, c);
    assert forall|u: int| v <= u < b implies #[trigger] space::leaf_level(Backing::Linear, u, b) == 2 by {
        assert(OFFSET_PAGES % 512 == 0);
    }
    lemma_small_run(leaves, v, b, b, free);
    lemma_apart_small(leaves, b, at(0x8_0200), v, b);
}

/// What mapping memory above the image comes to: no more tables than there are.
#[verifier::spinoff_prover]
#[verifier::rlimit(40)]
proof fn lemma_memory(kernel_end: u64, rest: Seq<Window>, leaves: Seq<Mark>, a: int, free: int) -> (r: Seq<Mark>)
    requires
        image_only(leaves, a),
        leaves.len() > 0,
        a * 4096 <= kernel_end < VIRT_OFFSET + 0x8040_0000,
        kernel_end % PAGE_SIZE == 0,
        free >= 0,
    ensures
        ({
            let w = Window {
                start: kernel_end,
                end: (DRAM_BASE + DRAM_SIZE + VIRT_OFFSET) as u64,
                perm: kernel::KERNEL_RW,
            };
            kernel::left_after(seq![w] + rest, leaves, free) == kernel::left_after(rest, r, free)
        }),
        apart(r, at(0), at(0x8_0200)),
{
    let w = Window {
        start: kernel_end,
        end: (DRAM_BASE + DRAM_SIZE + VIRT_OFFSET) as u64,
        perm: kernel::KERNEL_RW,
    };
    let v = kernel_end as int / 4096;
    let b = at(0x8_0400);
    let end = at(0x8_8000);
    let all = seq![w] + rest;
    let mid = leaves + small(v, b);
    let r = mid + large(b, end);
    let m = leaves[0];
    assert(VIRT_OFFSET == OFFSET_PAGES * 4096);
    assert(OFFSET_PAGES % 512 == 0);
    assert(all[0] == w);
    assert(all.drop_first() =~= rest);
    assert(w.first() == v && w.last() == end);
    assert(image_page(m, a));
    assert(at(0x8_0200) < v < b);
    assert(apart(leaves, v, end)) by {
        assert forall|k: int| 0 <= k < leaves.len() implies clear_of(#[trigger] leaves[k], v, end) by {
            assert(image_page(leaves[k], a));
        }
    }
    assert(apart(leaves, at(0), at(0x8_0200))) by {
        assert forall|k: int| 0 <= k < leaves.len() implies clear_of(#[trigger] leaves[k], at(0), at(0x8_0200)) by {
            assert(image_page(leaves[k], a));
        }
    }
    lemma_apart_less(leaves, v, end, v, b);
    lemma_apart_less(leaves, v, end, b, end);
    assert forall|u: int| v <= u < b implies #[trigger] space::leaf_level(Backing::Linear, u, end) == 2 by {
        assert(u % 512 != 0);
    }
    assert(page_table::lacking(leaves, v, 2) == 0) by {
        lemma_slots(v, m.page);
        lemma_lacks(leaves, v, b, v, 2, 2);
    }
    assert((v - OFFSET_PAGES) / 512 == (b - 1 - OFFSET_PAGES) / 512);
    lemma_small_run(leaves, v, b, end, free);
    lemma_apart_small(leaves, b, end, v, b);
    lemma_apart_small(leaves, at(0), at(0x8_0200), v, b);
    assert(page_table::lacking(mid, b, 1) == 0) by {
        assert(mid[0] == m);
        lemma_slots(b, m.page);
        assert forall|k: int| 0 <= k < mid.len() implies page_table::shared(b, (#[trigger] mid[k]).page) <= 1
            || mid[k].level <= 1 by {
            assert(clear_of(mid[k], b, end));
            lemma_slots(b, mid[k].page);
        }
        lemma_lacks(mid, b, end, b, 1, 1);
    }
    lemma_large_run(mid, b, end, free);
    lemma_apart_large(mid, at(0), at(0x8_0200), b, end);
    r
}

/// What mapping the interrupt controller comes to: it is whole 2 MiB blocks.
proof fn lemma_controller(rest: Seq<Window>, leaves: Seq<Mark>, k: int, free: int)
    requires
        apart(leaves, at(0x2010), at(0x8_0200)),
        0 <= k < leaves.len(),
        leaves[k].page == at(0x100),
        free >= 0,
    ensures
        ({
            let more = leaves + large(at(0xc000), at(0xc600));
            &&& kernel::left_after(seq![kernel::device(PLIC_BASE, 0x600000)] + rest, leaves, free)
                == kernel::left_after(rest, more, free)
            &&& apart(more, at(0xc600), at(0x8_0200))
        }),
{
    let v = at(0xc000);
    let b = at(0xc600);
    let w = kernel::device(PLIC_BASE, 0x600000);
    let all = seq![w] + rest;
    assert(VIRT_OFFSET == OFFSET_PAGES * 4096);
    assert(OFFSET_PAGES % 512 == 0);
    assert(all[0] == w);
    assert(all.drop_first() =~= rest);
    assert(w.first() == v && w.last() == b);
    lemma_apart_less(leaves, at(0x2010), at(0x8_0200), v, b);
    lemma_apart_less(leaves, at(0x2010), at(0x8_0200), b, at(0x8_0200));
    lemma_slots(v, leaves[k].page);
    assert(clear_of(leaves[k], v, b));
    lemma_lacks(leaves, v, b, v, 1, 1);
    lemma_large_run(leaves, v, b, free);
    lemma_apart_large(leaves, b, at(0x8_0200), v, b);
}

/// What mapping the devices comes to, in a table that maps nothing but memory: four
/// tables.
proof fn lemma_devices(leaves: Seq<Mark>, free: int)
    requires
        apart(leaves, at(0), at(0x8_0200)),
        free >= 4,
    ensures
        kernel::left_after(
            seq![
                kernel::device(TEST_DEVICE_BASE, PAGE_SIZE),
                kernel::device(CLINT_BASE, 0x10000),
                kernel::device(PLIC_BASE, 0x600000),
                kernel::device(UART_BASE, PAGE_SIZE),
                kernel::device(VIRTIO_MMIO_BASE, (VIRTIO_MMIO_STRIDE * VIRTIO_MMIO_SLOTS) as u64),
            ],
            leaves,
            free,
        ) == Some(free - 4),
{
    let d1 = kernel::device(TEST_DEVICE_BASE, PAGE_SIZE);
    let d2 = kernel::device(CLINT_BASE, 0x10000);
    let d3 = kernel::device(PLIC_BASE, 0x600000);
    let d4 = kernel::device(UART_BASE, PAGE_SIZE);
    let d5 = kernel::device(VIRTIO_MMIO_BASE, 0x8000);
    let n = leaves.len() as int;
    // The test device: the first of its GiB.
    lemma_apart_less(leaves, at(0), at(0x8_0200), at(0x100), at(0x8_0200));
    assert forall|k: int| 0 <= k < leaves.len() implies page_table::shared(at(0x100), (#[trigger] leaves[k]).page)
        <= 0 by {
        assert(clear_of(leaves[k], at(0), at(0x8_0200)));
        lemma_slots(at(0x100), leaves[k].page);
    }
    lemma_device(TEST_DEVICE_BASE, PAGE_SIZE, seq![d2, d3, d4, d5], leaves, free, 0);
    assert(seq![d1] + seq![d2, d3, d4, d5] =~= seq![d1, d2, d3, d4, d5]);
    let l1 = leaves + small(at(0x100), at(0x101));
    assert(l1[n] == page_table::leaf_at(at(0x100), 2));
    // The timer: a block of its own.
    lemma_apart_less(l1, at(0x101), at(0x8_0200), at(0x2000), at(0x8_0200));
    assert forall|k: int| 0 <= k < l1.len() implies page_table::shared(at(0x2000), (#[trigger] l1[k]).page) <= 1 by {
        assert(clear_of(l1[k], at(0x101), at(0x8_0200)));
        lemma_slots(at(0x2000), l1[k].page);
    }
    lemma_slots(at(0x2000), l1[n].page);
    lemma_device(CLINT_BASE, 0x10000, seq![d3, d4, d5], l1, free - 2, 1);
    assert(seq![d2] + seq![d3, d4, d5] =~= seq![d2, d3, d4, d5]);
    let l2 = l1 + small(at(0x2000), at(0x2010));
    assert(l2[n] == l1[n]);
    // The interrupt controller.
    lemma_controller(seq![d4, d5], l2, n, free - 3);
    assert(seq![d3] + seq![d4, d5] =~= seq![d3, d4, d5]);
    let l3 = l2 + large(at(0xc000), at(0xc600));
    assert(l3[n] == l1[n]);
    // The UART: another block.
    lemma_apart_less(l3, at(0xc600), at(0x8_0200), at(0x1_0000), at(0x8_0200));
    assert forall|k: int| 0 <= k < l3.len() implies page_table::shared(at(0x1_0000), (#[trigger] l3[k]).page)
        <= 1 by {
        assert(clear_of(l3[k], at(0xc600), at(0x8_0200)));
        lemma_slots(at(0x1_0000), l3[k].page);
    }
    lemma_slots(at(0x1_0000), l3[n].page);
    lemma_device(UART_BASE, PAGE_SIZE, seq![d5], l3, free - 3, 1);
    assert(seq![d4] + seq![d5] =~= seq![d4, d5]);
    let l4 = l3 + small(at(0x1_0000), at(0x1_0001));
    let m = l3.len() as int;
    assert(l4[m] == page_table::leaf_at(at(0x1_0000), 2));
    // The virtio slots share it.
    lemma_slots(at(0x1_0001), l4[m].page);
    lemma_device(VIRTIO_MMIO_BASE, 0x8000, Seq::empty(), l4, free - 4, 2);
    assert(seq![d5] + Seq::<Window>::empty() =~= seq![d5]);
}

/// The kernel's address space costs seven page-table frames on the board, wherever the
/// linker puts the sections: the root, two tables for the memory's first block, and
/// four for the devices. The rest of memory is mapped with 2 MiB leaves.
pub proof fn law_kernel_space_costs_seven_frames(l: KernelLayout, free: int)
    requires
        on_board(l),
        free >= 7,
    ensures
        kernel::left_after(kernel::kernel_windows(l), Seq::empty(), free - 1) == Some(free - 7),
{
    let none = Seq::<Mark>::empty();
    let devices = seq![
        kernel::device(TEST_DEVICE_BASE, PAGE_SIZE),
        kernel::device(CLINT_BASE, 0x10000),
        kernel::device(PLIC_BASE, 0x600000),
        kernel::device(UART_BASE, PAGE_SIZE),
        kernel::device(VIRTIO_MMIO_BASE, (VIRTIO_MMIO_STRIDE * VIRTIO_MMIO_SLOTS) as u64),
    ];
    let w = Window {
        start: l.kernel_end,
        end: (DRAM_BASE + DRAM_SIZE + VIRT_OFFSET) as u64,
        perm: kernel::KERNEL_RW,
    };
    let s1 = kernel::section(l.text_start, l.text_end, kernel::KERNEL_RX);
    let s2 = kernel::section(l.rodata_start, l.rodata_end, kernel::KERNEL_R);
    let s3 = kernel::section(l.data_start, l.data_end, kernel::KERNEL_RW);
    let s4 = kernel::section(l.bss_start, l.bss_end, kernel::KERNEL_RW);
    let r5 = seq![w] + devices;
    let r4 = s4 + r5;
    let r3 = s3 + r4;
    let r2 = s2 + r3;
    assert(VIRT_OFFSET == OFFSET_PAGES * 4096);
    assert(kernel::kernel_windows(l) =~= s1 + r2);
    let m1 = lemma_section(l.text_start, l.text_end, kernel::KERNEL_RX, r2, none, at(0x8_0200), free - 1);
    let m2 = lemma_section(
        l.rodata_start,
        l.rodata_end,
        kernel::KERNEL_R,
        r3,
        m1,
        l.text_end as int / 4096,
        free - 3,
    );
    let m3 = lemma_section(
        l.data_start,
        l.data_end,
        kernel::KERNEL_RW,
        r4,
        m2,
        l.rodata_end as int / 4096,
        free - 3,
    );
    let m4 = lemma_section(l.bss_start, l.bss_end, kernel::KERNEL_RW, r5, m3, l.data_end as int / 4096, free - 3);
    let m5 = lemma_memory(l.kernel_end, devices, m4, l.bss_end as int / 4096, free - 3);
    lemma_devices(m5, free - 3);
}

} // verus!
