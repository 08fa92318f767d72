//! Typed physical and virtual addresses.
//!
//! Mixing up a physical address, a virtual address and a page number is the
//! classic way to lose a weekend to a kernel bug, so they are four distinct
//! types here and conversions between them are explicit.

use vstd::prelude::*;
use crate::config::{PAGE_SIZE, VIRT_OFFSET};

verus! {

/// A physical address: an index into DRAM or MMIO space.
#[derive(Clone, Copy, PartialEq, Eq, Structural, PartialOrd, Ord, Default, Debug)]
pub struct PhysAddr(pub u64);

/// A virtual address, subject to Sv39 translation.
#[derive(Clone, Copy, PartialEq, Eq, Structural, PartialOrd, Ord, Default, Debug)]
pub struct VirtAddr(pub u64);

/// A physical address divided by the page size: a frame number.
#[derive(Clone, Copy, PartialEq, Eq, Structural, PartialOrd, Ord, Default, Debug)]
pub struct PhysPageNum(pub u64);

/// A virtual address divided by the page size: a page number.
#[derive(Clone, Copy, PartialEq, Eq, Structural, PartialOrd, Ord, Default, Debug)]
pub struct VirtPageNum(pub u64);

/// The largest multiple of the page size that is at most `a`.
pub open spec fn page_floor(a: int) -> int {
    a - a % (PAGE_SIZE as int)
}

/// The smallest multiple of the page size that is at least `a`.
pub open spec fn page_ceil(a: int) -> int {
    page_floor(a + PAGE_SIZE - 1)
}

impl PhysAddr {
    /// Offset within the containing page.
    pub fn page_offset(self) -> (r: u64)
        ensures
            r == self.0 % PAGE_SIZE,
    {
        self.0 % PAGE_SIZE
    }

    /// Is this address exactly on a page boundary?
    pub fn is_aligned(self) -> (r: bool)
        ensures
            r == (self.0 % PAGE_SIZE == 0),
    {
        self.page_offset() == 0
    }

    /// Round down to the containing page boundary.
    pub fn align_down(self) -> (r: PhysAddr)
        ensures
            r.0 == page_floor(self.0 as int),
    {
        PhysAddr(self.0 - self.0 % PAGE_SIZE)
    }

    /// Round up to the next page boundary.
    pub fn align_up(self) -> (r: PhysAddr)
        requires
            self.0 + PAGE_SIZE - 1 <= u64::MAX,
        ensures
            r.0 == page_ceil(self.0 as int),
    {
        PhysAddr(self.0 + (PAGE_SIZE - 1)).align_down()
    }

    /// Raw value.
    pub fn as_u64(self) -> (r: u64)
        ensures
            r == self.0,
    {
        self.0
    }

    /// Frame number containing this address (rounds down).
    pub fn ppn(self) -> (r: PhysPageNum)
        ensures
            r.0 == self.0 / PAGE_SIZE,
    {
        PhysPageNum(self.0 / PAGE_SIZE)
    }

    /// Frame number of a page-aligned address.
    pub fn ppn_exact(self) -> (r: PhysPageNum)
        requires
            self.0 % PAGE_SIZE == 0,
        ensures
            r.0 * PAGE_SIZE == self.0,
    {
        PhysPageNum(self.0 / PAGE_SIZE)
    }

    /// Where this physical address is readable in the kernel's direct map.
    pub open spec fn spec_to_virt(self) -> VirtAddr {
        VirtAddr((self.0 + VIRT_OFFSET) as u64)
    }

    /// Where this physical address is readable in the kernel's direct map.
    pub fn to_virt(self) -> (r: VirtAddr)
        requires
            self.0 + VIRT_OFFSET <= u64::MAX,
        ensures
            r.0 == self.0 + VIRT_OFFSET,
            r == self.spec_to_virt(),
    {
        VirtAddr(self.0 + VIRT_OFFSET)
    }
}

impl VirtAddr {
    /// Offset within the containing page.
    pub fn page_offset(self) -> (r: u64)
        ensures
            r == self.0 % PAGE_SIZE,
    {
        self.0 % PAGE_SIZE
    }

    /// Is this address exactly on a page boundary?
    pub fn is_aligned(self) -> (r: bool)
        ensures
            r == (self.0 % PAGE_SIZE == 0),
    {
        self.page_offset() == 0
    }

    /// Round down to the containing page boundary.
    pub fn align_down(self) -> (r: VirtAddr)
        ensures
            r.0 == page_floor(self.0 as int),
    {
        VirtAddr(self.0 - self.0 % PAGE_SIZE)
    }

    /// Round up to the next page boundary.
    pub fn align_up(self) -> (r: VirtAddr)
        requires
            self.0 + PAGE_SIZE - 1 <= u64::MAX,
        ensures
            r.0 == page_ceil(self.0 as int),
    {
        VirtAddr(self.0 + (PAGE_SIZE - 1)).align_down()
    }

    /// Raw value.
    pub fn as_u64(self) -> (r: u64)
        ensures
            r == self.0,
    {
        self.0
    }

    /// The page number containing this address.
    pub open spec fn spec_vpn(self) -> VirtPageNum {
        VirtPageNum(self.0 / PAGE_SIZE)
    }

    /// Page number containing this address (rounds down).
    pub fn vpn(self) -> (r: VirtPageNum)
        ensures
            r.0 == self.0 / PAGE_SIZE,
            r == self.spec_vpn(),
    {
        VirtPageNum(self.0 / PAGE_SIZE)
    }

    /// Page number of a page-aligned address.
    pub fn vpn_exact(self) -> (r: VirtPageNum)
        requires
            self.0 % PAGE_SIZE == 0,
        ensures
            r.0 * PAGE_SIZE == self.0,
    {
        VirtPageNum(self.0 / PAGE_SIZE)
    }

    /// The physical address behind a direct-map address.
    pub open spec fn spec_to_phys(self) -> PhysAddr {
        PhysAddr((self.0 - VIRT_OFFSET) as u64)
    }

    /// Reverse the direct map. Only meaningful for kernel addresses.
    pub fn to_phys(self) -> (r: PhysAddr)
        requires
            self.0 >= VIRT_OFFSET,
        ensures
            r.0 == self.0 - VIRT_OFFSET,
            r == self.spec_to_phys(),
    {
        PhysAddr(self.0 - VIRT_OFFSET)
    }

    /// Membership in the upper half.
    pub open spec fn spec_is_kernel(self) -> bool {
        self.0 >= VIRT_OFFSET
    }

    /// Does this address fall in the upper (kernel) half of the address space?
    pub fn is_kernel(self) -> (r: bool)
        ensures
            r == self.spec_is_kernel(),
    {
        self.0 >= VIRT_OFFSET
    }

    /// Bits 63:38, read as a number, are all zero or all one.
    pub open spec fn spec_is_canonical(self) -> bool {
        let top = self.0 / 0x40_0000_0000;
        top == 0 || top == 0x3ff_ffff
    }

    /// Sv39 requires bits 63:39 to replicate bit 38. An address that violates
    /// this faults with a page fault rather than being truncated.
    pub fn is_canonical(self) -> (r: bool)
        ensures
            r == self.spec_is_canonical(),
    {
        let top: u64 = self.0 / 0x40_0000_0000;
        top == 0 || top == 0x3ff_ffff
    }
}

impl PhysPageNum {
    /// Address of the first byte of this frame.
    pub fn base_addr(self) -> (r: PhysAddr)
        requires
            self.0 * PAGE_SIZE <= u64::MAX,
        ensures
            r.0 == self.0 * PAGE_SIZE,
    {
        PhysAddr(self.0 * PAGE_SIZE)
    }

    /// Direct-map address of this frame's contents.
    pub fn as_ptr(self) -> (r: u64)
        requires
            self.0 * PAGE_SIZE + VIRT_OFFSET <= u64::MAX,
        ensures
            r == self.0 * PAGE_SIZE + VIRT_OFFSET,
    {
        self.0 * PAGE_SIZE + VIRT_OFFSET
    }

    /// The next frame in physical order.
    pub fn next(self) -> (r: PhysPageNum)
        requires
            self.0 < u64::MAX,
        ensures
            r.0 == self.0 + 1,
    {
        PhysPageNum(self.0 + 1)
    }
}

/// Index of page `vpn` in the table at `level` of a walk, the root being level
/// 0. The three 9-bit indices are bits 26:18, 17:9 and 8:0 of the page number.
pub open spec fn table_index(vpn: int, level: int) -> int {
    if level == 0 {
        (vpn / 0x4_0000) % 512
    } else if level == 1 {
        (vpn / 512) % 512
    } else {
        vpn % 512
    }
}

impl VirtPageNum {
    /// Address of the first byte of this page.
    pub fn base_addr(self) -> (r: VirtAddr)
        requires
            self.0 * PAGE_SIZE <= u64::MAX,
        ensures
            r.0 == self.0 * PAGE_SIZE,
    {
        VirtAddr(self.0 * PAGE_SIZE)
    }

    /// Split the page number into its three 9-bit Sv39 table indices, from the
    /// root table down to the leaf.
    pub fn indices(self) -> (r: [u64; 3])
        ensures
            forall|l: int| 0 <= l < 3 ==> #[trigger] r@[l] == table_index(self.0 as int, l),
            forall|l: int| 0 <= l < 3 ==> (#[trigger] r@[l]) < 512,
    {
        [(self.0 / 0x4_0000) % 512, (self.0 / 512) % 512, self.0 % 512]
    }

    /// The next page in virtual order.
    pub fn next(self) -> (r: VirtPageNum)
        requires
            self.0 < u64::MAX,
        ensures
            r.0 == self.0 + 1,
    {
        VirtPageNum(self.0 + 1)
    }

    /// Number of pages spanned by `[start, end)`, rounding the range outward.
    pub fn range_len(start: VirtAddr, end: VirtAddr) -> (r: u64)
        requires
            end.0 + PAGE_SIZE - 1 <= u64::MAX,
            start.0 <= end.0,
        ensures
            r * PAGE_SIZE == page_ceil(end.0 as int) - page_floor(start.0 as int),
    {
        let s: u64 = start.align_down().0 / PAGE_SIZE;
        let e: u64 = end.align_up().0 / PAGE_SIZE;
        e - s
    }
}

/// Rounding: the floor is the greatest page boundary not above the address, the
/// ceiling the least not below, and a boundary is its own floor and ceiling.
pub proof fn law_page_rounding(a: int)
    requires
        0 <= a,
    ensures
        page_floor(a) % (PAGE_SIZE as int) == 0,
        page_ceil(a) % (PAGE_SIZE as int) == 0,
        page_floor(a) <= a < page_floor(a) + PAGE_SIZE,
        page_ceil(a) - PAGE_SIZE < a <= page_ceil(a),
        a % (PAGE_SIZE as int) == 0 ==> page_floor(a) == a && page_ceil(a) == a,
{
}

/// The three indices determine the low 27 bits of a page number, and nothing
/// more: pages whose numbers agree there share their table slots.
pub proof fn law_indices_determine_page(a: int, b: int)
    requires
        0 <= a,
        0 <= b,
    ensures
        (forall|l: int| 0 <= l < 3 ==> table_index(a, l) == table_index(b, l))
            <==> a % 0x800_0000 == b % 0x800_0000,
{
    assert(a % 0x800_0000 == table_index(a, 0) * 0x4_0000 + table_index(a, 1) * 512 + table_index(a, 2));
    assert(b % 0x800_0000 == table_index(b, 0) * 0x4_0000 + table_index(b, 1) * 512 + table_index(b, 2));
    if a % 0x800_0000 == b % 0x800_0000 {
        assert(table_index(a, 0) == table_index(b, 0));
        assert(table_index(a, 1) == table_index(b, 1));
        assert(table_index(a, 2) == table_index(b, 2));
    }
}

/// A page is 4096 bytes: rounding down takes an address to the multiple of that at most it,
/// rounding up to the one at least it, and they differ by a page unless the address is one.
pub proof fn law_pages_are_4096_bytes(a: int)
    requires
        0 <= a,
    ensures
        page_floor(a) == (a / 4096) * 4096,
        page_ceil(a) == ((a + 4095) / 4096) * 4096,
        page_ceil(a) - page_floor(a) == (if a % 4096 == 0 {
            0int
        } else {
            4096
        }),
{
}

/// The indices of a walk are the nine-bit digits of the page number: the root's is the most
/// significant of the three, and the last table's the least.
pub proof fn law_indices_are_digits(v: int)
    requires
        0 <= v,
    ensures
        0 <= table_index(v, 0) < 512,
        0 <= table_index(v, 1) < 512,
        0 <= table_index(v, 2) < 512,
        v % 0x800_0000 == table_index(v, 0) * 0x4_0000 + table_index(v, 1) * 0x200 + table_index(v, 2),
{
}

/// The canonical addresses are the lowest 2^38 and the highest 2^38; the latter are the
/// kernel's.
pub proof fn law_canonical_halves(a: VirtAddr)
    ensures
        a.spec_is_canonical() == (a.0 < 0x40_0000_0000 || a.0 >= 0xffff_ffc0_0000_0000),
        a.spec_is_kernel() == (a.0 >= 0xffff_ffc0_0000_0000),
{
}

/// The direct map has the byte of physical address `p` at a fixed distance from it.
pub proof fn law_direct_map_is_an_offset(p: PhysAddr, v: VirtAddr)
    requires
        p.0 < 0x40_0000_0000,
        v.0 >= 0xffff_ffc0_0000_0000,
    ensures
        p.spec_to_virt().0 == p.0 + 0xffff_ffc0_0000_0000,
        v.spec_to_phys().0 == v.0 - 0xffff_ffc0_0000_0000,
        v.spec_vpn().0 == v.0 / 4096,
{
}

} // verus!
