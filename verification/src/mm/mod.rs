//! Memory management.
//!
//! Layered bottom-up:
//!
//! ```text
//!   addr        typed addresses and page numbers
//!   dram        the contents of physical memory
//!   buddy       the buddy system over its frames
//!   frame       memory, and the frames handed out of it
//!   heap        size-class allocator, refilled from frames
//!   page_table  Sv39 walks
//!   space       address spaces composed of mapped regions
//!   usercopy    access to user memory
//!   duplicate   copying an address space
//!   kernel      the kernel's own address space
//!   cost        what that costs in page tables
//! ```

use vstd::prelude::*;
use crate::config::{DRAM_BASE, DRAM_SIZE, PAGE_SIZE, VIRT_OFFSET};

pub mod addr;
pub mod buddy;
pub mod cost;
pub mod dram;
pub mod duplicate;
pub mod frame;
pub mod heap;
pub mod kernel;
pub mod page_table;
pub mod space;
pub mod usercopy;

use frame::Memory;

pub use addr::{PhysAddr, PhysPageNum, VirtAddr, VirtPageNum};

verus! {

/// Translate a kernel virtual address in the direct map to its physical address.
pub fn virt_to_phys(vaddr: u64) -> (r: u64)
    requires
        vaddr >= VIRT_OFFSET,
    ensures
        r == vaddr - VIRT_OFFSET,
{
    vaddr - VIRT_OFFSET
}

/// Translate a physical address to its direct-map virtual address.
pub fn phys_to_virt(paddr: u64) -> (r: u64)
    requires
        paddr + VIRT_OFFSET <= u64::MAX,
    ensures
        r == paddr + VIRT_OFFSET,
{
    paddr + VIRT_OFFSET
}

/// First physical address not occupied by the kernel image, whose last byte is
/// just below the direct-map address `kernel_end`.
pub fn kernel_end_phys(kernel_end: u64) -> (r: u64)
    requires
        kernel_end >= VIRT_OFFSET,
    ensures
        r == kernel_end - VIRT_OFFSET,
{
    virt_to_phys(kernel_end)
}

/// Size in bytes of the kernel image loaded at `[kernel_start, kernel_end)`.
pub fn kernel_image_size(kernel_start: u64, kernel_end: u64) -> (r: u64)
    requires
        kernel_start <= kernel_end,
    ensures
        r == kernel_end - kernel_start,
{
    kernel_end - kernel_start
}

/// Bring up physical memory management: hand every frame between the end of the
/// kernel image and the top of DRAM to the allocator, and say how many can be
/// used.
pub fn init(mem: &mut Memory, kernel_end: u64) -> (total: u64)
    requires
        old(mem).wf(),
        VIRT_OFFSET <= kernel_end,
        addr::page_ceil(kernel_end - VIRT_OFFSET) < DRAM_BASE + DRAM_SIZE,
        old(mem).dram().first() * PAGE_SIZE <= kernel_end - VIRT_OFFSET,
        DRAM_BASE + DRAM_SIZE <= (old(mem).dram().first() + old(mem).dram().len()) * PAGE_SIZE,
    ensures
        final(mem).wf(),
        total == final(mem).total(),
        final(mem).free() == final(mem).total(),
        ({
            let first = addr::page_ceil(kernel_end - VIRT_OFFSET) / 4096;
            let last = (DRAM_BASE + DRAM_SIZE) / 4096;
            let base = buddy::managed_base(first, last - first);
            &&& final(mem).allocator().spec_base() == base
            &&& final(mem).total() == (if base < last {
                last - base
            } else {
                0
            })
        }),
        forall|p: int| !#[trigger] final(mem).used(p),
{
    frame::init(mem, kernel_end, PhysAddr(DRAM_BASE + DRAM_SIZE));
    mem.total_frames()
}

/// The two directions of the direct map undo each other.
pub proof fn law_direct_map_round_trip(paddr: int)
    requires
        0 <= paddr,
        paddr + VIRT_OFFSET <= u64::MAX,
    ensures
        (PhysAddr(paddr as u64).spec_to_virt()).spec_to_phys() == PhysAddr(paddr as u64),
        (PhysAddr(paddr as u64).spec_to_virt()).spec_is_kernel(),
{
}

} // verus!
