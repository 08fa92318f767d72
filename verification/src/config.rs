//! Compile-time layout of the machine and of the kernel's address space.
//!
//! The physical numbers describe QEMU's `virt` board.

use vstd::prelude::*;

verus! {

/// Bytes per page.
pub const PAGE_SIZE: u64 = 4096;

/// `log2(PAGE_SIZE)`: the shift that turns an address into a page number.
pub const PAGE_SHIFT: u64 = 12;

/// Sv39: 39-bit virtual addresses, three levels of 512-entry tables.
pub const SV39_LEVELS: u64 = 3;

/// Entries in one page table: 4096 bytes / 8 bytes per entry.
pub const PTE_PER_TABLE: u64 = 512;

/// Direct map base. Physical address `p` is readable at `p + VIRT_OFFSET` for
/// the lifetime of the kernel.
///
/// This is the lowest address whose bit 38 is set, i.e. the first valid
/// upper-half Sv39 address; the window it opens is 256 GiB wide.
pub const VIRT_OFFSET: u64 = 0xffff_ffc0_0000_0000;

/// Pages of the direct map that can hold frames: all of its 256 GiB window but
/// the last 4 MiB, so that the address past a run of frames is a word too.
pub const DIRECT_MAP_PAGES: u64 = 0x3ff_fc00;

/// Where OpenSBI hands off, and therefore where the kernel image is loaded.
pub const KERNEL_PHYS_BASE: u64 = 0x8020_0000;

/// Start of DRAM on the `virt` board. The 2 MiB below `KERNEL_PHYS_BASE`
/// belongs to OpenSBI and must never be handed to the frame allocator.
pub const DRAM_BASE: u64 = 0x8000_0000;

/// Default DRAM size QEMU gives us (`-m 128M`).
pub const DRAM_SIZE: u64 = 128 * 1024 * 1024;

/// Kernel heap size reserved by the layout.
pub const KERNEL_HEAP_SIZE: u64 = 8 * 1024 * 1024;

/// Boot stack per hart.
pub const BOOT_STACK_SIZE: u64 = 64 * 1024;

/// Kernel stack given to each task.
pub const KERNEL_STACK_SIZE: u64 = 32 * 1024;

/// Harts the kernel is willing to bring up.
pub const MAX_HARTS: usize = 4;

/// Scheduling quantum in milliseconds.
pub const TICK_MS: u64 = 10;

/// Frequency of the `time` counter on the `virt` board, in Hz.
pub const TIMER_FREQ: u64 = 10_000_000;

/// Where `exec` places the ELF image. Page 0 is left unmapped so that a null
/// dereference in user code faults instead of silently succeeding.
pub const USER_IMAGE_BASE: u64 = 0x0000_0000_0001_0000;

/// Top of the user stack; it grows down from here.
pub const USER_STACK_TOP: u64 = 0x0000_003f_ffff_f000;

/// Initial user stack size.
pub const USER_STACK_SIZE: u64 = 256 * 1024;

/// Base of the user heap managed by `sbrk`.
pub const USER_HEAP_BASE: u64 = 0x0000_0000_1000_0000;

/// Highest address a user program may name. Anything above this belongs to the
/// kernel and is rejected by the syscall argument validator.
pub const USER_MAX_ADDR: u64 = 0x0000_0040_0000_0000;

/// Core-local interruptor: per-hart timer compare and software interrupts.
pub const CLINT_BASE: u64 = 0x0200_0000;

/// Platform-level interrupt controller.
pub const PLIC_BASE: u64 = 0x0c00_0000;

/// NS16550A UART.
pub const UART_BASE: u64 = 0x1000_0000;

/// PLIC source number the UART is wired to.
pub const UART_IRQ: u32 = 10;

/// VirtIO MMIO transport: eight 4 KiB slots, IRQs 1 through 8.
pub const VIRTIO_MMIO_BASE: u64 = 0x1000_1000;

/// Bytes between consecutive transport slots.
pub const VIRTIO_MMIO_STRIDE: u64 = 0x1000;

/// Number of slots to probe.
pub const VIRTIO_MMIO_SLOTS: u64 = 8;

/// PLIC source number of slot 0; slot *n* is `VIRTIO_IRQ_BASE + n`.
pub const VIRTIO_IRQ_BASE: u32 = 1;

/// SiFive test finisher: writing here exits QEMU.
pub const TEST_DEVICE_BASE: u64 = 0x0010_0000;

/// Filesystem block size, equal to `PAGE_SIZE`.
pub const BLOCK_SIZE: u64 = 4096;

/// Blocks held in the buffer cache.
pub const BLOCK_CACHE_CAPACITY: u64 = 256;

} // verus!
