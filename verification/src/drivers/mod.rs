//! Device drivers for the QEMU `virt` board.
//!
//! A driver says which register accesses to make and what to do with what was
//! read; the accesses themselves are made by its caller.

use vstd::prelude::*;

pub mod plic;
pub mod uart;

use crate::console::Console;

verus! {

/// Bring up the console before anything that might need to report a failure:
/// the register writes to make, after which output goes to the UART.
pub fn init_early(uart: &mut uart::Uart, console: &mut Console) -> (r: Vec<(u64, u8)>)
    ensures
        r@ == uart::bring_up(),
        final(uart).ready,
        final(uart).rx == old(uart).rx,
        final(uart).readers == old(uart).readers,
        final(console).uart_ready,
{
    uart::init(uart, console)
}

/// Bring up the interrupt controller for `hart`: the register accesses to make.
pub fn init_interrupts(hart: u64) -> (r: Vec<plic::Access>)
    requires
        plic::reaches(hart as int),
    ensures
        r@ == plic::bring_up(hart as int),
{
    plic::init(hart)
}

} // verus!
