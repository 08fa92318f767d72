//! Platform-Level Interrupt Controller.
//!
//! The PLIC multiplexes every device interrupt on the board onto the single
//! external-interrupt line each hart has. Its model is:
//!
//! * every source has a priority (0 disables it);
//! * every *context* -- a (hart, privilege level) pair -- has an enable bitmap
//!   and a threshold, and only sees sources above that threshold;
//! * a handler **claims** an interrupt, which returns the highest-priority
//!   pending source and atomically clears its pending bit, and must later
//!   **complete** it by writing the same id back.
//!
//! Context numbering on the `virt` board is `2 * hart + 1` for supervisor mode
//! (`2 * hart` is machine mode, which belongs to the firmware).

use vstd::prelude::*;
use crate::config::{PLIC_BASE, UART_IRQ};

verus! {

/// Per-source priority words, indexed by source id.
pub const PRIORITY: u64 = 0x0000;

/// Per-context enable bitmaps.
pub const ENABLE: u64 = 0x2000;

/// Bytes between one context's enable bitmap and the next.
pub const ENABLE_STRIDE: u64 = 0x80;

/// Per-context priority threshold.
pub const THRESHOLD: u64 = 0x20_0000;

/// Per-context claim/complete register.
pub const CLAIM: u64 = 0x20_0004;

/// Bytes between one context's threshold/claim pair and the next.
pub const CONTEXT_STRIDE: u64 = 0x1000;

/// An access to a register, by its physical address.
#[derive(Debug, Clone, Copy, PartialEq, Eq, Structural)]
pub enum Access {
    /// Write the value.
    Write(u64, u32),
    /// Read the register and write it back with the given bits set.
    SetBits(u64, u32),
}

/// Supervisor-mode context number for `hart`.
pub open spec fn context_of(hart: int) -> int {
    2 * hart + 1
}

/// Address of the threshold register of `hart`.
pub open spec fn threshold_at(hart: int) -> int {
    PLIC_BASE + THRESHOLD + context_of(hart) * CONTEXT_STRIDE
}

/// Address of the claim register of `hart`.
pub open spec fn claim_at(hart: int) -> int {
    PLIC_BASE + CLAIM + context_of(hart) * CONTEXT_STRIDE
}

/// Address of the priority register of `irq`.
pub open spec fn priority_at(irq: int) -> int {
    PLIC_BASE + PRIORITY + irq * 4
}

/// Address of the word of the enable bitmap of `hart` that holds the bit of
/// `irq`.
pub open spec fn enable_at(hart: int, irq: int) -> int {
    PLIC_BASE + ENABLE + context_of(hart) * ENABLE_STRIDE + irq / 32 * 4
}

/// The registers of `hart` have addresses.
pub open spec fn reaches(hart: int) -> bool {
    0 <= hart && claim_at(hart) <= u64::MAX
}

/// Supervisor-mode context number for `hart`.
pub fn context(hart: u64) -> (r: u64)
    requires
        context_of(hart as int) <= u64::MAX,
    ensures
        r == context_of(hart as int),
{
    2 * hart + 1
}

/// Set the priority of `irq`. Zero means "never deliver".
fn set_priority(irq: u32, priority: u32) -> (r: Access)
    ensures
        r == Access::Write(priority_at(irq as int) as u64, priority),
{
    Access::Write(PLIC_BASE + PRIORITY + irq as u64 * 4, priority)
}

/// Allow `irq` to reach `hart`'s supervisor context.
fn enable(hart: u64, irq: u32) -> (r: Access)
    requires
        reaches(hart as int),
    ensures
        r == Access::SetBits(enable_at(hart as int, irq as int) as u64, 1u32 << (irq % 32)),
{
    let word: u64 = ENABLE + context(hart) * ENABLE_STRIDE + (irq as u64 / 32) * 4;
    Access::SetBits(PLIC_BASE + word, 1u32 << (irq % 32))
}

/// Set the minimum priority `hart` will accept. Zero accepts everything.
fn set_threshold(hart: u64, threshold: u32) -> (r: Access)
    requires
        reaches(hart as int),
    ensures
        r == Access::Write(threshold_at(hart as int) as u64, threshold),
{
    Access::Write(PLIC_BASE + THRESHOLD + context(hart) * CONTEXT_STRIDE, threshold)
}

/// The register to read to claim an interrupt for `hart`, and to write to
/// complete one.
pub fn claim_register(hart: u64) -> (r: u64)
    requires
        reaches(hart as int),
    ensures
        r == claim_at(hart as int),
{
    PLIC_BASE + CLAIM + context(hart) * CONTEXT_STRIDE
}

/// The highest-priority pending interrupt, or `None` if there is none, where
/// `word` was read from the claim register.
pub fn claim(word: u32) -> (r: Option<u32>)
    ensures
        r == (if word == 0 {
            None
        } else {
            Some(word)
        }),
{
    if word == 0 {
        None
    } else {
        Some(word)
    }
}

/// Tell the PLIC that interrupt `irq` has been serviced and may fire again.
pub fn complete(hart: u64, irq: u32) -> (r: Access)
    requires
        reaches(hart as int),
    ensures
        r == Access::Write(claim_at(hart as int) as u64, irq),
{
    Access::Write(claim_register(hart), irq)
}

/// The accesses that route the board's device interrupts to `hart`: everything
/// above priority 0 is accepted, and the UART is given priority 1.
pub open spec fn bring_up(hart: int) -> Seq<Access> {
    seq![
        Access::Write(threshold_at(hart) as u64, 0),
        Access::Write(priority_at(UART_IRQ as int) as u64, 1),
        Access::SetBits(enable_at(hart, UART_IRQ as int) as u64, 1u32 << (UART_IRQ % 32)),
    ]
}

/// Route the board's device interrupts to this hart: the accesses to make, in
/// order.
///
/// The kernel has no interrupt prioritisation policy: all its sources are equally
/// urgent, and a threshold would only create ways to starve one.
pub fn init(hart: u64) -> (r: Vec<Access>)
    requires
        reaches(hart as int),
    ensures
        r@ == bring_up(hart as int),
{
    let mut w: Vec<Access> = Vec::new();
    w.push(set_threshold(hart, 0));
    w.push(set_priority(UART_IRQ, 1));
    w.push(enable(hart, UART_IRQ));
    assert(w@ =~= bring_up(hart as int));
    w
}

/// What to do about a claimed interrupt.
#[derive(Debug, Clone, Copy, PartialEq, Eq, Structural)]
pub enum Service {
    /// Nothing is pending: return from the interrupt.
    Finished,
    /// Drain the UART, make the access, and claim again.
    Uart(Access),
    /// Report that the source has no handler, make the access, and claim again.
    Unhandled(u32, Access),
}

/// One round of servicing the pending external interrupts of `hart`, where `word`
/// was read from its claim register.
///
/// Servicing goes on until nothing is pending, because the PLIC coalesces: two
/// devices raising at once produce a single external interrupt. Every claimed
/// source is completed, the unhandled ones too, or that source wedges.
pub fn handle_external_interrupt(hart: u64, word: u32) -> (r: Service)
    requires
        reaches(hart as int),
    ensures
        r == (if word == 0 {
            Service::Finished
        } else if word == UART_IRQ {
            Service::Uart(Access::Write(claim_at(hart as int) as u64, word))
        } else {
            Service::Unhandled(word, Access::Write(claim_at(hart as int) as u64, word))
        }),
{
    match claim(word) {
        None => Service::Finished,
        Some(irq) => {
            if irq == UART_IRQ {
                Service::Uart(complete(hart, irq))
            } else {
                Service::Unhandled(irq, complete(hart, irq))
            }
        },
    }
}

/// No two harts share a register of their contexts: bringing up one hart leaves
/// the others as they were.
pub proof fn law_contexts_are_apart(h: int, g: int)
    requires
        0 <= h,
        0 <= g,
        h != g,
    ensures
        claim_at(h) != claim_at(g),
        threshold_at(h) != threshold_at(g),
        claim_at(h) != threshold_at(g),
        forall|i: int, j: int|
            0 <= i < 1024 && 0 <= j < 1024 ==> #[trigger] enable_at(h, i) != #[trigger] enable_at(g, j),
{
}

/// Where the registers of a hart's supervisor context are, and those of a source.
pub proof fn law_registers_are_where_the_board_has_them(hart: int, irq: int)
    requires
        0 <= hart,
        0 <= irq,
    ensures
        threshold_at(hart) == 0xc20_1000 + hart * 0x2000,
        claim_at(hart) == threshold_at(hart) + 4,
        priority_at(irq) == 0xc00_0000 + 4 * irq,
        enable_at(hart, irq) == 0xc00_2080 + hart * 0x100 + 4 * (irq / 32),
{
}

/// Bringing a hart up lets every priority through and gives the console's interrupt, number
/// 10, a priority and its bit.
pub proof fn law_console_interrupts_get_through(hart: int)
    requires
        reaches(hart),
    ensures
        bring_up(hart).len() == 3,
        bring_up(hart)[0] == Access::Write((0xc20_1000 + hart * 0x2000) as u64, 0),
        bring_up(hart)[1] == Access::Write(0xc00_0028, 1),
        bring_up(hart)[2] == Access::SetBits((0xc00_2080 + hart * 0x100) as u64, 0x400),
{
    assert(1u32 << 10u32 == 0x400u32) by (bit_vector);
}

} // verus!
