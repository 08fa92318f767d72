//! Trap handling: the single door through which every interrupt and exception
//! enters the kernel.
//!
//! RISC-V funnels everything through `stvec` and reports the reason in `scause`,
//! whose top bit separates interrupts from exceptions. The kernel runs in Direct
//! mode: one entry point that dispatches in software.
//!
//! Exceptions taken in supervisor mode are bugs: the kernel does not fault on its
//! own memory by design.

use vstd::prelude::*;

pub mod context;

use crate::arch::{int_bits, sstatus_bits, Hart};
use crate::config::{PAGE_SIZE, USER_MAX_ADDR, VIRT_OFFSET};

pub use context::TrapFrame;

verus! {

/// `scause` values, decoded.
#[derive(Debug, Clone, Copy, PartialEq, Eq, Structural)]
pub enum Cause {
    /// Another hart sent an IPI.
    SoftwareInterrupt,
    /// The timer fired: a scheduling quantum expired.
    TimerInterrupt,
    /// A device raised an interrupt through the PLIC.
    ExternalInterrupt,
    /// A `ecall` from user mode: a system call.
    UserEcall,
    /// Instruction fetch, load, or store hit an invalid or forbidden mapping.
    PageFault(FaultKind),
    /// The instruction is not legal at this privilege level.
    IllegalInstruction,
    /// `ebreak`.
    Breakpoint,
    /// Misaligned or out-of-range access that the MMU rejected outright.
    AccessFault(FaultKind),
    /// Anything the kernel does not decode.
    Unknown(u64),
}

/// Which kind of access caused a fault.
#[derive(Debug, Clone, Copy, PartialEq, Eq, Structural)]
pub enum FaultKind {
    /// Instruction fetch.
    Fetch,
    /// Load.
    Load,
    /// Store or AMO.
    Store,
}

/// Bit 63 of `scause`, which marks an interrupt.
pub const INTERRUPT: u64 = 0x8000_0000_0000_0000;

/// What `scause` says.
pub open spec fn cause_of(scause: u64) -> Cause {
    if scause == INTERRUPT + 1 {
        Cause::SoftwareInterrupt
    } else if scause == INTERRUPT + 5 {
        Cause::TimerInterrupt
    } else if scause == INTERRUPT + 9 {
        Cause::ExternalInterrupt
    } else if scause == 2 {
        Cause::IllegalInstruction
    } else if scause == 3 {
        Cause::Breakpoint
    } else if scause == 5 {
        Cause::AccessFault(FaultKind::Load)
    } else if scause == 7 {
        Cause::AccessFault(FaultKind::Store)
    } else if scause == 8 {
        Cause::UserEcall
    } else if scause == 12 {
        Cause::PageFault(FaultKind::Fetch)
    } else if scause == 13 {
        Cause::PageFault(FaultKind::Load)
    } else if scause == 15 {
        Cause::PageFault(FaultKind::Store)
    } else {
        Cause::Unknown(scause)
    }
}

proof fn lemma_top_bit(s: u64)
    by (bit_vector)
    ensures
        (s >> 63 != 0) == (s >= 0x8000_0000_0000_0000),
        s & !(1u64 << 63) == (if s >= 0x8000_0000_0000_0000 {
            (s - 0x8000_0000_0000_0000) as u64
        } else {
            s
        }),
{
}

impl Cause {
    /// Decode `scause`.
    ///
    /// The top bit distinguishes interrupts from exceptions; the remaining bits
    /// are a small dense code whose meaning differs between the two.
    pub fn decode(scause: u64) -> (r: Cause)
        ensures
            r == cause_of(scause),
    {
        proof {
            lemma_top_bit(scause);
        }
        let is_interrupt: bool = scause >> 63 != 0;
        let code: u64 = scause & !(1u64 << 63);
        if is_interrupt {
            match code {
                1 => Cause::SoftwareInterrupt,
                5 => Cause::TimerInterrupt,
                9 => Cause::ExternalInterrupt,
                _ => Cause::Unknown(scause),
            }
        } else {
            match code {
                2 => Cause::IllegalInstruction,
                3 => Cause::Breakpoint,
                5 => Cause::AccessFault(FaultKind::Load),
                7 => Cause::AccessFault(FaultKind::Store),
                8 => Cause::UserEcall,
                12 => Cause::PageFault(FaultKind::Fetch),
                13 => Cause::PageFault(FaultKind::Load),
                15 => Cause::PageFault(FaultKind::Store),
                _ => Cause::Unknown(scause),
            }
        }
    }
}

/// Unmask the interrupt sources the kernel handles.
pub fn enable_interrupts(hart: &mut Hart)
    ensures
        *final(hart) == (Hart {
            sie: old(hart).sie | 0x222,
            sstatus: crate::arch::with_enable(old(hart).sstatus, true),
            ..*old(hart)
        }),
{
    proof {
        lemma_sources();
    }
    hart.sie = hart.sie | (int_bits::STIE | int_bits::SEIE | int_bits::SSIE);
    crate::arch::intr_enable(hart);
}

proof fn lemma_sources()
    by (bit_vector)
    ensures
        0x20u64 | 0x200 | 0x2 == 0x222,
{
}

/// What a trap taken in supervisor mode asks for.
#[derive(Debug, Clone, Copy, PartialEq, Eq, Structural)]
pub enum Response {
    /// Account the quantum and arm the next tick.
    Tick,
    /// Service the interrupt controller.
    External,
    /// The pending bit was cleared; nothing more.
    Acknowledged,
    /// A bug: report it and stop.
    Fatal,
}

/// Decide what a supervisor trap asks for. A software interrupt is acknowledged
/// here: leaving its bit pending would trap again at once.
pub fn kernel_trap_handler(hart: &mut Hart, cause: Cause) -> (r: Response)
    ensures
        r == (match cause {
            Cause::TimerInterrupt => Response::Tick,
            Cause::ExternalInterrupt => Response::External,
            Cause::SoftwareInterrupt => Response::Acknowledged,
            _ => Response::Fatal,
        }),
        *final(hart) == (if cause == Cause::SoftwareInterrupt {
            Hart { sip: old(hart).sip & !2u64, ..*old(hart) }
        } else {
            *old(hart)
        }),
{
    match cause {
        Cause::TimerInterrupt => Response::Tick,
        Cause::ExternalInterrupt => Response::External,
        Cause::SoftwareInterrupt => {
            hart.sip = hart.sip & !int_bits::SSIE;
            Response::Acknowledged
        },
        _ => Response::Fatal,
    }
}

/// Where a faulting address landed.
#[derive(Debug, Clone, Copy, PartialEq, Eq, Structural)]
pub enum AddressNote {
    /// Null dereference.
    Null,
    /// User address touched from the kernel without a checked copy.
    User,
    /// Non-canonical address: bits 63:39 do not replicate bit 38.
    NonCanonical,
    /// Kernel address, but the mapping does not permit this access.
    Kernel,
}

/// Say something useful about where a faulting address landed. A kernel bug is
/// much easier to place when the message distinguishes "wrote to .text" from
/// "dereferenced null".
pub fn describe_address(addr: u64) -> (r: AddressNote)
    ensures
        r == AddressNote::Null <==> addr < PAGE_SIZE,
        r == AddressNote::User <==> PAGE_SIZE <= addr < USER_MAX_ADDR,
        r == AddressNote::NonCanonical <==> USER_MAX_ADDR <= addr < VIRT_OFFSET,
        r == AddressNote::Kernel <==> VIRT_OFFSET <= addr,
{
    if addr < PAGE_SIZE {
        AddressNote::Null
    } else if addr < USER_MAX_ADDR {
        AddressNote::User
    } else if addr < VIRT_OFFSET {
        AddressNote::NonCanonical
    } else {
        AddressNote::Kernel
    }
}

/// Is the given `sstatus` value from a trap that interrupted user mode?
pub fn was_user(sstatus: u64) -> (r: bool)
    ensures
        r == context::user_status(sstatus),
{
    proof {
        context::lemma_entry_status(sstatus, 0);
    }
    sstatus & sstatus_bits::SPP == 0
}

/// Interrupts are the causes with the top bit set, and no other cause is taken for one. Of
/// the exceptions a system call is number 8, and page faults are 12, 13 and 15.
pub proof fn law_causes_are_told_apart(scause: u64)
    ensures
        cause_of(scause) == Cause::SoftwareInterrupt <==> scause == 0x8000_0000_0000_0001,
        cause_of(scause) == Cause::TimerInterrupt <==> scause == 0x8000_0000_0000_0005,
        cause_of(scause) == Cause::ExternalInterrupt <==> scause == 0x8000_0000_0000_0009,
        cause_of(scause) == Cause::UserEcall <==> scause == 8,
        cause_of(scause) == Cause::IllegalInstruction <==> scause == 2,
        cause_of(scause) == Cause::Breakpoint <==> scause == 3,
        cause_of(scause) == Cause::AccessFault(FaultKind::Load) <==> scause == 5,
        cause_of(scause) == Cause::AccessFault(FaultKind::Store) <==> scause == 7,
        cause_of(scause) == Cause::PageFault(FaultKind::Fetch) <==> scause == 12,
        cause_of(scause) == Cause::PageFault(FaultKind::Load) <==> scause == 13,
        cause_of(scause) == Cause::PageFault(FaultKind::Store) <==> scause == 15,
        cause_of(scause) matches Cause::Unknown(c) ==> c == scause,
{
}

} // verus!
