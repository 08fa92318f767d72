//! `sstatus` bit positions the kernel cares about.

use vstd::prelude::*;

verus! {

/// Supervisor Interrupt Enable.
pub const SIE: u64 = 0x2;

/// Interrupt enable state before the trap.
pub const SPIE: u64 = 0x20;

/// Privilege level before the trap: 0 = user, 1 = supervisor.
pub const SPP: u64 = 0x100;

/// Permit supervisor loads/stores to user pages.
pub const SUM: u64 = 0x4_0000;

/// Make supervisor loads from execute-only pages legal.
pub const MXR: u64 = 0x8_0000;

} // verus!
