//! `sie`/`sip` bit positions.

use vstd::prelude::*;

verus! {

/// Supervisor software interrupt (IPI).
pub const SSIE: u64 = 0x2;

/// Supervisor timer interrupt.
pub const STIE: u64 = 0x20;

/// Supervisor external interrupt (PLIC).
pub const SEIE: u64 = 0x200;

} // verus!
