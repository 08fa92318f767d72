//! The supervisor-mode state of a hart: the control and status registers that
//! the kernel's decisions read and write, and the interrupt-enable dance.

use vstd::prelude::*;

pub mod int_bits;
pub mod sstatus_bits;

use crate::bits;

verus! {

/// The control and status registers of one hart that the kernel decides about.
#[derive(Clone, Copy, Debug, PartialEq, Eq, Structural)]
pub struct Hart {
    /// Id of the hart, kept in `tp`.
    pub id: u64,
    /// Supervisor status: interrupt enables, previous mode.
    pub sstatus: u64,
    /// Per-source interrupt enables.
    pub sie: u64,
    /// Pending interrupts.
    pub sip: u64,
    /// Address translation root: the token of the address space that the hart runs in.
    pub satp: u64,
}

/// Is the supervisor interrupt enable bit of `sstatus` set?
pub open spec fn enabled(sstatus: u64) -> bool {
    bits::bit_of(sstatus, 1)
}

/// `sstatus` with the supervisor interrupt enable bit as `on` says.
pub open spec fn with_enable(sstatus: u64, on: bool) -> u64 {
    if on {
        sstatus | 2
    } else {
        sstatus & !2u64
    }
}

/// Setting a status bit changes that bit and no other.
pub proof fn lemma_enable(s: u64)
    by (bit_vector)
    ensures
        enabled(with_enable(s, true)),
        !enabled(with_enable(s, false)),
        enabled(s) ==> with_enable(with_enable(s, false), true) == s && with_enable(s, true) == s,
        !enabled(s) ==> with_enable(with_enable(s, true), false) == s && with_enable(s, false) == s,
        (s & 2 != 0) == enabled(s),
{
}

/// Id of the hart executing this code.
pub fn hart_id(hart: &Hart) -> (r: u64)
    ensures
        r == hart.id,
{
    hart.id
}

/// Are supervisor interrupts currently enabled on this hart?
pub fn intr_enabled(hart: &Hart) -> (r: bool)
    ensures
        r == enabled(hart.sstatus),
{
    proof {
        lemma_enable(hart.sstatus);
    }
    hart.sstatus & sstatus_bits::SIE != 0
}

/// Unmask supervisor interrupts.
pub fn intr_enable(hart: &mut Hart)
    ensures
        *final(hart) == (Hart { sstatus: with_enable(old(hart).sstatus, true), ..*old(hart) }),
        enabled(final(hart).sstatus),
{
    proof {
        lemma_enable(hart.sstatus);
    }
    hart.sstatus = hart.sstatus | sstatus_bits::SIE;
}

/// Mask supervisor interrupts.
pub fn intr_disable(hart: &mut Hart)
    ensures
        *final(hart) == (Hart { sstatus: with_enable(old(hart).sstatus, false), ..*old(hart) }),
        !enabled(final(hart).sstatus),
{
    proof {
        lemma_enable(hart.sstatus);
    }
    hart.sstatus = hart.sstatus & !sstatus_bits::SIE;
}

/// Run `f` with interrupts masked, restoring the previous state afterwards.
///
/// Nesting is safe: an inner call finds interrupts masked already and leaves them
/// so on exit, and only the outermost one unmasks them.
pub fn without_interrupts<T, F: FnOnce(&Hart) -> T>(hart: &mut Hart, f: F) -> (r: T)
    requires
        forall|h: Hart|
            h == (Hart { sstatus: with_enable(old(hart).sstatus, false), ..*old(hart) })
                ==> #[trigger] call_requires(f, (&h,)),
    ensures
        *final(hart) == *old(hart),
        call_ensures(
            f,
            (&(Hart { sstatus: with_enable(old(hart).sstatus, false), ..*old(hart) }),),
            r,
        ),
{
    let was_enabled: bool = intr_enabled(hart);
    proof {
        lemma_enable(hart.sstatus);
    }
    if was_enabled {
        intr_disable(hart);
    }
    let result: T = f(&*hart);
    if was_enabled {
        intr_enable(hart);
    }
    result
}

/// Interrupts are on when bit 1 of the status is set. Turning them on or off changes that
/// bit and no other.
pub proof fn law_one_bit_turns_interrupts(s: u64, on: bool, k: u64)
    requires
        k < 64,
    ensures
        enabled(with_enable(s, on)) == on,
        enabled(s) == ((s / 2) % 2 == 1),
        k != 1 ==> bits::bit_of(with_enable(s, on), k) == bits::bit_of(s, k),
{
    assert(((s | 2) >> 1u64) & 1 == 1 && ((s & !2u64) >> 1u64) & 1 == 0) by (bit_vector);
    assert((s / 2) % 2 == 1 <==> (s >> 1u64) & 1u64 != 0) by (bit_vector);
    assert(k != 1 ==> ((s | 2) >> k) & 1 == (s >> k) & 1 && ((s & !2u64) >> k) & 1 == (s >> k) & 1) by (bit_vector)
        requires
            k < 64,
    ;
}

} // verus!
