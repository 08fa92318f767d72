//! The register state saved across a trap.

use vstd::prelude::*;
use crate::arch::sstatus_bits;
use crate::bits;

verus! {

/// Every register a trap has to preserve.
///
/// The field order is load-bearing: the trap entry indexes the frame by hand,
/// with `x[i]` at byte offset `i * 8`, `sstatus` at 256 and `sepc` at 264.
///
/// `x[0]` is the zero register and is never restored; the slot exists so that
/// register *n* lives at offset *n*.
#[derive(Clone, Copy)]
pub struct TrapFrame {
    /// General purpose registers x0 through x31.
    pub x: [u64; 32],
    /// Supervisor status at the moment of the trap. Carries SPP (the privilege
    /// level to return to) and SPIE (the interrupt state to restore).
    pub sstatus: u64,
    /// Address to resume at.
    pub sepc: u64,
    /// Kernel stack pointer for the task, reloaded on entry from user mode.
    pub kernel_sp: u64,
    /// `satp` of the kernel address space, so the user trap path can switch out
    /// of the user space it arrived in.
    pub kernel_satp: u64,
    /// Where the trap entry jumps after saving state.
    pub kernel_trap: u64,
    /// Hart id, reloaded into `tp` on kernel entry.
    pub kernel_hartid: u64,
}

/// Does `sstatus` say that user mode was interrupted?
pub open spec fn user_status(sstatus: u64) -> bool {
    !bits::bit_of(sstatus, 8)
}

/// The status a user task starts from: `sstatus` with SPP and SIE clear and SPIE
/// set.
pub open spec fn entry_status(sstatus: u64) -> u64 {
    ((sstatus & !0x100u64) | 0x20) & !0x2u64
}

/// What the starting status is, bit by bit.
pub proof fn lemma_entry_status(s: u64, k: u64)
    by (bit_vector)
    requires
        k < 64,
    ensures
        bits::bit_of(entry_status(s), k) == (if k == 8 || k == 1 {
            false
        } else if k == 5 {
            true
        } else {
            bits::bit_of(s, k)
        }),
        (s & 0x100 == 0) == user_status(s),
{
}

impl TrapFrame {
    /// All registers zero.
    pub fn default() -> (r: TrapFrame)
        ensures
            forall|i: int| 0 <= i < 32 ==> #[trigger] r.x@[i] == 0,
            r.sstatus == 0,
            r.sepc == 0,
            r.kernel_sp == 0,
            r.kernel_satp == 0,
            r.kernel_trap == 0,
            r.kernel_hartid == 0,
    {
        TrapFrame {
            x: [0u64;32],
            sstatus: 0,
            sepc: 0,
            kernel_sp: 0,
            kernel_satp: 0,
            kernel_trap: 0,
            kernel_hartid: 0,
        }
    }

    /// Return address, `x1`.
    pub fn ra(&self) -> (r: u64)
        ensures
            r == self.x@[1],
    {
        self.x[1]
    }

    /// Stack pointer, `x2`.
    pub fn sp(&self) -> (r: u64)
        ensures
            r == self.x@[2],
    {
        self.x[2]
    }

    /// `self` with register `i` holding `v`.
    pub open spec fn with_x(&self, other: TrapFrame, i: int, v: u64) -> bool {
        &&& other.x@ == self.x@.update(i, v)
        &&& other.sstatus == self.sstatus
        &&& other.sepc == self.sepc
        &&& other.kernel_sp == self.kernel_sp
        &&& other.kernel_satp == self.kernel_satp
        &&& other.kernel_trap == self.kernel_trap
        &&& other.kernel_hartid == self.kernel_hartid
    }

    /// Set the stack pointer.
    pub fn set_sp(&mut self, sp: u64)
        ensures
            old(self).with_x(*final(self), 2, sp),
    {
        self.x[2] = sp;
    }

    /// Syscall argument *n*, from `a0`..`a5` (`x10`..`x15`).
    pub fn arg(&self, n: usize) -> (r: u64)
        requires
            n < 6,
        ensures
            r == self.x@[10 + n],
    {
        self.x[10 + n]
    }

    /// Set argument register *n*.
    pub fn set_arg(&mut self, n: usize, value: u64)
        requires
            n < 6,
        ensures
            old(self).with_x(*final(self), 10 + n, value),
    {
        self.x[10 + n] = value;
    }

    /// Syscall number, from `a7` (`x17`).
    pub fn syscall_id(&self) -> (r: u64)
        ensures
            r == self.x@[17],
    {
        self.x[17]
    }

    /// Set the syscall return value in `a0`.
    pub fn set_return(&mut self, value: u64)
        ensures
            old(self).with_x(*final(self), 10, value),
    {
        self.x[10] = value;
    }

    /// Did this trap come from user mode?
    ///
    /// SPP records the privilege level that was interrupted: 0 for user, 1 for
    /// supervisor.
    pub fn from_user(&self) -> (r: bool)
        ensures
            r == user_status(self.sstatus),
    {
        proof {
            lemma_entry_status(self.sstatus, 0);
        }
        self.sstatus & sstatus_bits::SPP == 0
    }

    /// The frame of a user task that has not run yet: every register is zero but
    /// for the stack pointer.
    pub open spec fn fresh(&self, entry: u64, user_sp: u64, kernel_sp: u64, kernel_satp: u64, sstatus: u64) -> bool {
        &&& forall|i: int|
            0 <= i < 32 ==> #[trigger] self.x@[i] == (if i == 2 {
                user_sp
            } else {
                0
            })
        &&& self.sstatus == entry_status(sstatus)
        &&& self.sepc == entry
        &&& self.kernel_sp == kernel_sp
        &&& self.kernel_satp == kernel_satp
        &&& self.kernel_trap == 0
        &&& self.kernel_hartid == 0
    }

    /// Build the frame a brand-new user task starts from, where `sstatus` is the
    /// status of the hart.
    ///
    /// SPP is cleared so `sret` drops to user mode, and SPIE is set so that the
    /// same `sret` enables interrupts -- otherwise the task runs with them masked
    /// and can never be preempted. SIE is cleared: interrupts stay masked for the
    /// handful of instructions between loading this frame and the `sret`.
    pub fn new_user(entry: u64, user_sp: u64, kernel_sp: u64, kernel_satp: u64, sstatus: u64) -> (r: TrapFrame)
        ensures
            r.fresh(entry, user_sp, kernel_sp, kernel_satp, sstatus),
    {
        let status: u64 = ((sstatus & !sstatus_bits::SPP) | sstatus_bits::SPIE) & !sstatus_bits::SIE;
        let mut frame: TrapFrame = TrapFrame::default();
        frame.sstatus = status;
        frame.sepc = entry;
        frame.kernel_sp = kernel_sp;
        frame.kernel_satp = kernel_satp;
        frame.set_sp(user_sp);
        frame
    }
}

/// A new user task starts in user mode, and is preemptible from its first
/// instruction on: interrupts are off until `sret` and on after it.
pub proof fn law_new_user_is_preemptible(
    f: TrapFrame,
    entry: u64,
    user_sp: u64,
    kernel_sp: u64,
    kernel_satp: u64,
    sstatus: u64,
)
    requires
        f.fresh(entry, user_sp, kernel_sp, kernel_satp, sstatus),
    ensures
        user_status(f.sstatus),
        bits::bit_of(f.sstatus, 5),
        !bits::bit_of(f.sstatus, 1),
{
    lemma_entry_status(sstatus, 8);
    lemma_entry_status(sstatus, 5);
    lemma_entry_status(sstatus, 1);
}

/// Of the status of the hart a new user task changes three bits and keeps the rest.
pub proof fn law_entry_status_keeps_the_rest(s: u64, k: u64)
    requires
        k < 64,
        k != 8,
        k != 5,
        k != 1,
    ensures
        bits::bit_of(entry_status(s), k) == bits::bit_of(s, k),
        !bits::bit_of(entry_status(s), 8),
        bits::bit_of(entry_status(s), 5),
        !bits::bit_of(entry_status(s), 1),
        user_status(s) == !bits::bit_of(s, 8),
{
    lemma_entry_status(s, k);
    lemma_entry_status(s, 8);
    lemma_entry_status(s, 5);
    lemma_entry_status(s, 1);
}

} // verus!
