//! Supervisor Binary Interface bindings.
//!
//! Everything the kernel cannot do from S-mode -- setting the machine timer,
//! sending IPIs, starting secondary harts, powering the board off -- goes through
//! the firmware via `ecall`. The calling convention is: extension id in a7,
//! function id in a6, arguments in a0..a5, and a two-register return of
//! `(error, value)` in a0/a1. The functions here say which call to make.

use vstd::prelude::*;

verus! {

/// The timer extension, "TIME".
pub const EID_TIME: u64 = 0x5449_4D45;

/// The inter-processor interrupt extension, "sPI".
pub const EID_IPI: u64 = 0x0073_5049;

/// The remote fence extension, "RFNC".
pub const EID_RFNC: u64 = 0x5246_4E43;

/// The hart state management extension, "HSM".
pub const EID_HSM: u64 = 0x0048_534D;

/// The system reset extension, "SRST".
pub const EID_SRST: u64 = 0x5352_5354;

/// The debug console extension, "DBCN".
pub const EID_DBCN: u64 = 0x4442_434E;

/// Legacy console output.
pub const EID_LEGACY_PUTCHAR: u64 = 0x01;

/// Legacy console input.
pub const EID_LEGACY_GETCHAR: u64 = 0x02;

/// Legacy shutdown.
pub const EID_LEGACY_SHUTDOWN: u64 = 0x08;

/// A call to make.
#[derive(Debug, Clone, Copy, PartialEq, Eq, Structural)]
pub struct Call {
    /// Extension.
    pub eid: u64,
    /// Function.
    pub fid: u64,
    /// First argument.
    pub arg0: u64,
    /// Second argument.
    pub arg1: u64,
    /// Third argument.
    pub arg2: u64,
}

/// Return value of an SBI call: a negative error code plus a payload.
#[derive(Debug, Clone, Copy, PartialEq, Eq, Structural)]
pub struct SbiRet {
    /// `0` on success, a negative SBI error code otherwise.
    pub error: i64,
    /// Call-specific payload, meaningful only when `error == 0`.
    pub value: u64,
}

impl SbiRet {
    /// `true` when the firmware reported success.
    pub fn is_ok(self) -> (r: bool)
        ensures
            r == (self.error == 0),
    {
        self.error == 0
    }
}

/// Program the next supervisor timer interrupt for absolute `mtime` value
/// `stime`. A time in the past fires immediately; there is no way to cancel other
/// than scheduling one far in the future.
pub fn set_timer(stime: u64) -> (r: Call)
    ensures
        r == (Call { eid: EID_TIME, fid: 0, arg0: stime, arg1: 0, arg2: 0 }),
{
    Call { eid: EID_TIME, fid: 0, arg0: stime, arg1: 0, arg2: 0 }
}

/// Post a software interrupt to every hart selected by `hart_mask`, which is a
/// bitmap whose bit *i* refers to hart `hart_mask_base + i`.
pub fn send_ipi(hart_mask: u64, hart_mask_base: u64) -> (r: Call)
    ensures
        r == (Call { eid: EID_IPI, fid: 0, arg0: hart_mask, arg1: hart_mask_base, arg2: 0 }),
{
    Call { eid: EID_IPI, fid: 0, arg0: hart_mask, arg1: hart_mask_base, arg2: 0 }
}

/// Broadcast a remote `sfence.vma` so other harts drop stale TLB entries after
/// this hart edits a shared page table.
pub fn remote_sfence_vma(hart_mask: u64, hart_mask_base: u64) -> (r: Call)
    ensures
        r == (Call { eid: EID_RFNC, fid: 1, arg0: hart_mask, arg1: hart_mask_base, arg2: 0 }),
{
    Call { eid: EID_RFNC, fid: 1, arg0: hart_mask, arg1: hart_mask_base, arg2: 0 }
}

/// Boot `hartid` at physical address `start_addr` with `opaque` left in a1.
pub fn hart_start(hartid: u64, start_addr: u64, opaque: u64) -> (r: Call)
    ensures
        r == (Call { eid: EID_HSM, fid: 0, arg0: hartid, arg1: start_addr, arg2: opaque }),
{
    Call { eid: EID_HSM, fid: 0, arg0: hartid, arg1: start_addr, arg2: opaque }
}

/// Query the HSM state of `hartid` (0 = started, 1 = stopped, ...).
pub fn hart_status(hartid: u64) -> (r: Call)
    ensures
        r == (Call { eid: EID_HSM, fid: 2, arg0: hartid, arg1: 0, arg2: 0 }),
{
    Call { eid: EID_HSM, fid: 2, arg0: hartid, arg1: 0, arg2: 0 }
}

/// The call that writes byte `c`.
pub open spec fn putchar_call(c: u8) -> Call {
    Call { eid: EID_LEGACY_PUTCHAR, fid: 0, arg0: c as u64, arg1: 0, arg2: 0 }
}

/// Write one byte to the firmware console: one trap per character, but it works
/// from the first instruction of the kernel and keeps working when the UART driver
/// has faulted.
pub fn console_putchar(c: u8) -> (r: Call)
    ensures
        r == putchar_call(c),
{
    Call { eid: EID_LEGACY_PUTCHAR, fid: 0, arg0: c as u64, arg1: 0, arg2: 0 }
}

/// The call that asks for a byte of console input.
pub fn getchar_call() -> (r: Call)
    ensures
        r == (Call { eid: EID_LEGACY_GETCHAR, fid: 0, arg0: 0, arg1: 0, arg2: 0 }),
{
    Call { eid: EID_LEGACY_GETCHAR, fid: 0, arg0: 0, arg1: 0, arg2: 0 }
}

/// The byte that the firmware console had, or `None` if nothing was buffered,
/// where `ret` answered [`getchar_call`]: the legacy call returns the character in
/// a0 and -1 when the queue is dry.
pub fn console_getchar(ret: SbiRet) -> (r: Option<u8>)
    ensures
        r == (if ret.error == -1 {
            None
        } else {
            Some(ret.error as u8)
        }),
{
    if ret.error == -1 {
        None
    } else {
        Some(
            #[verifier::truncate]
            (ret.error as u8),
        )
    }
}

/// Write `len` bytes at physical address `phys` through the debug console
/// extension in one call.
pub fn write_call(len: u64, phys: u64) -> (r: Call)
    ensures
        r == (Call { eid: EID_DBCN, fid: 0, arg0: len, arg1: phys, arg2: 0 }),
{
    Call { eid: EID_DBCN, fid: 0, arg0: len, arg1: phys, arg2: 0 }
}

/// What is left to do to write `bytes`, where `ret` answered [`write_call`]:
/// nothing, or the byte-at-a-time legacy path on firmware that predates the
/// extension.
pub fn console_write(bytes: &[u8], ret: SbiRet) -> (r: Vec<Call>)
    ensures
        r@ == (if ret.error == 0 {
            Seq::empty()
        } else {
            Seq::new(bytes@.len(), |i: int| putchar_call(bytes@[i]))
        }),
{
    let mut calls: Vec<Call> = Vec::new();
    if !ret.is_ok() {
        let mut i: usize = 0;
        while i < bytes.len()
            invariant
                i == calls@.len() <= bytes@.len(),
                forall|j: int| 0 <= j < i ==> #[trigger] calls@[j] == putchar_call(bytes@[j]),
            decreases bytes@.len() - i,
        {
            calls.push(console_putchar(bytes[i]));
            i = i + 1;
        }
        assert(calls@ =~= Seq::new(bytes@.len(), |i: int| putchar_call(bytes@[i])));
    }
    calls
}

/// Reset type argument to `system_reset`.
#[derive(Debug, Clone, Copy, PartialEq, Eq, Structural)]
pub enum ResetType {
    /// Power off.
    Shutdown,
    /// Full power cycle.
    ColdReboot,
    /// Restart without cycling power.
    WarmReboot,
}

/// The number of a reset type.
pub open spec fn reset_code(reason: ResetType) -> u64 {
    match reason {
        ResetType::Shutdown => 0,
        ResetType::ColdReboot => 1,
        ResetType::WarmReboot => 2,
    }
}

/// Power the board down: the calls to make, in order. System reset is optional, so
/// the legacy shutdown call follows; if that returns too, the caller is to spin.
pub fn shutdown(reason: ResetType) -> (r: (Call, Call))
    ensures
        r.0 == (Call { eid: EID_SRST, fid: 0, arg0: reset_code(reason), arg1: 0, arg2: 0 }),
        r.1 == (Call { eid: EID_LEGACY_SHUTDOWN, fid: 0, arg0: 0, arg1: 0, arg2: 0 }),
{
    let code: u64 = match reason {
        ResetType::Shutdown => 0,
        ResetType::ColdReboot => 1,
        ResetType::WarmReboot => 2,
    };
    (
        Call { eid: EID_SRST, fid: 0, arg0: code, arg1: 0, arg2: 0 },
        Call { eid: EID_LEGACY_SHUTDOWN, fid: 0, arg0: 0, arg1: 0, arg2: 0 },
    )
}

/// The numbers of the firmware's extensions are the letters of their names.
pub proof fn law_extensions_have_their_numbers(c: u8)
    ensures
        EID_TIME == 0x54 * 0x100_0000 + 0x49 * 0x1_0000 + 0x4d * 0x100 + 0x45,
        EID_IPI == 0x73 * 0x1_0000 + 0x50 * 0x100 + 0x49,
        EID_RFNC == 0x52 * 0x100_0000 + 0x46 * 0x1_0000 + 0x4e * 0x100 + 0x43,
        EID_HSM == 0x48 * 0x1_0000 + 0x53 * 0x100 + 0x4d,
        EID_SRST == 0x53 * 0x100_0000 + 0x52 * 0x1_0000 + 0x53 * 0x100 + 0x54,
        EID_DBCN == 0x44 * 0x100_0000 + 0x42 * 0x1_0000 + 0x43 * 0x100 + 0x4e,
        putchar_call(c).eid == 1,
        putchar_call(c).arg0 == c,
        reset_code(ResetType::Shutdown) == 0,
        reset_code(ResetType::ColdReboot) == 1,
        reset_code(ResetType::WarmReboot) == 2,
{
}

} // verus!
