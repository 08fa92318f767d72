//! SiFive test finisher.
//!
//! QEMU's `virt` board exposes a register that terminates the emulator with a
//! chosen exit status. That is the channel the kernel test harness uses to report
//! pass or fail.

use vstd::prelude::*;

verus! {

/// Finish with success.
pub const FINISH_PASS: u32 = 0x5555;

/// Finish with a failure, whose code stands in the upper 16 bits.
pub const FINISH_FAIL: u32 = 0x3333;

/// The value that ends QEMU with status 0.
pub fn exit_success() -> (r: u32)
    ensures
        r == FINISH_PASS,
{
    FINISH_PASS
}

proof fn lemma_failure()
    by (bit_vector)
    ensures
        0x3333u32 | (1u32 << 16) == 0x1_3333,
{
}

/// The value that ends QEMU with a non-zero status: QEMU exits with
/// `(code << 1) | 1`, so code 1 becomes shell status 3.
pub fn exit_failure() -> (r: u32)
    ensures
        r % 0x1_0000 == FINISH_FAIL,
        r / 0x1_0000 == 1,
{
    proof {
        lemma_failure();
    }
    FINISH_FAIL | (1u32 << 16)
}

} // verus!
