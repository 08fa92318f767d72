//! Frame-pointer backtraces.
//!
//! Every frame keeps the standard RISC-V layout: the frame pointer points just
//! past the frame, with the return address at `fp - 8` and the caller's frame
//! pointer at `fp - 16`. Walking that chain gives a stack trace without unwinding
//! tables.

use vstd::prelude::*;
use crate::config::VIRT_OFFSET;

verus! {

/// Frames to print before giving up, in case the chain is circular.
pub const MAX_FRAMES: u64 = 32;

/// Where a walk has got to.
#[derive(Debug, Clone, Copy, PartialEq, Eq, Structural)]
pub struct Walk {
    /// Frame pointer of the next frame.
    pub fp: u64,
    /// How many frames were printed.
    pub frame: u64,
    /// Has the chain ended?
    pub ended: bool,
}

/// May the two words below `fp` be read? A frame pointer that is not in the kernel
/// half or is misaligned means that the chain has run off the end of the stack.
pub open spec fn readable(fp: u64) -> bool {
    fp >= VIRT_OFFSET && fp % 8 == 0
}

impl Walk {
    /// Begin at frame pointer `fp`.
    pub fn new(fp: u64) -> (r: Walk)
        ensures
            r == (Walk { fp, frame: 0, ended: false }),
    {
        Walk { fp, frame: 0, ended: false }
    }

    /// The addresses of the return address and of the caller's frame pointer of
    /// the next frame, or `None` where the walk ends.
    pub fn next(&self) -> (r: Option<(u64, u64)>)
        ensures
            r is Some <==> !self.ended && self.frame < MAX_FRAMES && readable(self.fp),
            r matches Some(p) ==> p.0 == self.fp - 8 && p.1 == self.fp - 16,
    {
        proof {
            let fp = self.fp;
            assert(fp & 0x7 == fp % 8) by (bit_vector);
        }
        if self.ended || self.frame >= MAX_FRAMES || self.fp < VIRT_OFFSET || self.fp & 0x7 != 0 {
            None
        } else {
            Some((self.fp - 8, self.fp - 16))
        }
    }

    /// Go on, where `ra` and `prev_fp` were read at those addresses. Says whether
    /// the frame is to be printed. Frame pointers march upward; anything else is a
    /// corrupt chain.
    pub fn visit(&mut self, ra: u64, prev_fp: u64) -> (r: bool)
        requires
            old(self).frame < MAX_FRAMES,
        ensures
            r == (ra != 0),
            *final(self) == (if ra == 0 || prev_fp <= old(self).fp {
                Walk { ended: true, ..*old(self) }
            } else {
                Walk { fp: prev_fp, frame: (old(self).frame + 1) as u64, ended: old(self).ended }
            }),
    {
        if ra == 0 {
            self.ended = true;
            return false;
        }
        if prev_fp <= self.fp {
            self.ended = true;
            return true;
        }
        self.fp = prev_fp;
        self.frame = self.frame + 1;
        true
    }

    /// Was the walk cut short?
    pub fn truncated(&self) -> (r: bool)
        ensures
            r == (self.frame == MAX_FRAMES),
    {
        self.frame == MAX_FRAMES
    }
}

/// A frame is only looked at where the kernel has memory, at a word's address, and no more
/// than 32 of them are.
pub proof fn law_only_kernel_words_are_read(fp: u64)
    ensures
        readable(fp) <==> fp >= 0xffff_ffc0_0000_0000 && fp % 8 == 0,
        MAX_FRAMES == 32,
{
}

} // verus!
