//! Saved state for a context switch, and the kernel stacks tasks run on.

use vstd::prelude::*;
use crate::config::{KERNEL_STACK_SIZE, PAGE_SIZE, VIRT_OFFSET};
use crate::mm::buddy;
use crate::mm::frame::{self, Frame, Memory};

verus! {

/// Registers a context switch must preserve.
///
/// Just the callee-saved set. Everything else is dead at a call boundary by the
/// ABI, and a switch is a call as far as the compiler is concerned -- which is
/// why this is 14 registers and a trap frame is 34.
#[derive(Clone, Copy, Debug, Default)]
pub struct TaskContext {
    /// Where execution resumes.
    pub ra: u64,
    /// Kernel stack pointer.
    pub sp: u64,
    /// Callee-saved `s0` through `s11`.
    pub s: [u64; 12],
}

impl TaskContext {
    /// Every callee-saved register but `ra` and `sp` is zero.
    pub open spec fn starts(&self, ra: u64, sp: u64) -> bool {
        &&& self.ra == ra
        &&& self.sp == sp
        &&& forall|i: int| 0 <= i < 12 ==> #[trigger] self.s@[i] == 0
    }

    /// A zeroed context, for a hart's idle loop: the first switch into it will
    /// overwrite everything with real values.
    pub fn zeroed() -> (r: TaskContext)
        ensures
            r.starts(0, 0),
    {
        TaskContext { ra: 0, sp: 0, s: [0u64;12] }
    }

    /// Build the context a never-yet-run task starts from.
    ///
    /// `ra` points at the entry trampoline rather than at a return address, so
    /// the `ret` at the end of a context switch lands there.
    pub fn new(entry: u64, stack_top: u64) -> (r: TaskContext)
        ensures
            r.starts(entry, stack_top),
    {
        TaskContext { ra: entry, sp: stack_top, s: [0u64;12] }
    }
}

/// Value written at the low end of every kernel stack.
pub const STACK_CANARY: u64 = 0xC0DE_CAFE_DEAD_BEEF;

/// Order of the run of frames that a kernel stack is.
pub const STACK_ORDER: usize = 3;

/// A task's kernel stack.
///
/// Taken from the buddy allocator as one contiguous run, so it is reachable
/// through the linear map with no extra mapping.
///
/// There is no guard page. The linear map is built from 2 MiB superpages, and
/// punching a 4 KiB hole in one would mean splitting it. Instead the low end of
/// the stack holds a canary that the scheduler checks on every switch.
pub struct KernelStack {
    frames: Frame,
}

impl KernelStack {
    /// First frame of the stack.
    pub closed spec fn ppn(&self) -> int {
        self.frames.spec_ppn()
    }

    /// The frames of the stack.
    pub open spec fn footprint(&self) -> Set<int> {
        frame::run(self.ppn(), 3)
    }

    /// The run is this stack's to use.
    pub closed spec fn valid(&self, mem: Memory) -> bool {
        &&& self.frames.spec_order() == STACK_ORDER
        &&& mem.owns(self.frames.spec_ppn(), STACK_ORDER as int)
    }

    /// Is the canary as it was written?
    pub open spec fn intact(&self, mem: Memory) -> bool {
        mem.word(self.ppn(), 0) == STACK_CANARY
    }

    /// Address of the low end.
    pub open spec fn low(&self) -> int {
        VIRT_OFFSET + self.ppn() * PAGE_SIZE
    }

    /// What a valid stack is: a run that is in use and in the direct map.
    pub proof fn lemma_valid(&self, mem: Memory)
        requires
            mem.wf(),
            self.valid(mem),
        ensures
            mem.owns(self.ppn(), 3),
            0 <= self.ppn(),
            self.low() + KERNEL_STACK_SIZE <= u64::MAX,
            forall|p: int| #[trigger] self.footprint().contains(p) ==> mem.used(p),
            forall|p: int| #[trigger] self.footprint().contains(p) ==> !mem.owns(p, 0),
    {
        mem.lemma_owns(self.ppn(), 3);
        buddy::lemma_sizes();
        assert forall|p: int| #[trigger] self.footprint().contains(p) implies mem.used(p) && !mem.owns(p, 0) by {
            if mem.owns(p, 0) {
                frame::law_runs_are_exclusive(mem, p, 0, self.ppn(), 3, p);
            }
        }
    }

    /// A stack stays one's own as long as its run does.
    pub proof fn lemma_still_valid(&self, m0: Memory, m1: Memory)
        requires
            self.valid(m0),
            m1.owns(self.ppn(), 3) || !m0.owns(self.ppn(), 3),
        ensures
            self.valid(m1),
    {
    }

    /// Allocate a stack.
    pub fn new(mem: &mut Memory) -> (r: Option<KernelStack>)
        requires
            old(mem).wf(),
        ensures
            final(mem).wf(),
            r is Some <==> buddy::donor(old(mem).lists(), 3) <= 10,
            r is None ==> *final(mem) == *old(mem),
            r matches Some(s) ==> {
                &&& s.valid(*final(mem))
                &&& s.intact(*final(mem))
                &&& final(mem).granted(*old(mem), s.ppn(), 3)
            },
    {
        let ghost m0 = *mem;
        proof {
            buddy::lemma_sizes();
            buddy::lemma_order_of(8, 3, 0);
        }
        let order: usize = frame::order_for(KERNEL_STACK_SIZE / PAGE_SIZE);
        match Frame::alloc_order(mem, order) {
            None => None,
            Some(frames) => {
                let ghost m1 = *mem;
                let stack = KernelStack { frames };
                proof {
                    mem.lemma_owns(stack.ppn(), 3);
                }
                mem.write(stack.frames.ppn(), 0, STACK_CANARY);
                proof {
                    assert forall|f: int| m0.used(f) implies #[trigger] mem.same_frame(m0, f) by {
                        assert(m1.same_frame(m0, f));
                        assert(f != stack.ppn());
                    }
                }
                Some(stack)
            },
        }
    }

    /// Lowest address of the stack -- where the canary lives, and the point past
    /// which an overflow starts destroying other allocations.
    pub fn bottom(&self, mem: &Memory) -> (r: u64)
        requires
            mem.wf(),
            self.valid(*mem),
        ensures
            r == self.low(),
    {
        proof {
            self.lemma_valid(*mem);
        }
        self.frames.ppn().as_ptr()
    }

    /// Initial stack pointer: one past the highest byte, since the stack grows
    /// down and RISC-V pushes before storing.
    pub fn top(&self, mem: &Memory) -> (r: u64)
        requires
            mem.wf(),
            self.valid(*mem),
        ensures
            r == self.low() + KERNEL_STACK_SIZE,
    {
        proof {
            self.lemma_valid(*mem);
            buddy::lemma_sizes();
        }
        self.bottom(mem) + self.frames.count(mem) * PAGE_SIZE
    }

    /// Has the stack overflowed past its low end?
    pub fn canary_intact(&self, mem: &Memory) -> (r: bool)
        requires
            mem.wf(),
            self.valid(*mem),
        ensures
            r == self.intact(*mem),
    {
        proof {
            mem.lemma_owns(self.ppn(), 3);
            buddy::lemma_sizes();
        }
        mem.read(self.frames.ppn(), 0) == STACK_CANARY
    }

    /// Bytes of stack still unused below `sp`.
    pub fn headroom(&self, mem: &Memory, sp: u64) -> (r: u64)
        requires
            mem.wf(),
            self.valid(*mem),
        ensures
            r == (if sp >= self.low() {
                sp - self.low()
            } else {
                0
            }),
    {
        sp.saturating_sub(self.bottom(mem))
    }

    /// Give the stack back.
    pub fn release(self, mem: &mut Memory)
        requires
            old(mem).wf(),
            self.valid(*old(mem)),
        ensures
            final(mem).wf(),
            final(mem).reclaimed(*old(mem), self.ppn(), 3),
    {
        self.frames.release(mem);
    }
}

/// A kernel stack is eight frames in a row, 32 KiB from its low end in the direct map.
pub proof fn law_kernel_stack_is_eight_frames(s: KernelStack, f: int)
    ensures
        s.footprint().contains(f) <==> s.ppn() <= f < s.ppn() + 8,
        s.low() == 0xffff_ffc0_0000_0000 + 4096 * s.ppn(),
        KERNEL_STACK_SIZE == 8 * 4096,
{
    buddy::lemma_sizes();
}

} // verus!
