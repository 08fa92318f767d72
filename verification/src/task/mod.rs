//! Tasks: the unit of scheduling.
//!
//! A task is a kernel stack, a saved context, and enough bookkeeping to put it on
//! a queue. A task is named from several places at once -- the run queue, the
//! current-task slot of the hart, a wait queue it has blocked on, its parent's
//! child list -- and all of them name it by its process id, which is never
//! reused.

use vstd::prelude::*;

pub mod args;
pub mod context;
pub mod family;
pub mod image;
pub mod laws;
pub mod process;
pub mod queue;
pub mod scheduler;

use crate::mm::buddy;
use crate::mm::frame::Memory;
use crate::mm::space::AddressSpace;
use crate::sync::WaitQueue;
use crate::trap::TrapFrame;

pub use context::{KernelStack, TaskContext};

verus! {

/// A process identifier.
#[derive(Debug, Clone, Copy, PartialEq, Eq, PartialOrd, Ord, Hash, Structural)]
pub struct Pid(pub u64);

/// Source of process ids.
///
/// Monotonic and never reused. Reuse is what makes a stale pid dangerous --
/// `kill(pid)` aimed at a process that exited can land on an unrelated one -- and
/// 2^64 ids is enough that wrapping is not a real concern.
pub struct Pids {
    next: u64,
}

impl Pids {
    /// The id that is handed out next.
    pub closed spec fn upcoming(&self) -> u64 {
        self.next
    }

    /// Ids start at 1.
    pub fn new() -> (r: Pids)
        ensures
            r.upcoming() == 1,
    {
        Pids { next: 1 }
    }

    /// Has the last id been handed out?
    pub fn exhausted(&self) -> (r: bool)
        ensures
            r == (self.upcoming() == u64::MAX),
    {
        self.next == u64::MAX
    }

    /// Hand out an id.
    pub fn alloc_pid(&mut self) -> (r: Pid)
        requires
            old(self).upcoming() < u64::MAX,
        ensures
            r.0 == old(self).upcoming(),
            final(self).upcoming() == old(self).upcoming() + 1,
    {
        let pid: Pid = Pid(self.next);
        self.next = self.next + 1;
        pid
    }
}

/// Where a task is in its lifecycle.
#[derive(Debug, Clone, Copy, PartialEq, Eq, Structural)]
pub enum TaskState {
    /// Runnable and waiting on a queue.
    Ready,
    /// Currently executing on some hart.
    Running,
    /// Waiting for an event; not on any run queue. Something must wake the task
    /// or it never runs again.
    Blocked,
    /// Finished, waiting for its parent to collect the exit code.
    Zombie,
}

/// Scheduling priority levels, highest first.
///
/// The scheduler is a multi-level feedback queue: a task that uses a full quantum
/// without blocking drops a level, and one that blocks before its quantum expires
/// rises.
pub const PRIORITY_LEVELS: usize = 3;

/// Mutable per-task state.
pub struct TaskInner {
    /// Lifecycle state.
    pub state: TaskState,
    /// Saved registers, valid whenever the task is not running.
    pub ctx: TaskContext,
    /// The stack `ctx.sp` points into.
    pub kstack: KernelStack,
    /// Current queue level, 0 being highest priority.
    pub level: usize,
    /// Quanta consumed since the last demotion.
    pub ticks: u64,
    /// Set by the timer when the task's quantum expires.
    pub needs_resched: bool,
    /// A wakeup arrived while the task was still running. Consumed by the next
    /// attempt to block, which turns a lost wakeup into a spurious one.
    pub wakeup_pending: bool,
    /// Value passed to `exit`.
    pub exit_code: i32,
    /// The address space of a user task.
    pub space: Option<AddressSpace>,
    /// The registers that a user task entered the kernel with.
    pub frame: Option<TrapFrame>,
    /// The program break.
    pub brk: u64,
    /// End of the memory that backs the heap.
    pub heap_top: u64,
    /// Who waits for the task.
    pub parent: Option<u64>,
    /// Tasks that this one may wait for.
    pub children: Vec<u64>,
}

/// A schedulable thread of control.
pub struct Task {
    /// Immutable identity.
    pub pid: Pid,
    /// Human-readable name, for `ps` and panic messages.
    pub name: Vec<u8>,
    /// Address of what the task runs. Read by the entry trampoline.
    pub entry: u64,
    /// Where the task waits for a child to exit.
    pub child_exit: WaitQueue,
    /// Everything that changes.
    pub inner: TaskInner,
}

impl TaskInner {
    /// A task that has never run: ready, at the highest priority, and with
    /// nothing on its account.
    pub open spec fn unscheduled(&self) -> bool {
        &&& self.state == TaskState::Ready
        &&& self.level == 0
        &&& self.ticks == 0
        &&& !self.needs_resched
        &&& !self.wakeup_pending
        &&& self.exit_code == 0
        &&& self.children@ == Seq::<u64>::empty()
    }
}

impl Task {
    /// The frames of its address space.
    pub open spec fn user_frames(&self) -> Set<int> {
        match self.inner.space {
            Some(s) => s.footprint(),
            None => Set::empty(),
        }
    }

    /// The frames a task holds: its kernel stack and its address space.
    pub open spec fn frames(&self) -> Set<int> {
        self.inner.kstack.footprint().union(self.user_frames())
    }

    /// What a task holds is its own: its kernel stack, and its address space,
    /// which beyond its own frames rests on the kernel's alone.
    pub open spec fn sound(&self, mem: Memory, kernel: AddressSpace) -> bool {
        &&& self.inner.kstack.valid(mem)
        &&& self.inner.space matches Some(s) ==> {
            &&& s.wf(mem)
            &&& s.is_user()
            &&& s.tops() == 256
            &&& s.support().subset_of(s.footprint().union(kernel.support()))
            &&& s.footprint().disjoint(kernel.support())
            &&& s.shares(mem, kernel)
        }
    }

    /// The frames of a task are in use, and its stack is apart from its space.
    pub proof fn lemma_sound(&self, mem: Memory, kernel: AddressSpace)
        requires
            mem.wf(),
            self.sound(mem, kernel),
        ensures
            forall|p: int| #[trigger] self.frames().contains(p) ==> mem.used(p),
            self.inner.kstack.footprint().disjoint(self.user_frames()),
    {
        self.inner.kstack.lemma_valid(mem);
        if let Some(s) = self.inner.space {
            s.lemma_live(mem);
        }
    }

    /// A task stays sound as long as nobody takes what it holds.
    pub proof fn lemma_kept(&self, m0: Memory, mem: Memory, kernel: AddressSpace, touched: Set<int>)
        requires
            m0.wf(),
            self.sound(m0, kernel),
            kernel.live(m0),
            mem.keeps(m0, touched),
            touched.disjoint(self.frames()),
            touched.disjoint(kernel.support()),
        ensures
            self.sound(mem, kernel),
    {
        self.lemma_sound(m0, kernel);
        let k = self.inner.kstack;
        k.lemma_valid(m0);
        assert(k.footprint().contains(k.ppn())) by {
            buddy::lemma_sizes();
        }
        assert(mem.owns(k.ppn(), 3));
        k.lemma_still_valid(m0, mem);
        if let Some(s) = self.inner.space {
            s.lemma_live(m0);
            kernel.lemma_live(m0);
            assert forall|p: int| #[trigger] s.support().contains(p) implies mem.owns(p, 0) && mem.same_frame(m0, p) by {
                assert(s.footprint().union(kernel.support()).contains(p));
                assert(self.frames().contains(p) || kernel.support().contains(p));
                assert(m0.used(p));
            }
            assert forall|p: int| #[trigger] s.spec_table().tables().contains(p) implies mem.same_frame(m0, p) by {
                assert(s.support().contains(p));
            }
            s.lemma_undisturbed(m0, mem);
            assert forall|p: int| #[trigger] kernel.support().contains(p) implies mem.owns(p, 0) && mem.same_frame(
                m0,
                p,
            ) by {
                assert(m0.used(p));
            }
            assert forall|p: int| #[trigger] kernel.spec_table().tables().contains(p) implies mem.same_frame(m0, p) by {
                assert(kernel.support().contains(p));
            }
            kernel.lemma_undisturbed(m0, mem);
            s.lemma_still_shares(s, m0, mem, kernel);
        }
    }

    /// A kernel task that has never run.
    pub open spec fn is_new_kernel(&self, name: Seq<u8>, entry: u64, trampoline: u64) -> bool {
        &&& self.name@ == name
        &&& self.entry == entry
        &&& self.child_exit@ == Seq::<u64>::empty()
        &&& self.inner.unscheduled()
        &&& self.inner.ctx.starts(
            trampoline,
            (self.inner.kstack.low() + crate::config::KERNEL_STACK_SIZE) as u64,
        )
        &&& self.inner.space is None
        &&& self.inner.frame is None
        &&& self.inner.parent is None
        &&& self.inner.brk == 0
        &&& self.inner.heap_top == 0
    }

    /// Create a kernel task that will begin at `entry`. `None`, and nothing taken,
    /// if there is no run of frames for its stack.
    ///
    /// The context is built so that the first switch into it returns straight into
    /// the trampoline, which then calls `entry`. The trampoline learns what to run
    /// by reading it back off the task, not from a register.
    pub fn new_kernel(mem: &mut Memory, pids: &mut Pids, name: &[u8], entry: u64, trampoline: u64) -> (r: Option<
        Task,
    >)
        requires
            old(mem).wf(),
            old(pids).upcoming() < u64::MAX,
        ensures
            final(mem).wf(),
            r is Some <==> buddy::donor(old(mem).lists(), 3) <= 10,
            r is None ==> *final(mem) == *old(mem) && *final(pids) == *old(pids),
            r matches Some(t) ==> {
                &&& t.pid.0 == old(pids).upcoming()
                &&& final(pids).upcoming() == old(pids).upcoming() + 1
                &&& t.is_new_kernel(name@, entry, trampoline)
                &&& t.inner.kstack.valid(*final(mem))
                &&& t.inner.kstack.intact(*final(mem))
                &&& final(mem).took(*old(mem), t.frames())
            },
    {
        let ghost m0 = *mem;
        let kstack: KernelStack = match KernelStack::new(mem) {
            Some(kstack) => kstack,
            None => {
                return None;
            },
        };
        let stack_top: u64 = kstack.top(mem);
        let ctx: TaskContext = TaskContext::new(trampoline, stack_top);
        let ghost k = kstack;
        let task = Task {
            pid: pids.alloc_pid(),
            name: copy_bytes(name),
            entry,
            child_exit: WaitQueue::new(),
            inner: TaskInner {
                state: TaskState::Ready,
                ctx,
                kstack,
                level: 0,
                ticks: 0,
                needs_resched: false,
                wakeup_pending: false,
                exit_code: 0,
                space: None,
                frame: None,
                brk: 0,
                heap_top: 0,
                parent: None,
                children: Vec::new(),
            },
        };
        proof {
            mem.lemma_took_run(m0, k.ppn(), 3);
            assert(task.frames() =~= k.footprint());
        }
        Some(task)
    }

    /// Current lifecycle state.
    pub fn state(&self) -> (r: TaskState)
        ensures
            r == self.inner.state,
    {
        self.inner.state
    }

    /// Set the lifecycle state.
    pub fn set_state(&mut self, state: TaskState)
        ensures
            *final(self) == (Task { inner: TaskInner { state, ..old(self).inner }, ..*old(self) }),
    {
        self.inner.state = state;
    }

    /// Exit code, meaningful once the task is a zombie.
    pub fn exit_code(&self) -> (r: i32)
        ensures
            r == self.inner.exit_code,
    {
        self.inner.exit_code
    }

    /// Free a task: its address space and its kernel stack go back.
    pub fn release(self, mem: &mut Memory, kernel: &AddressSpace)
        requires
            old(mem).wf(),
            self.sound(*old(mem), *kernel),
        ensures
            final(mem).wf(),
            final(mem).gave(*old(mem), self.frames()),
    {
        let ghost m0 = *mem;
        let ghost t = self;
        proof {
            t.lemma_sound(m0, *kernel);
            t.inner.kstack.lemma_valid(m0);
        }
        let TaskInner { kstack, space, .. } = self.inner;
        if let Some(s) = space {
            proof {
                s.lemma_live(m0);
            }
            s.release(mem);
            proof {
                mem.lemma_gave_shrank(m0, s.footprint());
            }
        } else {
            proof {
                m0.lemma_grew_none(m0);
            }
        }
        let ghost m1 = *mem;
        proof {
            assert(m1.gave(m0, t.user_frames()));
            assert(kstack.footprint().contains(kstack.ppn())) by {
                buddy::lemma_sizes();
            }
            assert(m1.owns(kstack.ppn(), 3));
            kstack.lemma_still_valid(m0, m1);
            kstack.lemma_valid(m1);
        }
        kstack.release(mem);
        proof {
            mem.lemma_gave_run(m1, kstack.ppn(), 3);
            mem.lemma_gave_twice(m1, m0, t.user_frames(), kstack.footprint());
            assert(t.user_frames().union(kstack.footprint()) =~= t.frames());
        }
    }
}

/// A copy of some bytes.
pub fn copy_bytes(bytes: &[u8]) -> (r: Vec<u8>)
    ensures
        r@ == bytes@,
{
    let mut r: Vec<u8> = Vec::new();
    let mut i: usize = 0;
    while i < bytes.len()
        invariant
            i <= bytes@.len(),
            r@ == bytes@.take(i as int),
        decreases bytes@.len() - i,
    {
        r.push(bytes[i]);
        i = i + 1;
        assert(bytes@.take(i as int) =~= bytes@.take(i - 1).push(bytes@[i - 1]));
    }
    assert(bytes@.take(i as int) =~= bytes@);
    r
}

} // verus!
