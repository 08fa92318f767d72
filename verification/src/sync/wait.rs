//! Wait queues and the blocking primitives built on them.
//!
//! A `SpinLock` busy-waits, which is right for a critical section a few
//! instructions long and wrong for anything that waits on a device or another
//! task. These primitives park the caller instead.
//!
//! **None of these may be used from an interrupt handler.** There is no task to
//! park in that context.
//!
//! A blocking call is a step: it either completes, or it has parked the caller and
//! is to be made again once the caller runs. The classic hazard is the lost
//! wakeup: a waiter that has queued itself but not yet switched away receives a
//! wakeup that goes nowhere, and sleeps forever. That is closed in the scheduler,
//! where waking records the wakeup on the task and the next attempt to block
//! consumes it.

use std::collections::VecDeque;

use vstd::prelude::*;
use crate::arch::{self, Hart};
use crate::mm::frame::Memory;
use crate::task::scheduler::{self, Scheduler, StackOverflow};
use crate::task::{TaskContext, TaskState};

verus! {

/// A set of tasks waiting for an event.
pub struct WaitQueue {
    waiters: VecDeque<u64>,
}

impl View for WaitQueue {
    type V = Seq<u64>;

    closed spec fn view(&self) -> Seq<u64> {
        self.waiters@
    }
}

/// How a step of a blocking call ended.
#[derive(Debug, Clone, Copy, PartialEq, Eq, Structural)]
pub enum Step {
    /// The call is complete.
    Done,
    /// The caller is queued and parked. Once it runs again it is to restore
    /// interrupts if the flag says so, leave the queue, and make the call again.
    Parked(bool),
}

/// `s` without the first `x`.
pub open spec fn without(s: Seq<u64>, x: u64) -> Seq<u64>
    decreases s.len(),
{
    if s.len() == 0 {
        s
    } else if s[0] == x {
        s.skip(1)
    } else {
        seq![s[0]] + without(s.skip(1), x)
    }
}

/// Only the first `x` goes.
proof fn lemma_without(s: Seq<u64>, x: u64, i: int)
    requires
        0 <= i <= s.len(),
        forall|j: int| 0 <= j < i ==> s[j] != x,
        i < s.len() ==> s[i] == x,
    ensures
        without(s, x) == (if i < s.len() {
            s.remove(i)
        } else {
            s
        }),
    decreases i,
{
    if s.len() > 0 && i > 0 {
        lemma_without(s.skip(1), x, i - 1);
        if i < s.len() {
            assert(seq![s[0]] + s.skip(1).remove(i - 1) =~= s.remove(i));
        } else {
            assert(seq![s[0]] + s.skip(1) =~= s);
        }
    } else if s.len() > 0 {
        assert(s.remove(0) =~= s.skip(1));
    }
}

/// A task that left a queue in which it stood once is no longer there, and nobody
/// else has moved.
pub proof fn lemma_left(s: Seq<u64>, x: u64)
    requires
        s.no_duplicates(),
    ensures
        !without(s, x).contains(x),
        without(s, x).no_duplicates(),
        forall|y: u64| #[trigger] without(s, x).contains(y) ==> s.contains(y),
        forall|y: u64| y != x && s.contains(y) ==> #[trigger] without(s, x).contains(y),
    decreases s.len(),
{
    if s.len() > 0 {
        let t = s.skip(1);
        assert(t.no_duplicates()) by {
            assert forall|i: int, j: int| 0 <= i < t.len() && 0 <= j < t.len() && i != j implies t[i] != t[j] by {
                assert(s[i + 1] != s[j + 1]);
            }
        }
        assert forall|y: u64| s.contains(y) implies y == s[0] || #[trigger] t.contains(y) by {
            let i = choose|i: int| 0 <= i < s.len() && s[i] == y;
            if i > 0 {
                assert(t[i - 1] == y);
            }
        }
        assert forall|y: u64| #[trigger] t.contains(y) implies s.contains(y) && y != s[0] by {
            let i = choose|i: int| 0 <= i < t.len() && t[i] == y;
            assert(s[i + 1] == y);
            assert(s[0] != s[i + 1]);
        }
        assert(s.contains(s[0]));
        if s[0] != x {
            lemma_left(t, x);
            let w = without(t, x);
            let r = seq![s[0]] + w;
            assert(without(s, x) == r);
            assert forall|y: u64| #[trigger] r.contains(y) <==> y == s[0] || w.contains(y) by {
                if w.contains(y) {
                    let i = choose|i: int| 0 <= i < w.len() && w[i] == y;
                    assert(r[i + 1] == y);
                }
                if y == s[0] {
                    assert(r[0] == y);
                }
                if r.contains(y) {
                    let i = choose|i: int| 0 <= i < r.len() && r[i] == y;
                    if i > 0 {
                        assert(w[i - 1] == y);
                    }
                }
            }
            assert forall|i: int, j: int| 0 <= i < r.len() && 0 <= j < r.len() && i != j implies r[i] != r[j] by {
                if i == 0 {
                    assert(w.contains(w[j - 1]));
                    assert(t.contains(w[j - 1]));
                } else if j == 0 {
                    assert(w.contains(w[i - 1]));
                    assert(t.contains(w[i - 1]));
                }
            }
        }
    }
}

/// What a task that queues itself and parks leaves behind, if its stack is sound.
pub open spec fn parks(s: Scheduler, s0: Scheduler, mem: Memory, hart: Hart, hart0: Hart, ctx: TaskContext, r: Result<Step, StackOverflow>) -> bool {
    if s0.running().inner.kstack.intact(mem) {
        &&& r == Ok::<Step, StackOverflow>(Step::Parked(arch::enabled(hart0.sstatus)))
        &&& s.left(s0, TaskState::Blocked, ctx)
        &&& hart == (Hart { sstatus: arch::with_enable(hart0.sstatus, false), ..hart0 })
    } else {
        &&& r == Err::<Step, StackOverflow>(StackOverflow { pid: s0.cpu.current->0 })
        &&& s == s0
        &&& hart == hart0
    }
}

impl WaitQueue {
    /// An empty queue.
    pub fn new() -> (r: WaitQueue)
        ensures
            r@ == Seq::<u64>::empty(),
    {
        WaitQueue { waiters: VecDeque::new() }
    }

    /// Put a task at the end of the queue.
    pub fn enqueue(&mut self, pid: u64)
        ensures
            final(self)@ == old(self)@.push(pid),
    {
        self.waiters.push_back(pid);
    }

    /// Drop a task's entry if a wakeup left it behind -- otherwise a later wakeup
    /// could spend itself on a task that is no longer waiting, and the task that
    /// *is* waiting would never be woken.
    pub fn leave(&mut self, pid: u64)
        ensures
            final(self)@ == without(old(self)@, pid),
    {
        let ghost w = self.waiters@;
        let mut i: usize = 0;
        while i < self.waiters.len()
            invariant
                i <= w.len(),
                self.waiters@ == w,
                w == old(self)@,
                forall|j: int| 0 <= j < i ==> w[j] != pid,
            decreases w.len() - i,
        {
            if self.waiters[i] == pid {
                let _ = self.waiters.remove(i);
                proof {
                    lemma_without(w, pid, i as int);
                    assert(self.waiters@ =~= w.remove(i as int));
                }
                return;
            }
            i = i + 1;
        }
        proof {
            lemma_without(w, pid, i as int);
        }
    }

    /// Block the calling task until someone wakes this queue.
    ///
    /// The wakeup may be spurious as well as real, so every caller must re-check
    /// its condition.
    pub fn wait(&mut self, sched: &mut Scheduler, mem: &Memory, hart: &mut Hart, ctx: TaskContext) -> (r: Result<
        Step,
        StackOverflow,
    >)
        requires
            mem.wf(),
            old(sched).wf(),
            old(sched).cpu.current is Some,
            old(sched).running().inner.kstack.valid(*mem),
        ensures
            final(sched).wf(),
            final(self)@ == old(self)@.push(old(sched).cpu.current->0),
            parks(*final(sched), *old(sched), *mem, *final(hart), *old(hart), ctx, r),
    {
        let pid: u64 = scheduler::current(sched).unwrap();
        self.enqueue(pid);
        match scheduler::block_current(sched, mem, hart, ctx) {
            Ok(was_enabled) => Ok(Step::Parked(was_enabled)),
            Err(e) => Err(e),
        }
    }

    /// Block until `condition` holds, which is what it says now.
    ///
    /// The condition is checked before waiting at all, so a caller that is already
    /// satisfied never sleeps.
    pub fn wait_until(
        &mut self,
        condition: bool,
        sched: &mut Scheduler,
        mem: &Memory,
        hart: &mut Hart,
        ctx: TaskContext,
    ) -> (r: Result<Step, StackOverflow>)
        requires
            mem.wf(),
            old(sched).wf(),
            old(sched).cpu.current is Some,
            old(sched).running().inner.kstack.valid(*mem),
        ensures
            final(sched).wf(),
            if condition {
                &&& r == Ok::<Step, StackOverflow>(Step::Done)
                &&& *final(self) == *old(self)
                &&& *final(sched) == *old(sched)
                &&& *final(hart) == *old(hart)
            } else {
                &&& final(self)@ == old(self)@.push(old(sched).cpu.current->0)
                &&& parks(*final(sched), *old(sched), *mem, *final(hart), *old(hart), ctx, r)
            },
    {
        if condition {
            return Ok(Step::Done);
        }
        self.wait(sched, mem, hart, ctx)
    }

    /// Wake the task at the head of the queue, if any.
    pub fn wake_one(&mut self, sched: &mut Scheduler)
        requires
            old(sched).wf(),
            old(sched).cpu.previous is None,
            old(self)@.len() > 0 ==> scheduler::known(old(sched).tasks@, old(self)@[0]),
        ensures
            final(sched).wf(),
            final(sched).cpu == old(sched).cpu,
            final(sched).queue.created() == old(sched).queue.created(),
            if old(self)@.len() > 0 {
                &&& final(self)@ == old(self)@.skip(1)
                &&& final(sched).view() == scheduler::after_wake(old(sched).view(), old(self)@[0])
            } else {
                &&& final(self)@ == old(self)@
                &&& *final(sched) == *old(sched)
            },
    {
        let ghost w = self@;
        if let Some(pid) = self.waiters.pop_front() {
            assert(self@ =~= w.skip(1));
            scheduler::wake(sched, pid);
        }
    }

    /// Wake every waiter.
    ///
    /// The queue is drained first and the wakeups happen after, so a woken task
    /// that waits again is not woken for nothing.
    pub fn wake_all(&mut self, sched: &mut Scheduler)
        requires
            old(sched).wf(),
            old(sched).cpu.previous is None,
            forall|i: int|
                0 <= i < old(self)@.len() ==> scheduler::known(old(sched).tasks@, #[trigger] old(self)@[i]),
        ensures
            final(sched).wf(),
            final(sched).cpu == old(sched).cpu,
            final(sched).queue.created() == old(sched).queue.created(),
            final(self)@ == Seq::<u64>::empty(),
            final(sched).view() == scheduler::after_wakes(old(sched).view(), old(self)@),
    {
        let ghost w = self@;
        let ghost s0 = *sched;
        let mut waiters: VecDeque<u64> = VecDeque::new();
        core::mem::swap(&mut waiters, &mut self.waiters);
        assert(w.skip(0) =~= w);
        let mut i: usize = 0;
        while i < waiters.len()
            invariant
                i <= w.len(),
                waiters@ == w,
                w == old(self)@,
                s0 == *old(sched),
                self@ == Seq::<u64>::empty(),
                sched.wf(),
                sched.cpu == s0.cpu,
                s0.cpu.previous is None,
                sched.queue.created() == s0.queue.created(),
                forall|p: u64| #[trigger] scheduler::known(sched.tasks@, p) == scheduler::known(s0.tasks@, p),
                forall|j: int| 0 <= j < w.len() ==> scheduler::known(s0.tasks@, #[trigger] w[j]),
                scheduler::after_wakes(s0.view(), w) == scheduler::after_wakes(sched.view(), w.skip(i as int)),
            decreases w.len() - i,
        {
            proof {
                assert(w.skip(i as int)[0] == w[i as int]);
                assert(w.skip(i as int).skip(1) =~= w.skip(i + 1));
                let j = scheduler::index(sched.tasks@, w[i as int]);
                assert(scheduler::known(sched.tasks@, w[i as int]));
                scheduler::lemma_with_inner(sched.tasks@, j, scheduler::woken(sched.tasks@[j].inner));
            }
            scheduler::wake(sched, waiters[i]);
            i = i + 1;
        }
    }

    /// Number of tasks currently waiting.
    pub fn len(&self) -> (r: usize)
        ensures
            r == self@.len(),
    {
        self.waiters.len()
    }

    /// Is nobody waiting?
    pub fn is_empty(&self) -> (r: bool)
        ensures
            r == (self@.len() == 0),
    {
        self.len() == 0
    }
}

impl Default for WaitQueue {
    fn default() -> (r: WaitQueue)
        ensures
            r@ == Seq::<u64>::empty(),
    {
        WaitQueue::new()
    }
}

/// A mutual-exclusion lock that parks the caller instead of spinning.
///
/// Use this whenever the critical section can block, take a page fault, or wait on
/// a device. For anything an interrupt handler touches, use a `SpinLock`.
pub struct Mutex<T> {
    locked: bool,
    waiters: WaitQueue,
    data: T,
    /// Which mutex this is.
    id: Ghost<int>,
    /// How often it has been taken.
    turn: Ghost<int>,
}

/// Proof that a mutex is held: what that mutex protects is reached through it.
pub struct MutexGuard {
    /// The mutex that it was handed out by.
    id: Ghost<int>,
    /// When it was.
    turn: Ghost<int>,
}

impl<T> Mutex<T> {
    /// Is it held?
    pub closed spec fn is_held(&self) -> bool {
        self.locked
    }

    /// Is it held, and `guard` what was handed out when it was taken? A guard of another
    /// mutex, or of an earlier time, is not.
    pub closed spec fn held_by(&self, guard: MutexGuard) -> bool {
        self.locked && guard.id@ == self.id@ && guard.turn@ == self.turn@
    }

    /// Who waits for it.
    pub closed spec fn waiting(&self) -> Seq<u64> {
        self.waiters@
    }

    /// What it protects.
    pub closed spec fn value(&self) -> T {
        self.data
    }

    /// Create an unlocked mutex.
    pub fn new(data: T) -> (r: Mutex<T>)
        ensures
            !r.is_held(),
            r.waiting() == Seq::<u64>::empty(),
            r.value() == data,
    {
        Mutex {
            locked: false,
            waiters: WaitQueue::new(),
            data,
            id: Ghost(arbitrary()),
            turn: Ghost(0),
        }
    }

    /// Acquire the lock if it is free, without blocking.
    pub fn try_lock(&mut self) -> (r: Option<MutexGuard>)
        ensures
            r is Some <==> !old(self).is_held(),
            r matches Some(g) ==> final(self).held_by(g),
            r is None ==> *final(self) == *old(self),
            final(self).is_held(),
            final(self).waiting() == old(self).waiting(),
            final(self).value() == old(self).value(),
    {
        if self.locked {
            return None;
        }
        self.locked = true;
        self.turn = Ghost(self.turn@ + 1);
        Some(MutexGuard { id: self.id, turn: self.turn })
    }

    /// Acquire the lock, blocking the task until it is free: the guard if it is
    /// free now, or `None` once the task is queued and parked.
    pub fn lock(&mut self, sched: &mut Scheduler, mem: &Memory, hart: &mut Hart, ctx: TaskContext) -> (r: Result<
        (Step, Option<MutexGuard>),
        StackOverflow,
    >)
        requires
            mem.wf(),
            old(sched).wf(),
            old(sched).cpu.current is Some,
            old(sched).running().inner.kstack.valid(*mem),
        ensures
            final(sched).wf(),
            final(self).is_held(),
            final(self).value() == old(self).value(),
            if !old(self).is_held() {
                &&& r matches Ok((step, Some(g))) && step == Step::Done && final(self).held_by(g)
                &&& final(self).waiting() == old(self).waiting()
                &&& *final(sched) == *old(sched)
                &&& *final(hart) == *old(hart)
            } else {
                &&& r matches Ok((_, g)) ==> g is None
                &&& forall|g: MutexGuard| #[trigger] final(self).held_by(g) == old(self).held_by(g)
                &&& final(self).waiting() == old(self).waiting().push(old(sched).cpu.current->0)
                &&& parks(
                    *final(sched),
                    *old(sched),
                    *mem,
                    *final(hart),
                    *old(hart),
                    ctx,
                    match r {
                        Ok((step, _)) => Ok(step),
                        Err(e) => Err(e),
                    },
                )
            },
    {
        if let Some(guard) = self.try_lock() {
            return Ok((Step::Done, Some(guard)));
        }
        match self.waiters.wait(sched, mem, hart, ctx) {
            Ok(step) => Ok((step, None)),
            Err(e) => Err(e),
        }
    }

    /// A task that was parked in `lock` runs again.
    pub fn resume(&mut self, pid: u64)
        ensures
            final(self).waiting() == without(old(self).waiting(), pid),
            final(self).is_held() == old(self).is_held(),
            forall|g: MutexGuard| #[trigger] final(self).held_by(g) == old(self).held_by(g),
            final(self).value() == old(self).value(),
    {
        self.waiters.leave(pid);
    }

    /// What the mutex protects.
    pub fn get(&self, guard: &MutexGuard) -> (r: &T)
        requires
            self.held_by(*guard),
        ensures
            *r == self.value(),
    {
        &self.data
    }

    /// Replace what the mutex protects.
    pub fn set(&mut self, guard: &MutexGuard, data: T)
        requires
            old(self).held_by(*guard),
        ensures
            final(self).value() == data,
            final(self).is_held(),
            final(self).held_by(*guard),
            final(self).waiting() == old(self).waiting(),
    {
        self.data = data;
    }

    /// Release the lock and wake one waiter rather than all: a broadcast would have
    /// every waiter race for a lock only one can win.
    pub fn unlock(&mut self, guard: MutexGuard, sched: &mut Scheduler)
        requires
            old(self).held_by(guard),
            old(sched).wf(),
            old(sched).cpu.previous is None,
            old(self).waiting().len() > 0 ==> scheduler::known(old(sched).tasks@, old(self).waiting()[0]),
        ensures
            final(sched).wf(),
            final(sched).cpu == old(sched).cpu,
            final(sched).queue.created() == old(sched).queue.created(),
            !final(self).is_held(),
            forall|g: MutexGuard| !(#[trigger] final(self).held_by(g)),
            final(self).value() == old(self).value(),
            if old(self).waiting().len() > 0 {
                &&& final(self).waiting() == old(self).waiting().skip(1)
                &&& final(sched).view() == scheduler::after_wake(old(sched).view(), old(self).waiting()[0])
            } else {
                &&& final(self).waiting() == old(self).waiting()
                &&& *final(sched) == *old(sched)
            },
    {
        self.locked = false;
        self.waiters.wake_one(sched);
    }
}

/// A counting semaphore.
pub struct Semaphore {
    count: i64,
    waiters: WaitQueue,
}

impl Semaphore {
    /// Permits to hand out.
    pub closed spec fn permits(&self) -> i64 {
        self.count
    }

    /// Who waits for one.
    pub closed spec fn waiting(&self) -> Seq<u64> {
        self.waiters@
    }

    /// A semaphore with `initial` permits.
    pub fn new(initial: i64) -> (r: Semaphore)
        ensures
            r.permits() == initial,
            r.waiting() == Seq::<u64>::empty(),
    {
        Semaphore { count: initial, waiters: WaitQueue::new() }
    }

    /// Take a permit, blocking until one is available.
    pub fn acquire(&mut self, sched: &mut Scheduler, mem: &Memory, hart: &mut Hart, ctx: TaskContext) -> (r: Result<
        Step,
        StackOverflow,
    >)
        requires
            mem.wf(),
            old(sched).wf(),
            old(sched).cpu.current is Some,
            old(sched).running().inner.kstack.valid(*mem),
        ensures
            final(sched).wf(),
            if old(self).permits() > 0 {
                &&& r == Ok::<Step, StackOverflow>(Step::Done)
                &&& final(self).permits() == old(self).permits() - 1
                &&& final(self).waiting() == old(self).waiting()
                &&& *final(sched) == *old(sched)
                &&& *final(hart) == *old(hart)
            } else {
                &&& final(self).permits() == old(self).permits()
                &&& final(self).waiting() == old(self).waiting().push(old(sched).cpu.current->0)
                &&& parks(*final(sched), *old(sched), *mem, *final(hart), *old(hart), ctx, r)
            },
    {
        if self.count > 0 {
            self.count = self.count - 1;
            return Ok(Step::Done);
        }
        self.waiters.wait(sched, mem, hart, ctx)
    }

    /// A task that was parked in `acquire` runs again.
    pub fn resume(&mut self, pid: u64)
        ensures
            final(self).waiting() == without(old(self).waiting(), pid),
            final(self).permits() == old(self).permits(),
    {
        self.waiters.leave(pid);
    }

    /// Return a permit and wake a waiter.
    pub fn release(&mut self, sched: &mut Scheduler)
        requires
            old(sched).wf(),
            old(sched).cpu.previous is None,
            old(self).permits() < i64::MAX,
            old(self).waiting().len() > 0 ==> scheduler::known(old(sched).tasks@, old(self).waiting()[0]),
        ensures
            final(sched).wf(),
            final(sched).cpu == old(sched).cpu,
            final(sched).queue.created() == old(sched).queue.created(),
            final(self).permits() == old(self).permits() + 1,
            if old(self).waiting().len() > 0 {
                &&& final(self).waiting() == old(self).waiting().skip(1)
                &&& final(sched).view() == scheduler::after_wake(old(sched).view(), old(self).waiting()[0])
            } else {
                &&& final(self).waiting() == old(self).waiting()
                &&& *final(sched) == *old(sched)
            },
    {
        self.count = self.count + 1;
        self.waiters.wake_one(sched);
    }

    /// Permits currently available.
    pub fn available(&self) -> (r: i64)
        ensures
            r == self.permits(),
    {
        self.count
    }
}

/// Leaving a queue takes the task off it that leaves, once, and keeps the others in line.
pub proof fn law_leaving_keeps_the_line(s: Seq<u64>, x: u64)
    ensures
        !s.contains(x) ==> without(s, x) == s,
        s.contains(x) ==> exists|i: int|
            {
                &&& 0 <= i < s.len()
                &&& #[trigger] s[i] == x
                &&& !s.take(i).contains(x)
                &&& without(s, x) == s.take(i) + s.skip(i + 1)
            },
    decreases s.len(),
{
    if s.len() > 0 {
        let rest = s.skip(1);
        law_leaving_keeps_the_line(rest, x);
        if s[0] == x {
            assert(s.take(0) + s.skip(1) =~= s.skip(1));
            assert(s[0] == x && !s.take(0).contains(x));
        } else if rest.contains(x) {
            let i = choose|i: int|
                {
                    &&& 0 <= i < rest.len()
                    &&& #[trigger] rest[i] == x
                    &&& !rest.take(i).contains(x)
                    &&& without(rest, x) == rest.take(i) + rest.skip(i + 1)
                };
            assert(s[i + 1] == x);
            assert(seq![s[0]] + (rest.take(i) + rest.skip(i + 1)) =~= s.take(i + 1) + s.skip(i + 2));
            let front = s.take(i + 1);
            if front.contains(x) {
                let j = choose|j: int| 0 <= j < front.len() && front[j] == x;
                assert(rest.take(i)[j - 1] == x);
            }
        } else {
            assert(seq![s[0]] + rest =~= s);
            if s.contains(x) {
                let j = choose|j: int| 0 <= j < s.len() && s[j] == x;
                assert(rest[j - 1] == x);
            }
        }
        if rest.contains(x) {
            let j = choose|j: int| 0 <= j < rest.len() && rest[j] == x;
            assert(s[j + 1] == x);
        }
    }
}

/// A task that waits for something leaves the hart asleep, with interrupts off, unless it
/// was woken already; it is what ran, and nobody else is affected.
pub proof fn law_waiting_parks_the_caller(
    s: Scheduler,
    s0: Scheduler,
    mem: Memory,
    hart: Hart,
    hart0: Hart,
    ctx: TaskContext,
    r: Result<Step, StackOverflow>,
    i: int,
)
    requires
        s0.wf(),
        s0.cpu.current is Some,
        parks(s, s0, mem, hart, hart0, ctx, r),
        r is Ok,
        0 <= i < s0.tasks@.len(),
    ensures
        s.cpu.current is None,
        s.cpu.previous == s0.cpu.current,
        s.queue == s0.queue,
        hart.sstatus == hart0.sstatus & !2u64,
        s.tasks@.len() == s0.tasks@.len(),
        ({
            let t0 = s0.tasks@[i];
            let t = s.tasks@[i];
            if s0.cpu.current == Some(t0.pid.0) {
                &&& t.pid == t0.pid
                &&& t.inner.ctx == ctx
                &&& t.inner.state == (if t0.inner.wakeup_pending {
                    TaskState::Ready
                } else {
                    TaskState::Blocked
                })
                &&& !t.inner.wakeup_pending
                &&& t.inner.level == t0.inner.level
            } else {
                t == t0
            }
        }),
{
    let j = scheduler::index(s0.tasks@, s0.cpu.current->0);
    assert(s0.tasks@[j].pid.0 == s0.cpu.current->0);
}

} // verus!
