//! The scheduler: a multi-level feedback queue with an idle context.
//!
//! # Why tasks switch *through* an idle context
//!
//! A task never switches directly to its successor. It switches to the idle
//! context, which runs [`run`], which picks the next task. That indirection buys
//! the thing that makes the whole design race-free without holding a lock across a
//! context switch:
//!
//! > A task is only put back on the run queue **after** it has finished switching
//! > off its stack.
//!
//! The outgoing task is parked in `Cpu::previous`, and [`run`] -- which by then is
//! executing on the idle context, not the task's -- decides what to do with it.
//!
//! # Why a feedback queue
//!
//! Round-robin gives a compute loop the same share of the CPU as a shell waiting
//! on a keystroke. Here a task that burns a full quantum drops a level and one
//! that blocks first rises, which sorts interactive work to the top.

use vstd::prelude::*;
use crate::arch::{self, Hart};
use crate::mm::buddy;
use crate::mm::frame::Memory;
use crate::mm::space::AddressSpace;
use crate::task::family;
use crate::task::process;
use crate::task::queue::{self, RunQueue};
use crate::task::{copy_bytes, Pid, Pids, Task, TaskContext, TaskInner, TaskState, PRIORITY_LEVELS};

verus! {

/// Quanta a task may consume at a level before it is demoted.
pub const QUANTA_PER_LEVEL: u64 = 4;

/// Scheduling state of the hart.
pub struct Cpu {
    /// The task this hart is executing.
    pub current: Option<u64>,
    /// The task that just switched away, waiting to be requeued or reaped.
    pub previous: Option<u64>,
    /// Context of the idle loop.
    pub idle: TaskContext,
}

/// All tasks, the queue of those that can run, and what the hart is doing.
pub struct Scheduler {
    /// Every task that exists.
    pub tasks: Vec<Task>,
    /// The runnable ones.
    pub queue: RunQueue,
    /// The hart.
    pub cpu: Cpu,
}

/// Is there a task `pid`?
pub open spec fn known(tasks: Seq<Task>, pid: u64) -> bool {
    exists|i: int| 0 <= i < tasks.len() && (#[trigger] tasks[i]).pid.0 == pid
}

/// Where task `pid` is in the table.
pub open spec fn index(tasks: Seq<Task>, pid: u64) -> int {
    choose|i: int| 0 <= i < tasks.len() && (#[trigger] tasks[i]).pid.0 == pid
}

/// No two tasks have the same id.
pub open spec fn distinct(tasks: Seq<Task>) -> bool {
    forall|i: int, j: int|
        0 <= i < tasks.len() && 0 <= j < tasks.len() && (#[trigger] tasks[i]).pid.0 == (#[trigger] tasks[j]).pid.0
            ==> i == j
}

/// Is `pid` on the run queue?
pub open spec fn queued(levels: Seq<Seq<u64>>, pid: u64) -> bool {
    exists|k: int, a: int| 0 <= k < levels.len() && 0 <= a < levels[k].len() && #[trigger] levels[k][a] == pid
}

/// No task is on the run queue twice.
pub open spec fn once(levels: Seq<Seq<u64>>) -> bool {
    forall|k: int, a: int, l: int, b: int|
        0 <= k < levels.len() && 0 <= a < levels[k].len() && 0 <= l < levels.len() && 0 <= b < levels[l].len()
            && #[trigger] levels[k][a] == #[trigger] levels[l][b] ==> k == l && a == b
}

/// A task with its scheduling state replaced.
pub open spec fn with_inner(tasks: Seq<Task>, i: int, inner: TaskInner) -> Seq<Task> {
    tasks.update(i, Task { inner, ..tasks[i] })
}

/// What waking makes of a task.
///
/// One that has not switched away yet gets a note that its next attempt to block
/// will find. A blocked one becomes ready: it gave up the CPU before its quantum
/// ran out, so it is promoted.
pub open spec fn woken(t: TaskInner) -> TaskInner {
    if t.state != TaskState::Blocked {
        TaskInner { wakeup_pending: true, ..t }
    } else {
        TaskInner {
            state: TaskState::Ready,
            level: if t.level > 0 {
                (t.level - 1) as usize
            } else {
                0
            },
            ticks: 0,
            ..t
        }
    }
}

/// The tasks and the run queue.
pub struct Runnable {
    /// Every task that exists.
    pub tasks: Seq<Task>,
    /// The queue of each level.
    pub levels: Seq<Seq<u64>>,
}

/// What waking `pid` makes of the tasks and the queue.
pub open spec fn after_wake(r: Runnable, pid: u64) -> Runnable {
    let i = index(r.tasks, pid);
    let t = r.tasks[i].inner;
    Runnable {
        tasks: with_inner(r.tasks, i, woken(t)),
        levels: if t.state == TaskState::Blocked {
            queue::pushed(r.levels, woken(t).level as int, pid)
        } else {
            r.levels
        },
    }
}

/// What waking `pids` one after the other makes of them.
pub open spec fn after_wakes(r: Runnable, pids: Seq<u64>) -> Runnable
    decreases pids.len(),
{
    if pids.len() == 0 {
        r
    } else {
        after_wakes(after_wake(r, pids[0]), pids.skip(1))
    }
}

/// What an expired quantum makes of the task that ran.
pub open spec fn ticked(t: TaskInner) -> TaskInner {
    if t.ticks + 1 >= QUANTA_PER_LEVEL {
        TaskInner {
            level: if t.level + 1 < PRIORITY_LEVELS {
                (t.level + 1) as usize
            } else {
                (PRIORITY_LEVELS - 1) as usize
            },
            ticks: 0,
            needs_resched: true,
            ..t
        }
    } else {
        TaskInner { ticks: (t.ticks + 1) as u64, needs_resched: true, ..t }
    }
}

/// What switching away makes of a task that asks to be left in `state`. One that
/// asks to block finds the note of a wakeup and stays runnable instead.
pub open spec fn parked(t: TaskInner, state: TaskState, ctx: TaskContext) -> TaskInner {
    if state == TaskState::Blocked && t.wakeup_pending {
        TaskInner { state: TaskState::Ready, wakeup_pending: false, ctx, ..t }
    } else {
        TaskInner { state, ctx, ..t }
    }
}

/// What being picked makes of a task.
pub open spec fn dispatched(t: TaskInner) -> TaskInner {
    TaskInner { state: TaskState::Running, needs_resched: false, ..t }
}

impl Scheduler {
    /// The tasks and the run queue.
    pub open spec fn view(&self) -> Runnable {
        Runnable { tasks: self.tasks@, levels: self.queue.levels() }
    }

    /// Every queued task exists, is ready, and is on the queue of its level.
    pub open spec fn queue_ok(&self) -> bool {
        &&& self.queue.wf()
        &&& once(self.queue.levels())
        &&& forall|k: int, a: int|
            0 <= k < 3 && 0 <= a < self.queue.levels()[k].len() ==> {
                let pid = #[trigger] self.queue.levels()[k][a];
                &&& known(self.tasks@, pid)
                &&& self.tasks@[index(self.tasks@, pid)].inner.state == TaskState::Ready
                &&& self.tasks@[index(self.tasks@, pid)].inner.level == k
            }
    }

    /// The hart runs a task that is running, or has just left one that is not. A
    /// task that it just left is not on the queue.
    pub open spec fn cpu_ok(&self) -> bool {
        &&& self.cpu.current matches Some(p) ==> known(self.tasks@, p) && self.tasks@[index(
            self.tasks@,
            p,
        )].inner.state == TaskState::Running
        &&& self.cpu.previous matches Some(p) ==> known(self.tasks@, p) && self.tasks@[index(
            self.tasks@,
            p,
        )].inner.state != TaskState::Running && !queued(self.queue.levels(), p)
        &&& self.cpu.current is None || self.cpu.previous is None
    }

    /// Every task is where its state says.
    pub open spec fn placed(&self, i: int) -> bool {
        let t = self.tasks@[i];
        &&& t.inner.level < PRIORITY_LEVELS
        &&& t.inner.ticks < QUANTA_PER_LEVEL
        &&& t.inner.state == TaskState::Running ==> self.cpu.current == Some(t.pid.0)
        &&& t.inner.state == TaskState::Ready ==> queued(self.queue.levels(), t.pid.0) || self.cpu.previous
            == Some(t.pid.0)
    }

    /// The run queue, the hart and the states of the tasks agree.
    pub open spec fn wf(&self) -> bool {
        &&& distinct(self.tasks@)
        &&& self.queue_ok()
        &&& self.cpu_ok()
        &&& forall|i: int| 0 <= i < self.tasks@.len() ==> #[trigger] self.placed(i)
    }

    /// No tasks at all.
    pub fn new() -> (r: Scheduler)
        ensures
            r.wf(),
            r.tasks@ == Seq::<Task>::empty(),
            r.cpu.current is None,
            r.cpu.previous is None,
            r.cpu.idle.starts(0, 0),
            r.queue.levels() == seq![Seq::<u64>::empty(), Seq::empty(), Seq::empty()],
            r.queue.created() == 0,
    {
        let r = Scheduler {
            tasks: Vec::new(),
            queue: RunQueue::new(),
            cpu: Cpu { current: None, previous: None, idle: TaskContext::zeroed() },
        };
        proof {
            assert forall|k: int| 0 <= k < 3 implies (#[trigger] r.queue.levels()[k]).len() == 0 by {}
        }
        r
    }

    /// Position of task `pid` in the table.
    pub fn find(&self, pid: u64) -> (r: Option<usize>)
        ensures
            match r {
                Some(i) => i < self.tasks@.len() && self.tasks@[i as int].pid.0 == pid && (distinct(
                    self.tasks@,
                ) ==> i == index(self.tasks@, pid)),
                None => !known(self.tasks@, pid),
            },
    {
        let mut i: usize = 0;
        while i < self.tasks.len()
            invariant
                i <= self.tasks@.len(),
                forall|j: int| 0 <= j < i ==> (#[trigger] self.tasks@[j]).pid.0 != pid,
            decreases self.tasks@.len() - i,
        {
            if self.tasks[i].pid.0 == pid {
                return Some(i);
            }
            i = i + 1;
        }
        None
    }
}

/// A task is found where it is.
pub proof fn lemma_index(tasks: Seq<Task>, i: int)
    requires
        distinct(tasks),
        0 <= i < tasks.len(),
    ensures
        known(tasks, tasks[i].pid.0),
        index(tasks, tasks[i].pid.0) == i,
{
    let j = index(tasks, tasks[i].pid.0);
    assert(0 <= j < tasks.len() && tasks[j].pid.0 == tasks[i].pid.0);
}

/// Changing the state of a task moves nobody.
pub proof fn lemma_with_inner(tasks: Seq<Task>, i: int, inner: TaskInner)
    requires
        distinct(tasks),
        0 <= i < tasks.len(),
    ensures
        distinct(with_inner(tasks, i, inner)),
        forall|p: u64| #[trigger] known(with_inner(tasks, i, inner), p) == known(tasks, p),
        forall|p: u64|
            known(tasks, p) ==> #[trigger] index(with_inner(tasks, i, inner), p) == index(tasks, p),
{
    let u = with_inner(tasks, i, inner);
    assert forall|a: int, b: int|
        0 <= a < u.len() && 0 <= b < u.len() && (#[trigger] u[a]).pid.0 == (#[trigger] u[b]).pid.0 implies a == b by {
        assert(tasks[a].pid.0 == u[a].pid.0 && tasks[b].pid.0 == u[b].pid.0);
    }
    assert forall|p: u64| #[trigger] known(u, p) == known(tasks, p) by {
        if known(u, p) {
            let a = index(u, p);
            assert(tasks[a].pid.0 == u[a].pid.0);
        }
        if known(tasks, p) {
            let a = index(tasks, p);
            assert(tasks[a].pid.0 == u[a].pid.0);
        }
    }
    assert forall|p: u64| known(tasks, p) implies #[trigger] index(u, p) == index(tasks, p) by {
        let a = index(tasks, p);
        assert(u[a].pid.0 == p);
        lemma_index(u, a);
    }
}

/// The task running on this hart, if any.
pub fn current(sched: &Scheduler) -> (r: Option<u64>)
    ensures
        r == sched.cpu.current,
{
    sched.cpu.current
}

/// The task running on this hart. There is none in contexts that have no task,
/// and calling this there is a bug in the caller.
pub fn current_task(sched: &Scheduler) -> (r: &Task)
    requires
        sched.wf(),
        sched.cpu.current is Some,
    ensures
        *r == sched.tasks@[index(sched.tasks@, sched.cpu.current->0)],
        r.pid.0 == sched.cpu.current->0,
        r.inner.state == TaskState::Running,
{
    let pid: u64 = sched.cpu.current.unwrap();
    match sched.find(pid) {
        Some(i) => &sched.tasks[i],
        None => {
            assert(false);
            &sched.tasks[0]
        },
    }
}

/// Make a blocked task runnable again.
///
/// Waking a task twice is harmless, so callers need not coordinate. It may be
/// called from an interrupt handler, which never runs between a task's leaving the
/// hart and the idle loop's dealing with it.
pub fn wake(sched: &mut Scheduler, pid: u64)
    requires
        old(sched).wf(),
        known(old(sched).tasks@, pid),
        old(sched).cpu.previous != Some(pid),
    ensures
        final(sched).wf(),
        final(sched).view() == after_wake(old(sched).view(), pid),
        final(sched).queue.created() == old(sched).queue.created(),
        final(sched).cpu == old(sched).cpu,
{
    let ghost s0 = *sched;
    let i: usize = match sched.find(pid) {
        Some(i) => i,
        None => {
            return;
        },
    };
    let ghost t0 = sched.tasks@[i as int].inner;
    proof {
        lemma_index(s0.tasks@, i as int);
        assert(s0.placed(i as int));
    }
    if sched.tasks[i].inner.state != TaskState::Blocked {
        // The target queued itself on a wait queue but has not switched away yet.
        // Dropping the wakeup here is the classic lost-wakeup bug, so leave a note
        // that the switch will find and honour.
        sched.tasks[i].inner.wakeup_pending = true;
        proof {
            assert(sched.tasks@ =~= with_inner(s0.tasks@, i as int, woken(t0)));
            lemma_wf_same_place(*sched, s0, i as int, woken(t0));
        }
        return;
    }
    let level: usize = sched.tasks[i].inner.level;
    let promoted: usize = if level > 0 {
        level - 1
    } else {
        0
    };
    sched.tasks[i].inner.state = TaskState::Ready;
    sched.tasks[i].inner.level = promoted;
    sched.tasks[i].inner.ticks = 0;
    sched.queue.push(pid, promoted);
    proof {
        assert(sched.tasks@ =~= with_inner(s0.tasks@, i as int, woken(t0)));
        lemma_wf_queued(*sched, s0, i as int, woken(t0));
    }
}

/// A task that stays where it is may change in anything but its place.
proof fn lemma_wf_same_place(s: Scheduler, s0: Scheduler, i: int, inner: TaskInner)
    requires
        s0.wf(),
        0 <= i < s0.tasks@.len(),
        s.tasks@ == with_inner(s0.tasks@, i, inner),
        s.queue == s0.queue,
        s.cpu == s0.cpu,
        inner.state == s0.tasks@[i].inner.state,
        inner.level < PRIORITY_LEVELS,
        inner.ticks < QUANTA_PER_LEVEL,
        inner.level == s0.tasks@[i].inner.level || inner.state != TaskState::Ready,
    ensures
        s.wf(),
{
    lemma_with_inner(s0.tasks@, i, inner);
    lemma_index(s0.tasks@, i);
    assert forall|j: int| 0 <= j < s.tasks@.len() implies #[trigger] s.placed(j) by {
        assert(s0.placed(j));
    }
}

/// A task that becomes ready goes on the queue of its level.
proof fn lemma_wf_queued(s: Scheduler, s0: Scheduler, i: int, inner: TaskInner)
    requires
        s0.wf(),
        0 <= i < s0.tasks@.len(),
        s.tasks@ == with_inner(s0.tasks@, i, inner),
        s.queue.levels() == queue::pushed(s0.queue.levels(), inner.level as int, s0.tasks@[i].pid.0),
        s.cpu.current == s0.cpu.current,
        s.cpu.previous == s0.cpu.previous || (s0.cpu.previous == Some(s0.tasks@[i].pid.0) && s.cpu.previous
            is None),
        s.cpu.previous != Some(s0.tasks@[i].pid.0),
        s0.cpu.current != Some(s0.tasks@[i].pid.0),
        !queued(s0.queue.levels(), s0.tasks@[i].pid.0),
        inner.state == TaskState::Ready,
        inner.level < PRIORITY_LEVELS,
        inner.ticks < QUANTA_PER_LEVEL,
    ensures
        s.wf(),
{
    let pid = s0.tasks@[i].pid.0;
    let k0 = inner.level as int;
    let l0 = s0.queue.levels();
    let l = s.queue.levels();
    lemma_with_inner(s0.tasks@, i, inner);
    lemma_index(s0.tasks@, i);
    lemma_pushed(l0, k0, pid);
    assert forall|j: int| 0 <= j < s.tasks@.len() implies #[trigger] s.placed(j) by {
        assert(s0.placed(j));
        if j != i {
            lemma_index(s0.tasks@, j);
        }
    }
    assert forall|k: int, a: int| 0 <= k < 3 && 0 <= a < l[k].len() implies {
        let q = #[trigger] l[k][a];
        &&& known(s.tasks@, q)
        &&& s.tasks@[index(s.tasks@, q)].inner.state == TaskState::Ready
        &&& s.tasks@[index(s.tasks@, q)].inner.level == k
    } by {
        if k == k0 && a == l0[k].len() {
            assert(l[k][a] == pid);
        } else {
            assert(l[k][a] == l0[k][a]);
            assert(queued(l0, l0[k][a]));
            assert(l0[k][a] != pid);
        }
    }
}

/// What pushing does to the queue.
pub proof fn lemma_pushed(l0: Seq<Seq<u64>>, k0: int, pid: u64)
    requires
        0 <= k0 < l0.len(),
        once(l0),
        !queued(l0, pid),
    ensures
        once(queue::pushed(l0, k0, pid)),
        forall|q: u64| #[trigger] queued(queue::pushed(l0, k0, pid), q) <==> queued(l0, q) || q == pid,
{
    let l = queue::pushed(l0, k0, pid);
    assert(l[k0][l0[k0].len() as int] == pid);
    assert forall|k: int, a: int, m: int, b: int|
        0 <= k < l.len() && 0 <= a < l[k].len() && 0 <= m < l.len() && 0 <= b < l[m].len() && #[trigger] l[k][a]
            == #[trigger] l[m][b] implies k == m && a == b by {
        let new_a = k == k0 && a == l0[k].len();
        let new_b = m == k0 && b == l0[m].len();
        if !new_a {
            assert(l[k][a] == l0[k][a]);
            assert(queued(l0, l0[k][a]));
        }
        if !new_b {
            assert(l[m][b] == l0[m][b]);
            assert(queued(l0, l0[m][b]));
        }
    }
    assert forall|q: u64| #[trigger] queued(l, q) <==> queued(l0, q) || q == pid by {
        if queued(l, q) {
            let (k, a) = choose|k: int, a: int|
                0 <= k < l.len() && 0 <= a < l[k].len() && #[trigger] l[k][a] == q;
            if !(k == k0 && a == l0[k].len()) {
                assert(l0[k][a] == q);
            }
        }
        if queued(l0, q) {
            let (k, a) = choose|k: int, a: int|
                0 <= k < l0.len() && 0 <= a < l0[k].len() && #[trigger] l0[k][a] == q;
            assert(l[k][a] == q);
        }
        if q == pid {
            assert(l[k0][l0[k0].len() as int] == q);
        }
    }
}

/// Note that a quantum expired on this hart.
///
/// Called from the timer interrupt, which must not switch tasks itself: the trap
/// frame on the stack has to be unwound by the trap exit path first. So it only
/// sets a flag, and the trap handler acts on it once the frame is safe to leave.
pub fn on_timer_tick(sched: &mut Scheduler)
    requires
        old(sched).wf(),
    ensures
        final(sched).wf(),
        final(sched).queue == old(sched).queue,
        final(sched).cpu == old(sched).cpu,
        final(sched).tasks@ == (match old(sched).cpu.current {
            Some(pid) => {
                let i = index(old(sched).tasks@, pid);
                with_inner(old(sched).tasks@, i, ticked(old(sched).tasks@[i].inner))
            },
            None => old(sched).tasks@,
        }),
{
    let ghost s0 = *sched;
    let pid: u64 = match sched.cpu.current {
        Some(pid) => pid,
        None => {
            return;
        },
    };
    let i: usize = match sched.find(pid) {
        Some(i) => i,
        None => {
            return;
        },
    };
    let ghost t0 = sched.tasks@[i as int].inner;
    proof {
        assert(s0.placed(i as int));
    }
    let ticks: u64 = sched.tasks[i].inner.ticks + 1;
    if ticks >= QUANTA_PER_LEVEL {
        // Used a full allowance without blocking: this is compute-bound work, so
        // move it down and let interactive tasks past.
        let level: usize = sched.tasks[i].inner.level;
        sched.tasks[i].inner.level = if level + 1 < PRIORITY_LEVELS {
            level + 1
        } else {
            PRIORITY_LEVELS - 1
        };
        sched.tasks[i].inner.ticks = 0;
    } else {
        sched.tasks[i].inner.ticks = ticks;
    }
    sched.tasks[i].inner.needs_resched = true;
    proof {
        assert(sched.tasks@ =~= with_inner(s0.tasks@, i as int, ticked(t0)));
        lemma_wf_same_place(*sched, s0, i as int, ticked(t0));
    }
}

/// A kernel stack has overflowed: the canary at its low end is gone. The machine
/// must stop.
#[derive(Debug, Clone, Copy, PartialEq, Eq, Structural)]
pub struct StackOverflow {
    /// The task whose stack it is.
    pub pid: u64,
}

impl Scheduler {
    /// The task that runs.
    pub open spec fn running(&self) -> Task {
        self.tasks@[index(self.tasks@, self.cpu.current->0)]
    }

    /// `self` is `before` with the running task parked, asking to be left in
    /// `state`.
    pub open spec fn left(&self, before: Scheduler, state: TaskState, ctx: TaskContext) -> bool {
        let i = index(before.tasks@, before.cpu.current->0);
        &&& self.tasks@ == with_inner(before.tasks@, i, parked(before.tasks@[i].inner, state, ctx))
        &&& self.queue == before.queue
        &&& self.cpu.current is None
        &&& self.cpu.previous == before.cpu.current
        &&& self.cpu.idle == before.cpu.idle
    }
}

/// Leave the current task in `state` and hand it to the idle loop, which requeues
/// or reaps it once it is running on a stack that is not the task's. `ctx` is
/// where the task resumes. Returns whether interrupts were enabled, which is what
/// the task restores when it resumes: they stay masked from here until the idle
/// loop has finished with it.
fn switch_to_idle(sched: &mut Scheduler, mem: &Memory, hart: &mut Hart, state: TaskState, ctx: TaskContext) -> (r: Result<
    bool,
    StackOverflow,
>)
    requires
        mem.wf(),
        old(sched).wf(),
        old(sched).cpu.current is Some,
        old(sched).running().inner.kstack.valid(*mem),
        state != TaskState::Running,
    ensures
        final(sched).wf(),
        if old(sched).running().inner.kstack.intact(*mem) {
            &&& r == Ok::<bool, StackOverflow>(arch::enabled(old(hart).sstatus))
            &&& final(sched).left(*old(sched), state, ctx)
            &&& *final(hart) == (Hart { sstatus: arch::with_enable(old(hart).sstatus, false), ..*old(hart) })
        } else {
            &&& r == Err::<bool, StackOverflow>(StackOverflow { pid: old(sched).cpu.current->0 })
            &&& *final(sched) == *old(sched)
            &&& *final(hart) == *old(hart)
        },
{
    let ghost s0 = *sched;
    let pid: u64 = sched.cpu.current.unwrap();
    let i: usize = match sched.find(pid) {
        Some(i) => i,
        None => {
            assert(false);
            0
        },
    };
    let ghost t0 = sched.tasks@[i as int].inner;
    proof {
        assert(s0.placed(i as int));
    }
    if !sched.tasks[i].inner.kstack.canary_intact(mem) {
        return Err(StackOverflow { pid });
    }
    let was_enabled: bool = arch::intr_enabled(hart);
    arch::intr_disable(hart);
    // A wakeup that arrived after the caller queued itself but before it got here
    // would otherwise be lost, and the task would sleep forever. Consuming the flag
    // turns that race into a spurious wakeup, which every wait loop tolerates.
    if state == TaskState::Blocked && sched.tasks[i].inner.wakeup_pending {
        sched.tasks[i].inner.wakeup_pending = false;
        sched.tasks[i].inner.state = TaskState::Ready;
    } else {
        sched.tasks[i].inner.state = state;
    }
    sched.tasks[i].inner.ctx = ctx;
    sched.cpu.current = None;
    sched.cpu.previous = Some(pid);
    proof {
        let inner = parked(t0, state, ctx);
        assert(sched.tasks@ =~= with_inner(s0.tasks@, i as int, inner));
        lemma_with_inner(s0.tasks@, i as int, inner);
        lemma_index(s0.tasks@, i as int);
        assert forall|j: int| 0 <= j < sched.tasks@.len() implies #[trigger] sched.placed(j) by {
            assert(s0.placed(j));
            if j != i {
                lemma_index(s0.tasks@, j);
            }
        }
    }
    Ok(was_enabled)
}

/// Give up the rest of this quantum.
pub fn yield_now(sched: &mut Scheduler, mem: &Memory, hart: &mut Hart, ctx: TaskContext) -> (r: Result<
    bool,
    StackOverflow,
>)
    requires
        mem.wf(),
        old(sched).wf(),
        old(sched).cpu.current is Some,
        old(sched).running().inner.kstack.valid(*mem),
    ensures
        final(sched).wf(),
        if old(sched).running().inner.kstack.intact(*mem) {
            &&& r == Ok::<bool, StackOverflow>(arch::enabled(old(hart).sstatus))
            &&& final(sched).left(*old(sched), TaskState::Ready, ctx)
            &&& *final(hart) == (Hart { sstatus: arch::with_enable(old(hart).sstatus, false), ..*old(hart) })
        } else {
            &&& r == Err::<bool, StackOverflow>(StackOverflow { pid: old(sched).cpu.current->0 })
            &&& *final(sched) == *old(sched)
            &&& *final(hart) == *old(hart)
        },
{
    switch_to_idle(sched, mem, hart, TaskState::Ready, ctx)
}

/// Block the current task until someone wakes it.
///
/// The caller is responsible for having put the task on whatever wait queue will
/// eventually wake it, *before* calling this.
pub fn block_current(sched: &mut Scheduler, mem: &Memory, hart: &mut Hart, ctx: TaskContext) -> (r: Result<
    bool,
    StackOverflow,
>)
    requires
        mem.wf(),
        old(sched).wf(),
        old(sched).cpu.current is Some,
        old(sched).running().inner.kstack.valid(*mem),
    ensures
        final(sched).wf(),
        if old(sched).running().inner.kstack.intact(*mem) {
            &&& r == Ok::<bool, StackOverflow>(arch::enabled(old(hart).sstatus))
            &&& final(sched).left(*old(sched), TaskState::Blocked, ctx)
            &&& *final(hart) == (Hart { sstatus: arch::with_enable(old(hart).sstatus, false), ..*old(hart) })
        } else {
            &&& r == Err::<bool, StackOverflow>(StackOverflow { pid: old(sched).cpu.current->0 })
            &&& *final(sched) == *old(sched)
            &&& *final(hart) == *old(hart)
        },
{
    switch_to_idle(sched, mem, hart, TaskState::Blocked, ctx)
}

/// Did the timer ask the current task to yield? The request is consumed. Called
/// from the trap exit path, where the stack is in a state that tolerates the
/// switch that is to follow.
pub fn resched_if_needed(sched: &mut Scheduler) -> (r: bool)
    requires
        old(sched).wf(),
    ensures
        final(sched).wf(),
        final(sched).queue == old(sched).queue,
        final(sched).cpu == old(sched).cpu,
        match old(sched).cpu.current {
            Some(pid) => {
                let i = index(old(sched).tasks@, pid);
                let t = old(sched).tasks@[i].inner;
                &&& r == t.needs_resched
                &&& final(sched).tasks@ == with_inner(
                    old(sched).tasks@,
                    i,
                    TaskInner { needs_resched: false, ..t },
                )
            },
            None => !r && final(sched).tasks@ == old(sched).tasks@,
        },
{
    let ghost s0 = *sched;
    let pid: u64 = match sched.cpu.current {
        Some(pid) => pid,
        None => {
            return false;
        },
    };
    let i: usize = match sched.find(pid) {
        Some(i) => i,
        None => {
            return false;
        },
    };
    proof {
        assert(s0.placed(i as int));
    }
    let asked: bool = sched.tasks[i].inner.needs_resched;
    sched.tasks[i].inner.needs_resched = false;
    proof {
        let inner = TaskInner { needs_resched: false, ..s0.tasks@[i as int].inner };
        assert(sched.tasks@ =~= with_inner(s0.tasks@, i as int, inner));
        lemma_wf_same_place(*sched, s0, i as int, inner);
    }
    asked
}

/// Make a task that has never run runnable.
pub fn enroll(sched: &mut Scheduler, task: Task)
    requires
        old(sched).wf(),
        !known(old(sched).tasks@, task.pid.0),
        task.inner.unscheduled(),
        old(sched).queue.created() < u64::MAX,
    ensures
        final(sched).wf(),
        final(sched).tasks@ == old(sched).tasks@.push(task),
        final(sched).queue.levels() == queue::pushed(old(sched).queue.levels(), 0, task.pid.0),
        final(sched).queue.created() == old(sched).queue.created() + 1,
        final(sched).cpu == old(sched).cpu,
{
    let ghost s0 = *sched;
    let pid: u64 = task.pid.0;
    let ghost t = task;
    sched.queue.count_spawned();
    sched.queue.push(pid, 0);
    sched.tasks.push(task);
    proof {
        let l0 = s0.queue.levels();
        let l = sched.queue.levels();
        if queued(l0, pid) {
            let (k, a) = choose|k: int, a: int|
                0 <= k < l0.len() && 0 <= a < l0[k].len() && #[trigger] l0[k][a] == pid;
            assert(known(s0.tasks@, l0[k][a]));
        }
        lemma_pushed(l0, 0, pid);
        lemma_push_task(s0.tasks@, t);
        assert forall|j: int| 0 <= j < sched.tasks@.len() implies #[trigger] sched.placed(j) by {
            if j < s0.tasks@.len() {
                assert(s0.placed(j));
            }
        }
        assert forall|k: int, a: int| 0 <= k < 3 && 0 <= a < l[k].len() implies {
            let q = #[trigger] l[k][a];
            &&& known(sched.tasks@, q)
            &&& sched.tasks@[index(sched.tasks@, q)].inner.state == TaskState::Ready
            &&& sched.tasks@[index(sched.tasks@, q)].inner.level == k
        } by {
            if k == 0 && a == l0[k].len() {
                assert(l[k][a] == pid);
            } else {
                assert(l[k][a] == l0[k][a]);
                assert(known(s0.tasks@, l0[k][a]));
            }
        }
    }
}

/// One more task in the table.
pub proof fn lemma_push_task(tasks: Seq<Task>, t: Task)
    requires
        distinct(tasks),
        !known(tasks, t.pid.0),
    ensures
        distinct(tasks.push(t)),
        known(tasks.push(t), t.pid.0),
        index(tasks.push(t), t.pid.0) == tasks.len(),
        forall|p: u64| #[trigger] known(tasks.push(t), p) <==> known(tasks, p) || p == t.pid.0,
        forall|p: u64| known(tasks, p) ==> #[trigger] index(tasks.push(t), p) == index(tasks, p),
{
    let u = tasks.push(t);
    assert(u[tasks.len() as int] == t);
    assert forall|i: int, j: int|
        0 <= i < u.len() && 0 <= j < u.len() && (#[trigger] u[i]).pid.0 == (#[trigger] u[j]).pid.0 implies i == j by {
        if i < tasks.len() {
            assert(tasks[i].pid.0 == u[i].pid.0);
        }
        if j < tasks.len() {
            assert(tasks[j].pid.0 == u[j].pid.0);
        }
    }
    lemma_index(u, tasks.len() as int);
    assert forall|p: u64| #[trigger] known(u, p) <==> known(tasks, p) || p == t.pid.0 by {
        if known(u, p) {
            let a = index(u, p);
            if a < tasks.len() {
                assert(tasks[a].pid.0 == p);
            }
        }
        if known(tasks, p) {
            let a = index(tasks, p);
            assert(u[a].pid.0 == p);
        }
    }
    assert forall|p: u64| known(tasks, p) implies #[trigger] index(u, p) == index(tasks, p) by {
        let a = index(tasks, p);
        assert(u[a].pid.0 == p);
        lemma_index(u, a);
    }
}

/// One task less in the table.
pub proof fn lemma_remove_task(tasks: Seq<Task>, i: int)
    requires
        distinct(tasks),
        0 <= i < tasks.len(),
    ensures
        distinct(tasks.remove(i)),
        forall|p: u64| #[trigger] known(tasks.remove(i), p) <==> known(tasks, p) && p != tasks[i].pid.0,
        forall|p: u64|
            known(tasks, p) && p != tasks[i].pid.0 ==> tasks.remove(i)[#[trigger] index(tasks.remove(i), p)]
                == tasks[index(tasks, p)],
{
    let u = tasks.remove(i);
    assert forall|a: int| 0 <= a < u.len() implies #[trigger] u[a] == tasks[if a < i {
        a
    } else {
        a + 1
    }] by {}
    assert forall|a: int, b: int|
        0 <= a < u.len() && 0 <= b < u.len() && (#[trigger] u[a]).pid.0 == (#[trigger] u[b]).pid.0 implies a == b by {}
    assert forall|p: u64| #[trigger] known(u, p) <==> known(tasks, p) && p != tasks[i].pid.0 by {
        if known(u, p) {
            let a = index(u, p);
            let b = if a < i {
                a
            } else {
                a + 1
            };
            assert(tasks[b].pid.0 == p);
        }
        if known(tasks, p) && p != tasks[i].pid.0 {
            let b = index(tasks, p);
            let a = if b < i {
                b
            } else {
                b - 1
            };
            assert(u[a].pid.0 == p);
        }
    }
    assert forall|p: u64| known(tasks, p) && p != tasks[i].pid.0 implies u[#[trigger] index(u, p)] == tasks[index(
        tasks,
        p,
    )] by {
        assert(known(u, p));
        let a = index(u, p);
        let b = if a < i {
            a
        } else {
            a + 1
        };
        assert(tasks[b].pid.0 == p);
        lemma_index(tasks, b);
    }
}

/// What the idle loop does next.
pub enum Dispatch {
    /// Nothing to run: wait for an interrupt, with interrupts enabled around the
    /// wait or the timer that would end it can never arrive, and look again.
    Idle,
    /// Switch to the task, which resumes here.
    Task(u64, TaskContext),
}

/// The tasks and the queue once the task that just switched away was dealt with. A
/// ready one goes back on the queue of its level. A blocked one is named by the
/// wait queue that will wake it, and a zombie by whoever may wait for it; if
/// nobody may, it is freed.
pub open spec fn settled(s: Scheduler) -> Runnable {
    match s.cpu.previous {
        None => s.view(),
        Some(p) => {
            let t = s.tasks@[index(s.tasks@, p)].inner;
            match t.state {
                TaskState::Ready => Runnable {
                    tasks: s.tasks@,
                    levels: queue::pushed(s.queue.levels(), t.level as int, p),
                },
                TaskState::Zombie => Runnable { tasks: family::swept(s.tasks@), levels: s.queue.levels() },
                _ => s.view(),
            }
        },
    }
}

/// What picking does to the queue.
proof fn lemma_popped(l0: Seq<Seq<u64>>, k0: int)
    requires
        0 <= k0 < l0.len(),
        l0[k0].len() > 0,
        once(l0),
    ensures
        once(queue::popped(l0, k0)),
        forall|q: u64| #[trigger] queued(queue::popped(l0, k0), q) <==> queued(l0, q) && q != l0[k0][0],
{
    let l = queue::popped(l0, k0);
    let pid = l0[k0][0];
    assert forall|k: int, a: int| 0 <= k < l.len() && 0 <= a < l[k].len() implies #[trigger] l[k][a] == l0[k][if k
        == k0 {
        a + 1
    } else {
        a
    }] by {}
    assert forall|k: int, a: int, m: int, b: int|
        0 <= k < l.len() && 0 <= a < l[k].len() && 0 <= m < l.len() && 0 <= b < l[m].len() && #[trigger] l[k][a]
            == #[trigger] l[m][b] implies k == m && a == b by {
        let a1 = if k == k0 {
            a + 1
        } else {
            a
        };
        let b1 = if m == k0 {
            b + 1
        } else {
            b
        };
        assert(l0[k][a1] == l0[m][b1]);
    }
    assert forall|q: u64| #[trigger] queued(l, q) <==> queued(l0, q) && q != pid by {
        if queued(l, q) {
            let (k, a) = choose|k: int, a: int|
                0 <= k < l.len() && 0 <= a < l[k].len() && #[trigger] l[k][a] == q;
            let a1 = if k == k0 {
                a + 1
            } else {
                a
            };
            assert(l0[k][a1] == q);
            if q == pid {
                assert(l0[k0][0] == l0[k][a1]);
            }
        }
        if queued(l0, q) && q != pid {
            let (k, a) = choose|k: int, a: int|
                0 <= k < l0.len() && 0 <= a < l0[k].len() && #[trigger] l0[k][a] == q;
            let a1 = if k == k0 {
                a - 1
            } else {
                a
            };
            assert(l[k][a1] == q);
        }
    }
}

/// A task that is picked leaves the queue and runs.
proof fn lemma_wf_dispatched(s: Scheduler, s0: Scheduler, k0: int, i: int)
    requires
        s0.wf(),
        s0.cpu.current is None,
        s0.cpu.previous is None,
        0 <= k0 < 3,
        s0.queue.levels()[k0].len() > 0,
        0 <= i < s0.tasks@.len(),
        s0.tasks@[i].pid.0 == s0.queue.levels()[k0][0],
        s.queue.levels() == queue::popped(s0.queue.levels(), k0),
        s.tasks@ == with_inner(s0.tasks@, i, dispatched(s0.tasks@[i].inner)),
        s.cpu.current == Some(s0.tasks@[i].pid.0),
        s.cpu.previous is None,
    ensures
        s.wf(),
{
    let pid = s0.tasks@[i].pid.0;
    let l0 = s0.queue.levels();
    let l = s.queue.levels();
    let inner = dispatched(s0.tasks@[i].inner);
    lemma_with_inner(s0.tasks@, i, inner);
    lemma_index(s0.tasks@, i);
    lemma_popped(l0, k0);
    assert forall|j: int| 0 <= j < s.tasks@.len() implies #[trigger] s.placed(j) by {
        assert(s0.placed(j));
        if j != i {
            lemma_index(s0.tasks@, j);
        }
    }
    assert forall|k: int, a: int| 0 <= k < 3 && 0 <= a < l[k].len() implies {
        let q = #[trigger] l[k][a];
        &&& known(s.tasks@, q)
        &&& s.tasks@[index(s.tasks@, q)].inner.state == TaskState::Ready
        &&& s.tasks@[index(s.tasks@, q)].inner.level == k
    } by {
        let a1 = if k == k0 {
            a + 1
        } else {
            a
        };
        assert(l[k][a] == l0[k][a1]);
        assert(known(s0.tasks@, l0[k][a1]));
        assert(queued(l, l[k][a]));
    }
}

/// Deal with whoever just switched away. This runs on the idle context, so the
/// task's own stack and registers are safely saved by now.
fn settle(sched: &mut Scheduler, mem: &mut Memory, kernel: &AddressSpace)
    requires
        old(mem).wf(),
        kernel.wf(*old(mem)),
        kernel.supervisor(*old(mem)),
        old(sched).wf(),
        old(sched).cpu.current is None,
        family::kin(old(sched).tasks@),
        family::backed(old(sched).tasks@, *old(mem), *kernel),
    ensures
        final(mem).wf(),
        kernel.wf(*final(mem)),
        kernel.supervisor(*final(mem)),
        final(sched).wf(),
        family::kin(final(sched).tasks@),
        family::backed(final(sched).tasks@, *final(mem), *kernel),
        final(sched).view() == settled(*old(sched)),
        final(sched).cpu.current is None,
        final(sched).cpu.previous is None,
        final(sched).cpu.idle == old(sched).cpu.idle,
        final(sched).queue.created() == old(sched).queue.created(),
        final(mem).gave(
            *old(mem),
            family::holdings(old(sched).tasks@).difference(family::holdings(final(sched).tasks@)),
        ),
{
    let ghost s0 = *sched;
    let ghost m0 = *mem;
    proof {
        assert(family::holdings(s0.tasks@).difference(family::holdings(s0.tasks@)) =~= Set::empty());
        m0.lemma_grew_none(m0);
    }
    let pid: u64 = match sched.cpu.previous {
        Some(pid) => pid,
        None => {
            return;
        },
    };
    let i: usize = match sched.find(pid) {
        Some(i) => i,
        None => {
            assert(false);
            0
        },
    };
    proof {
        assert(s0.placed(i as int));
        lemma_index(s0.tasks@, i as int);
    }
    let state: TaskState = sched.tasks[i].inner.state;
    let level: usize = sched.tasks[i].inner.level;
    sched.cpu.previous = None;
    match state {
        TaskState::Ready => {
            sched.queue.push(pid, level);
            proof {
                let inner = s0.tasks@[i as int].inner;
                assert(with_inner(s0.tasks@, i as int, inner) =~= s0.tasks@);
                lemma_wf_queued(*sched, s0, i as int, inner);
            }
        },
        TaskState::Blocked => {
            proof {
                assert forall|j: int| 0 <= j < sched.tasks@.len() implies #[trigger] sched.placed(j) by {
                    assert(s0.placed(j));
                    lemma_index(s0.tasks@, j);
                }
            }
        },
        TaskState::Zombie => {
            proof {
                assert forall|j: int| 0 <= j < sched.tasks@.len() implies #[trigger] sched.placed(j) by {
                    assert(s0.placed(j));
                    lemma_index(s0.tasks@, j);
                }
            }
            family::sweep(sched, mem, kernel);
        },
        TaskState::Running => {
            assert(false);
        },
    }
}

/// The scheduler has gone from `before` to `after` by settling the task that the hart
/// left and picking the first one of the highest level that has any.
pub open spec fn picked(after: Scheduler, before: Scheduler, r: Dispatch) -> bool {
    let v = settled(before);
    let k = queue::first_level(v.levels, 0);
    if k < PRIORITY_LEVELS {
        let pid = v.levels[k][0];
        let i = index(v.tasks, pid);
        &&& known(v.tasks, pid)
        &&& r == Dispatch::Task(pid, v.tasks[i].inner.ctx)
        &&& after.tasks@ == with_inner(v.tasks, i, dispatched(v.tasks[i].inner))
        &&& after.queue.levels() == queue::popped(v.levels, k)
        &&& after.cpu.current == Some(pid)
    } else {
        &&& r == Dispatch::Idle
        &&& after.view() == v
        &&& after.cpu.current is None
    }
}

/// One round of the idle loop: deal with whoever just switched away, and pick the
/// next task.
pub fn run(sched: &mut Scheduler, mem: &mut Memory, kernel: &AddressSpace) -> (r: Dispatch)
    requires
        old(mem).wf(),
        kernel.wf(*old(mem)),
        kernel.supervisor(*old(mem)),
        old(sched).wf(),
        old(sched).cpu.current is None,
        family::kin(old(sched).tasks@),
        family::backed(old(sched).tasks@, *old(mem), *kernel),
    ensures
        final(mem).wf(),
        kernel.wf(*final(mem)),
        kernel.supervisor(*final(mem)),
        final(sched).wf(),
        family::kin(final(sched).tasks@),
        family::backed(final(sched).tasks@, *final(mem), *kernel),
        final(sched).cpu.previous is None,
        final(sched).cpu.idle == old(sched).cpu.idle,
        final(sched).queue.created() == old(sched).queue.created(),
        final(mem).gave(
            *old(mem),
            family::holdings(old(sched).tasks@).difference(family::holdings(final(sched).tasks@)),
        ),
        picked(*final(sched), *old(sched), r),
{
    let ghost s0 = *sched;
    settle(sched, mem, kernel);
    let ghost s1 = *sched;
    let pid: u64 = match sched.queue.pop() {
        Some(pid) => pid,
        None => {
            proof {
                assert forall|j: int| 0 <= j < sched.tasks@.len() implies #[trigger] sched.placed(j) by {
                    assert(s1.placed(j));
                }
            }
            return Dispatch::Idle;
        },
    };
    let ghost k = queue::first_level(s1.queue.levels(), 0);
    proof {
        lemma_first_found(s1.queue.levels(), 0);
        assert(s1.queue.levels()[k][0] == pid);
        assert(known(s1.tasks@, pid));
    }
    let i: usize = match sched.find(pid) {
        Some(i) => i,
        None => {
            assert(false);
            0
        },
    };
    let ctx: TaskContext = sched.tasks[i].inner.ctx;
    sched.tasks[i].inner.state = TaskState::Running;
    sched.tasks[i].inner.needs_resched = false;
    sched.cpu.current = Some(pid);
    proof {
        let inner = dispatched(s1.tasks@[i as int].inner);
        assert(sched.tasks@ =~= with_inner(s1.tasks@, i as int, inner));
        lemma_wf_dispatched(*sched, s1, k, i as int);
        family::lemma_rescheduled(sched.tasks@, s1.tasks@, i as int, inner, *mem, *kernel);
    }
    Dispatch::Task(pid, ctx)
}

/// The level that is picked has a task.
proof fn lemma_first_found(levels: Seq<Seq<u64>>, i: int)
    requires
        0 <= i,
        queue::first_level(levels, i) < levels.len(),
    ensures
        i <= queue::first_level(levels, i),
        levels[queue::first_level(levels, i)].len() > 0,
    decreases levels.len() - i,
{
    if i < levels.len() && levels[i].len() == 0 {
        lemma_first_found(levels, i + 1);
    }
}

/// `after` is `before` with a task added at the end of the table and of the highest
/// level of the queue.
pub open spec fn joined(after: Scheduler, before: Scheduler) -> bool {
    let t = after.tasks@.last();
    &&& after.tasks@ == before.tasks@.push(t)
    &&& after.queue.levels() == queue::pushed(before.queue.levels(), 0, t.pid.0)
    &&& after.queue.created() == before.queue.created() + 1
    &&& after.cpu == before.cpu
}

/// Create a kernel task and make it runnable. `None`, and nothing taken, if there
/// is no memory for its stack.
pub fn spawn(
    sched: &mut Scheduler,
    mem: &mut Memory,
    kernel: &AddressSpace,
    pids: &mut Pids,
    name: &[u8],
    entry: u64,
    trampoline: u64,
) -> (r: Option<Pid>)
    requires
        old(mem).wf(),
        kernel.wf(*old(mem)),
        kernel.supervisor(*old(mem)),
        old(sched).wf(),
        family::kin(old(sched).tasks@),
        family::backed(old(sched).tasks@, *old(mem), *kernel),
        family::numbered(old(sched).tasks@, old(pids).upcoming()),
        old(pids).upcoming() < u64::MAX,
        0 < old(pids).upcoming(),
        old(sched).queue.created() < u64::MAX,
    ensures
        final(mem).wf(),
        kernel.wf(*final(mem)),
        kernel.supervisor(*final(mem)),
        final(sched).wf(),
        family::kin(final(sched).tasks@),
        family::backed(final(sched).tasks@, *final(mem), *kernel),
        family::numbered(final(sched).tasks@, final(pids).upcoming()),
        r is Some <==> buddy::donor(old(mem).lists(), 3) <= 10,
        match r {
            Some(pid) => {
                let t = final(sched).tasks@.last();
                &&& pid.0 == old(pids).upcoming()
                &&& t.pid == pid
                &&& t.is_new_kernel(name@, entry, trampoline)
                &&& t.inner.kstack.intact(*final(mem))
                &&& joined(*final(sched), *old(sched))
                &&& final(mem).took(*old(mem), t.frames())
                &&& final(pids).upcoming() == old(pids).upcoming() + 1
            },
            None => *final(sched) == *old(sched) && *final(mem) == *old(mem) && *final(pids) == *old(pids),
        },
{
    let ghost s0 = *sched;
    let ghost m0 = *mem;
    let task: Task = match Task::new_kernel(mem, pids, name, entry, trampoline) {
        Some(task) => task,
        None => {
            return None;
        },
    };
    let pid: Pid = task.pid;
    let ghost t = task;
    proof {
        family::lemma_numbered(s0.tasks@, pid.0);
        family::lemma_kin_join(s0.tasks@, t, pid.0);
        family::lemma_backed_join(s0.tasks@, t, m0, *mem, *kernel);
        process::lemma_survives(*kernel, m0, *mem, Set::empty());
    }
    enroll(sched, task);
    proof {
        assert(sched.tasks@.last() == t);
        assert forall|i: int| 0 <= i < sched.tasks@.len() implies #[trigger] family::numbered_at(
            sched.tasks@,
            pids.upcoming(),
            i,
        ) by {
            if i < s0.tasks@.len() {
                assert(family::numbered_at(s0.tasks@, pid.0, i));
            }
        }
    }
    Some(pid)
}

/// What exiting makes of a task: the code is kept for whoever collects it, and the
/// address space is given up at once, not when the code is collected.
pub open spec fn finished(t: TaskInner, code: i32) -> TaskInner {
    TaskInner { exit_code: code, space: None, ..t }
}

/// `after` is `before` with the running task exited.
pub open spec fn exited(after: Scheduler, before: Scheduler, code: i32, ctx: TaskContext) -> bool {
    let pid = before.cpu.current->0;
    let i = index(before.tasks@, pid);
    let gone = Runnable {
        tasks: with_inner(before.tasks@, i, finished(before.tasks@[i].inner, code)),
        levels: before.queue.levels(),
    };
    &&& exists|mid: Runnable|
        {
            &&& #[trigger] family::departed(mid, gone, pid)
            &&& after.tasks@ == with_inner(mid.tasks, i, parked(mid.tasks[i].inner, TaskState::Zombie, ctx))
            &&& after.queue.levels() == mid.levels
        }
    &&& after.cpu.current is None
    &&& after.cpu.previous == Some(pid)
    &&& after.cpu.idle == before.cpu.idle
}

/// Terminate the current task: it never runs again. The hart moves to the kernel's
/// address space and that of the task goes back, its children are handed over, and
/// whoever waits for it is woken.
#[verifier::rlimit(60)]
pub fn exit_current(
    sched: &mut Scheduler,
    mem: &mut Memory,
    kernel: &AddressSpace,
    hart: &mut Hart,
    code: i32,
    ctx: TaskContext,
) -> (r: Result<bool, StackOverflow>)
    requires
        old(mem).wf(),
        kernel.wf(*old(mem)),
        kernel.supervisor(*old(mem)),
        old(sched).wf(),
        old(sched).cpu.current is Some,
        family::kin(old(sched).tasks@),
        family::backed(old(sched).tasks@, *old(mem), *kernel),
    ensures
        final(mem).wf(),
        kernel.wf(*final(mem)),
        kernel.supervisor(*final(mem)),
        final(sched).wf(),
        family::kin(final(sched).tasks@),
        family::backed(final(sched).tasks@, *final(mem), *kernel),
        r is Ok <==> old(sched).running().inner.kstack.intact(*old(mem)),
        final(mem).gave(*old(mem), old(sched).running().user_frames()),
        r matches Ok(was) ==> {
            &&& was == arch::enabled(old(hart).sstatus)
            &&& exited(*final(sched), *old(sched), code, ctx)
            &&& final(sched).queue.created() == old(sched).queue.created()
            &&& *final(hart) == (Hart {
                sstatus: arch::with_enable(old(hart).sstatus, false),
                satp: final(hart).satp,
                ..*old(hart)
            })
        },
        r matches Err(e) ==> {
            &&& e.pid == old(sched).cpu.current->0
            &&& *final(hart) == (Hart { satp: final(hart).satp, ..*old(hart) })
        },
        final(hart).satp == kernel.spec_token(),
{
    let ghost s0 = *sched;
    let ghost m0 = *mem;
    let pid: u64 = sched.cpu.current.unwrap();
    let i: usize = match sched.find(pid) {
        Some(i) => i,
        None => {
            assert(false);
            0
        },
    };
    let ghost t0 = s0.tasks@[i as int];
    proof {
        assert(s0.placed(i as int));
        lemma_index(s0.tasks@, i as int);
        t0.lemma_sound(m0, *kernel);
        t0.inner.kstack.lemma_valid(m0);
        m0.lemma_grew_none(m0);
        assert(t0.sound(m0, *kernel));
    }
    sched.tasks[i].inner.exit_code = code;
    // The hart may be running in the space that goes.
    hart.satp = kernel.token(mem);
    let space: Option<AddressSpace> = sched.tasks[i].inner.space.take();
    if let Some(space) = space {
        proof {
            space.lemma_live(m0);
        }
        space.release(mem);
        proof {
            mem.lemma_gave_shrank(m0, t0.user_frames());
        }
    }
    let ghost s1 = *sched;
    let ghost m1 = *mem;
    proof {
        assert(m1.gave(m0, t0.user_frames()));
        let inner = finished(t0.inner, code);
        assert(s1.tasks@ =~= with_inner(s0.tasks@, i as int, inner));
        lemma_wf_same_place(s1, s0, i as int, inner);
        family::lemma_finished(s1.tasks@, s0.tasks@, i as int, inner, m0, m1, *kernel);
        process::lemma_survives(*kernel, m0, m1, t0.user_frames());
        lemma_with_inner(s0.tasks@, i as int, inner);
    }
    family::on_exit(sched, pid);
    let ghost s2 = *sched;
    proof {
        family::lemma_departed_holdings(s2.view(), s1.view(), pid);
        family::lemma_same_holdings(s2.tasks@, s1.tasks@, m1, *kernel);
        assert(s2.tasks@[i as int].inner.kstack == t0.inner.kstack);
        assert(index(s2.tasks@, pid) == i);
        t0.inner.kstack.lemma_valid(m0);
        let k = t0.inner.kstack;
        assert(k.footprint().contains(k.ppn())) by {
            buddy::lemma_sizes();
        }
        assert(m1.same_frame(m0, k.ppn()));
        assert(m1.word(k.ppn(), 0) == m0.word(k.ppn(), 0));
    }
    let r = switch_to_idle(sched, mem, hart, TaskState::Zombie, ctx);
    proof {
        if r is Ok {
            let inner = parked(s2.tasks@[i as int].inner, TaskState::Zombie, ctx);
            family::lemma_rescheduled(sched.tasks@, s2.tasks@, i as int, inner, m1, *kernel);
            assert(family::departed(s2.view(), s1.view(), pid));
        }
    }
    r
}

/// Number of runnable tasks, plus the total ever spawned.
pub fn stats(sched: &Scheduler) -> (r: (usize, u64))
    requires
        sched.wf(),
        queue::total(sched.queue.levels(), PRIORITY_LEVELS as int) <= usize::MAX,
    ensures
        r.0 == queue::total(sched.queue.levels(), PRIORITY_LEVELS as int),
        r.1 == sched.queue.created(),
{
    (sched.queue.len(), sched.queue.spawned())
}

/// A wakeup is never lost. One that arrives after the caller queued itself but
/// before it has switched away leaves it runnable, and the note is used up; one
/// that arrives later finds it blocked and makes it ready.
pub proof fn law_no_lost_wakeup(t: TaskInner, ctx: TaskContext)
    requires
        t.state == TaskState::Running,
    ensures
        parked(woken(t), TaskState::Blocked, ctx).state == TaskState::Ready,
        !parked(woken(t), TaskState::Blocked, ctx).wakeup_pending,
        !t.wakeup_pending ==> parked(t, TaskState::Blocked, ctx).state == TaskState::Blocked,
        woken(parked(t, TaskState::Blocked, ctx)).state == TaskState::Ready,
{
}

/// Waking a task twice queues it once.
pub proof fn law_waking_twice_queues_once(r: Runnable, pid: u64)
    requires
        distinct(r.tasks),
        known(r.tasks, pid),
    ensures
        after_wake(after_wake(r, pid), pid).levels == after_wake(r, pid).levels,
        ({
            let i = index(r.tasks, pid);
            after_wake(after_wake(r, pid), pid).tasks[i].inner.state == after_wake(r, pid).tasks[i].inner.state
        }),
{
    let i = index(r.tasks, pid);
    lemma_with_inner(r.tasks, i, woken(r.tasks[i].inner));
}

/// What `n` expired quanta in a row make of a task.
pub open spec fn ticked_times(t: TaskInner, n: int) -> TaskInner
    decreases n,
{
    if n <= 0 {
        t
    } else {
        ticked(ticked_times(t, n - 1))
    }
}

/// A task that burns a full allowance of quanta without blocking drops one level,
/// down to the lowest.
pub proof fn law_compute_bound_work_sinks(t: TaskInner)
    requires
        t.ticks == 0,
        t.level < PRIORITY_LEVELS,
    ensures
        ({
            let u = ticked_times(t, QUANTA_PER_LEVEL as int);
            &&& u.ticks == 0
            &&& u.level == (if t.level + 1 < PRIORITY_LEVELS {
                t.level + 1
            } else {
                t.level as int
            })
        }),
        forall|n: int| 0 <= n < QUANTA_PER_LEVEL ==> (#[trigger] ticked_times(t, n)).level == t.level,
{
    reveal_with_fuel(ticked_times, 5);
}

/// A task that blocked before its quantum ran out rises one level, up to the
/// highest, with a fresh allowance.
pub proof fn law_blocking_rises(t: TaskInner)
    requires
        t.state == TaskState::Blocked,
        t.level < PRIORITY_LEVELS,
    ensures
        woken(t).ticks == 0,
        woken(t).level == (if t.level > 0 {
            t.level - 1
        } else {
            0
        }),
{
}

/// An expired quantum makes the running task yield: the flag that the timer sets is
/// what the trap exit path acts on, once.
pub proof fn law_tick_preempts(t: TaskInner)
    ensures
        ticked(t).needs_resched,
        ticked(t).state == t.state,
        !dispatched(t).needs_resched,
{
}

/// A task is only on the run queue after it has finished switching off its stack:
/// one that is queued is neither the task that runs nor the one that the hart has
/// just left.
pub proof fn law_queued_tasks_are_off_the_hart(s: Scheduler, pid: u64)
    requires
        s.wf(),
        queued(s.queue.levels(), pid),
    ensures
        s.cpu.current != Some(pid),
        s.cpu.previous != Some(pid),
        known(s.tasks@, pid),
        s.tasks@[index(s.tasks@, pid)].inner.state == TaskState::Ready,
{
    let l = s.queue.levels();
    let (k, a) = choose|k: int, a: int| 0 <= k < l.len() && 0 <= a < l[k].len() && #[trigger] l[k][a] == pid;
    assert(known(s.tasks@, l[k][a]));
}

/// At most one task runs.
pub proof fn law_one_task_runs(s: Scheduler, i: int, j: int)
    requires
        s.wf(),
        0 <= i < s.tasks@.len(),
        0 <= j < s.tasks@.len(),
        s.tasks@[i].inner.state == TaskState::Running,
        s.tasks@[j].inner.state == TaskState::Running,
    ensures
        i == j,
{
    assert(s.placed(i) && s.placed(j));
}

/// Every runnable task is on the run queue, unless the hart is just leaving it: no
/// task that can run is forgotten.
pub proof fn law_ready_tasks_are_queued(s: Scheduler, i: int)
    requires
        s.wf(),
        0 <= i < s.tasks@.len(),
        s.tasks@[i].inner.state == TaskState::Ready,
    ensures
        queued(s.queue.levels(), s.tasks@[i].pid.0) || s.cpu.previous == Some(s.tasks@[i].pid.0),
{
    assert(s.placed(i));
}

/// A line of the task table.
pub struct Row {
    /// Process id.
    pub pid: u64,
    /// Process id of the parent, or 0.
    pub ppid: u64,
    /// Name.
    pub name: Vec<u8>,
    /// Lifecycle state.
    pub state: TaskState,
    /// Queue level.
    pub level: usize,
    /// Bytes of kernel stack that were unused when the task last switched away.
    pub headroom: u64,
}

/// Process id of the parent of task `i`, or 0 if it has none.
pub open spec fn parent_pid(tasks: Seq<Task>, i: int) -> u64 {
    match tasks[i].inner.parent {
        Some(q) => if known(tasks, q) {
            q
        } else {
            0
        },
        None => 0,
    }
}

/// The line of task `i`.
pub open spec fn row_of(r: Row, tasks: Seq<Task>, i: int) -> bool {
    let t = tasks[i];
    &&& r.pid == t.pid.0
    &&& r.ppid == parent_pid(tasks, i)
    &&& r.name@ == t.name@
    &&& r.state == t.inner.state
    &&& r.level == t.inner.level
    &&& r.headroom == (if t.inner.ctx.sp >= t.inner.kstack.low() {
        t.inner.ctx.sp - t.inner.kstack.low()
    } else {
        0
    })
}

/// The parent of task `i`, or 0.
pub fn parent_of(sched: &Scheduler, i: usize) -> (r: u64)
    requires
        i < sched.tasks@.len(),
    ensures
        r == parent_pid(sched.tasks@, i as int),
{
    match sched.tasks[i].inner.parent {
        Some(q) => {
            if sched.find(q).is_some() {
                q
            } else {
                0
            }
        },
        None => 0,
    }
}

/// The task table, for `ps`.
pub fn dump_tasks(sched: &Scheduler, mem: &Memory, kernel: &AddressSpace) -> (rows: Vec<Row>)
    requires
        mem.wf(),
        sched.wf(),
        family::backed(sched.tasks@, *mem, *kernel),
    ensures
        rows@.len() == sched.tasks@.len(),
        forall|i: int| 0 <= i < rows@.len() ==> row_of(#[trigger] rows@[i], sched.tasks@, i),
{
    let mut rows: Vec<Row> = Vec::new();
    let mut i: usize = 0;
    while i < sched.tasks.len()
        invariant
            i == rows@.len() <= sched.tasks@.len(),
            mem.wf(),
            family::backed(sched.tasks@, *mem, *kernel),
            forall|j: int| 0 <= j < i ==> row_of(#[trigger] rows@[j], sched.tasks@, j),
        decreases sched.tasks@.len() - i,
    {
        assert(sched.tasks@[i as int].sound(*mem, *kernel));
        let t: &Task = &sched.tasks[i];
        let row = Row {
            pid: t.pid.0,
            ppid: parent_of(sched, i),
            name: copy_bytes(t.name.as_slice()),
            state: t.inner.state,
            level: t.inner.level,
            headroom: t.inner.kstack.headroom(mem, t.inner.ctx.sp),
        };
        rows.push(row);
        i = i + 1;
    }
    rows
}

} // verus!
