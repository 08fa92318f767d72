//! What holds of scheduling as a whole.

use vstd::prelude::*;
use crate::kernel::{self, Kernel};
use crate::task::family;
use crate::task::queue;
use crate::task::scheduler::{self, Dispatch, Runnable, Scheduler};
use crate::task::{Task, TaskContext, TaskInner, TaskState};

verus! {

/// A quantum has gone by between `before` and `after`: the timer ticked, and the task that
/// ran gave way to the next one.
pub open spec fn quantum(after: Scheduler, before: Scheduler) -> bool {
    exists|s: Scheduler, ctx: TaskContext, r: Dispatch| #[trigger] gave_way(after, s, before, ctx, r)
}

/// The task that runs in `before` has a tick accounted and is left ready in `mid`; `after`
/// is what the idle loop makes of that.
pub open spec fn gave_way(after: Scheduler, mid: Scheduler, before: Scheduler, ctx: TaskContext, r: Dispatch) -> bool {
    let i = scheduler::index(before.tasks@, before.cpu.current->0);
    let ran = TaskInner { needs_resched: false, ..scheduler::ticked(before.tasks@[i].inner) };
    &&& mid.wf()
    &&& mid.tasks@ == scheduler::with_inner(before.tasks@, i, scheduler::parked(ran, TaskState::Ready, ctx))
    &&& mid.queue.levels() == before.queue.levels()
    &&& mid.cpu.current is None
    &&& mid.cpu.previous == before.cpu.current
    &&& scheduler::picked(after, mid, r)
    &&& after.wf()
}

/// One task runs, and all that wait are on the lowest level with it.
pub open spec fn all_lowest(s: Scheduler) -> bool {
    &&& s.wf()
    &&& s.cpu.current is Some
    &&& s.running().inner.level == 2
    &&& s.queue.levels()[0].len() == 0
    &&& s.queue.levels()[1].len() == 0
}

/// One round on the lowest level: the task that was first in line runs, and the one that
/// ran is last in line.
proof fn lemma_round(after: Scheduler, before: Scheduler)
    requires
        all_lowest(before),
        quantum(after, before),
    ensures
        all_lowest(after),
        ({
            let line = before.queue.levels()[2].push(before.cpu.current->0);
            &&& after.cpu.current == Some(line[0])
            &&& after.queue.levels()[2] == line.skip(1)
        }),
{
    let (mid, ctx, r) = choose|mid: Scheduler, ctx: TaskContext, r: Dispatch| #[trigger]
        gave_way(after, mid, before, ctx, r);
    let p = before.cpu.current->0;
    let tasks = before.tasks@;
    let i = scheduler::index(tasks, p);
    let ran = TaskInner { needs_resched: false, ..scheduler::ticked(tasks[i].inner) };
    let inner = scheduler::parked(ran, TaskState::Ready, ctx);
    scheduler::lemma_with_inner(tasks, i, inner);
    assert(mid.tasks@[i].inner.level == 2);
    let l0 = before.queue.levels();
    let v = scheduler::settled(mid);
    assert(scheduler::index(mid.tasks@, p) == i);
    assert(v.levels == queue::pushed(l0, 2, p));
    queue::law_push_goes_behind_all(l0, 2, p);
    let line = l0[2].push(p);
    assert(v.levels[2] =~= line);
    queue::lemma_first_level(v.levels, 0, 2);
    assert(queue::first_level(v.levels, 0) == 2);
    let n = line[0];
    assert(v.levels[2][0] == n);
    let j = scheduler::index(v.tasks, n);
    scheduler::lemma_with_inner(v.tasks, j, scheduler::dispatched(v.tasks[j].inner));
    assert(after.queue.levels()[2] =~= line.skip(1));
    assert(v.tasks[j].inner.level == 2) by {
        if l0[2].len() > 0 {
            assert(l0[2][0] == n);
            assert(tasks[scheduler::index(tasks, l0[2][0])].inner.level == 2);
        }
    }
}

/// Tasks that only compute take turns: with everyone on the lowest level, the tasks that
/// wait run in the order in which they wait, one quantum each, and once all have had
/// theirs it is the turn of the one that ran before them. So with `n` tasks each one is
/// picked within `n` rounds.
pub proof fn law_compute_bound_tasks_take_turns(run: Seq<Scheduler>, line: Seq<u64>, j: int)
    requires
        run.len() > line.len() + 1,
        all_lowest(run[0]),
        line == run[0].queue.levels()[2],
        forall|i: int| 0 <= i < run.len() - 1 ==> quantum(#[trigger] run[i + 1], run[i]),
        0 <= j <= line.len(),
    ensures
        run[j + 1].cpu.current == (if j < line.len() {
            Some(line[j])
        } else {
            run[0].cpu.current
        }),
{
    lemma_turns(run, line.push(run[0].cpu.current->0), j);
}

proof fn lemma_turns(run: Seq<Scheduler>, round: Seq<u64>, j: int)
    requires
        run.len() > round.len(),
        all_lowest(run[0]),
        round == run[0].queue.levels()[2].push(run[0].cpu.current->0),
        forall|i: int| 0 <= i < run.len() - 1 ==> quantum(#[trigger] run[i + 1], run[i]),
        0 <= j < round.len(),
    ensures
        all_lowest(run[j + 1]),
        run[j + 1].cpu.current == Some(round[j]),
        run[j + 1].queue.levels()[2] == round.skip(j + 1) + round.take(j),
    decreases j,
{
    if j == 0 {
        assert(quantum(run[0int + 1], run[0]));
        lemma_round(run[1], run[0]);
        assert(round.skip(1) + round.take(0) =~= round.skip(1));
    } else {
        lemma_turns(run, round, j - 1);
        assert(quantum(run[j + 1], run[j]));
        lemma_round(run[j + 1], run[j]);
        let line = run[j].queue.levels()[2].push(round[j - 1]);
        assert(line =~= round.skip(j) + round.take(j));
        assert(line[0] == round[j]);
        assert(line.skip(1) =~= round.skip(j + 1) + round.take(j));
    }
}

/// Of two tasks that wait, the one that is ahead stays ahead through every step of the
/// scheduler until it runs: what is woken or created goes behind, what gives way goes
/// behind, and the idle loop picks the other one first.
pub proof fn law_no_task_is_overtaken(after: Scheduler, before: Scheduler, r: Dispatch, a: u64, b: u64)
    requires
        before.wf(),
        before.cpu.current is None,
        queue::ahead(before.queue.levels(), a, b),
        scheduler::picked(after, before, r),
    ensures
        after.cpu.current is Some,
        after.cpu.current != Some(b),
        after.cpu.current == Some(a) || queue::ahead(after.queue.levels(), a, b),
{
    let l0 = before.queue.levels();
    let v = scheduler::settled(before);
    lemma_once(l0);
    if let Some(p) = before.cpu.previous {
        let t = before.tasks@[scheduler::index(before.tasks@, p)];
        assert(before.placed(scheduler::index(before.tasks@, p)));
        if t.inner.state == TaskState::Ready {
            queue::law_first_in_first_out(l0, a, b, t.inner.level as int, p);
            scheduler::lemma_pushed(l0, t.inner.level as int, p);
        }
    }
    assert(queue::ahead(v.levels, a, b));
    queue::law_first_in_first_out(v.levels, a, b, 0, 0);
}

proof fn lemma_once(levels: Seq<Seq<u64>>)
    requires
        scheduler::once(levels),
    ensures
        forall|i: int, x: int, j: int, y: int|
            0 <= i < levels.len() && 0 <= x < levels[i].len() && 0 <= j < levels.len() && 0 <= y < levels[j].len()
                && #[trigger] levels[i][x] == #[trigger] levels[j][y] ==> i == j && x == y,
{
}

/// A tick is accounted to the task that runs: at the fourth in a row it sinks a level, but
/// never below the last of the three, and its count starts anew. Either way it is to give
/// way, and nothing else of it changes.
pub proof fn law_tick_is_accounted(t: TaskInner)
    requires
        t.level <= 2,
        t.ticks <= 3,
    ensures
        t.ticks < 3 ==> scheduler::ticked(t).ticks == t.ticks + 1 && scheduler::ticked(t).level == t.level,
        t.ticks == 3 && t.level < 2 ==> scheduler::ticked(t).ticks == 0 && scheduler::ticked(t).level == t.level + 1,
        t.ticks == 3 && t.level == 2 ==> scheduler::ticked(t).ticks == 0 && scheduler::ticked(t).level == 2,
        scheduler::ticked(t).needs_resched,
        scheduler::ticked(t) == (TaskInner {
            ticks: scheduler::ticked(t).ticks,
            level: scheduler::ticked(t).level,
            needs_resched: true,
            ..t
        }),
{
}

/// Waking a task that sleeps makes it ready, a level higher unless it is on the highest,
/// with no ticks against it, and puts it behind all that wait on that level. One that
/// does not sleep only remembers that it was woken, and no one else is affected.
pub proof fn law_waking_makes_ready(r: Runnable, i: int, j: int)
    requires
        scheduler::distinct(r.tasks),
        r.levels.len() == 3,
        0 <= i < r.tasks.len(),
        0 <= j < r.tasks.len(),
        r.tasks[i].inner.level <= 2,
    ensures
        ({
            let pid = r.tasks[i].pid.0;
            let t = r.tasks[i].inner;
            let v = scheduler::after_wake(r, pid);
            let u = v.tasks[i].inner;
            let up = if t.level == 0 {
                0int
            } else {
                t.level - 1
            };
            &&& v.tasks.len() == r.tasks.len()
            &&& v.levels.len() == 3
            &&& v.tasks[i].pid == r.tasks[i].pid
            &&& j != i ==> v.tasks[j] == r.tasks[j]
            &&& t.state == TaskState::Blocked ==> {
                &&& u.state == TaskState::Ready
                &&& u.level == up
                &&& u.ticks == 0
                &&& u.wakeup_pending == t.wakeup_pending
                &&& u.ctx == t.ctx
                &&& v.levels[up].len() == r.levels[up].len() + 1
                &&& v.levels[up].last() == pid
                &&& forall|a: int| 0 <= a < r.levels[up].len() ==> #[trigger] v.levels[up][a] == r.levels[up][a]
                &&& forall|k: int| 0 <= k < 3 && k != up ==> #[trigger] v.levels[k] == r.levels[k]
            }
            &&& t.state != TaskState::Blocked ==> {
                &&& u == (TaskInner { wakeup_pending: true, ..t })
                &&& v.levels == r.levels
            }
        }),
{
    let pid = r.tasks[i].pid.0;
    scheduler::lemma_index(r.tasks, i);
    let t = r.tasks[i].inner;
    scheduler::lemma_with_inner(r.tasks, i, scheduler::woken(t));
    if t.state == TaskState::Blocked {
        queue::law_push_goes_behind_all(r.levels, scheduler::woken(t).level as int, pid);
    }
}

/// A task that leaves the hart to sleep sleeps, unless it was woken on the way: that wakeup
/// is used up, and it is ready at once. One that gives way stays ready. What it did is
/// saved, and neither its level nor its ticks change.
pub proof fn law_leaving_the_hart(t: TaskInner, ctx: TaskContext)
    ensures
        !t.wakeup_pending ==> scheduler::parked(t, TaskState::Blocked, ctx) == (TaskInner {
            state: TaskState::Blocked,
            ctx,
            ..t
        }),
        t.wakeup_pending ==> scheduler::parked(t, TaskState::Blocked, ctx) == (TaskInner {
            state: TaskState::Ready,
            wakeup_pending: false,
            ctx,
            ..t
        }),
        scheduler::parked(t, TaskState::Ready, ctx) == (TaskInner { state: TaskState::Ready, ctx, ..t }),
        scheduler::dispatched(t) == (TaskInner { state: TaskState::Running, needs_resched: false, ..t }),
{
}

/// The idle loop runs a task whenever one is ready, and none of a higher level waits then:
/// whoever waits, the task that runs is on the same level or a higher one. It goes on
/// from where it left off, and it is off the queue.
pub proof fn law_highest_level_runs(after: Scheduler, before: Scheduler, r: Dispatch, i: int)
    requires
        before.wf(),
        after.wf(),
        before.cpu.current is None,
        scheduler::picked(after, before, r),
        0 <= i < before.tasks@.len(),
        before.tasks@[i].inner.state == TaskState::Ready,
    ensures
        after.cpu.current matches Some(p) && r matches Dispatch::Task(q, ctx) && q == p && exists|j: int|
            {
                &&& 0 <= j < before.tasks@.len()
                &&& (#[trigger] before.tasks@[j]).pid.0 == p
                &&& before.tasks@[j].inner.state == TaskState::Ready
                &&& before.tasks@[j].inner.level <= before.tasks@[i].inner.level
                &&& before.tasks@[j].inner.ctx == ctx
            },
{
    let tasks = before.tasks@;
    let q = tasks[i].pid.0;
    let l = before.queue.levels();
    let v = scheduler::settled(before);
    assert(before.placed(i));
    scheduler::lemma_index(tasks, i);
    if let Some(p) = before.cpu.previous {
        let h = scheduler::index(tasks, p);
        assert(before.placed(h));
        if tasks[h].inner.state == TaskState::Ready {
            scheduler::lemma_pushed(l, tasks[h].inner.level as int, p);
            queue::law_push_goes_behind_all(l, tasks[h].inner.level as int, p);
        }
    }
    lemma_waits_on_its_level(before, i);
    let a = choose|a: int| 0 <= a < v.levels[tasks[i].inner.level as int].len()
        && v.levels[tasks[i].inner.level as int][a] == q;
    queue::lemma_first_level(v.levels, 0, tasks[i].inner.level as int);
    let k = queue::first_level(v.levels, 0);
    let p = v.levels[k][0];
    lemma_comes_from(before, k, 0);
    let j = scheduler::index(tasks, p);
    assert(tasks[j].pid.0 == p);
    if before.cpu.previous is Some && tasks[scheduler::index(tasks, before.cpu.previous->0)].inner.state
        == TaskState::Zombie {
        lemma_swept_keeps(before, p);
    }
}

/// A ready task is queued on its level once the one that left the hart is settled.
proof fn lemma_waits_on_its_level(s: Scheduler, i: int)
    requires
        s.wf(),
        s.cpu.current is None,
        0 <= i < s.tasks@.len(),
        s.tasks@[i].inner.state == TaskState::Ready,
    ensures
        scheduler::settled(s).levels.len() == 3,
        scheduler::settled(s).levels[s.tasks@[i].inner.level as int].contains(s.tasks@[i].pid.0),
{
    let tasks = s.tasks@;
    let q = tasks[i].pid.0;
    let l = s.queue.levels();
    let v = scheduler::settled(s);
    assert(s.placed(i));
    scheduler::lemma_index(tasks, i);
    let k0 = tasks[i].inner.level as int;
    if s.cpu.previous == Some(q) {
        queue::law_push_goes_behind_all(l, k0, q);
        assert(v.levels[k0].last() == q);
    } else {
        let (k, a) = choose|k: int, a: int| 0 <= k < l.len() && 0 <= a < l[k].len() && #[trigger] l[k][a] == q;
        assert(k == k0);
        if let Some(p) = s.cpu.previous {
            let h = scheduler::index(tasks, p);
            assert(s.placed(h));
            if tasks[h].inner.state == TaskState::Ready {
                queue::law_push_goes_behind_all(l, tasks[h].inner.level as int, p);
            }
        }
        assert(v.levels[k0][a] == q);
    }
}

/// What is queued once the one that left the hart is settled was ready, on that level.
proof fn lemma_comes_from(s: Scheduler, k: int, a: int)
    requires
        s.wf(),
        s.cpu.current is None,
        0 <= k < 3,
        0 <= a < scheduler::settled(s).levels[k].len(),
    ensures
        ({
            let p = scheduler::settled(s).levels[k][a];
            let j = scheduler::index(s.tasks@, p);
            &&& scheduler::known(s.tasks@, p)
            &&& s.tasks@[j].inner.state == TaskState::Ready
            &&& s.tasks@[j].inner.level == k
        }),
{
    let tasks = s.tasks@;
    let l = s.queue.levels();
    let v = scheduler::settled(s);
    let p = v.levels[k][a];
    if let Some(h) = s.cpu.previous {
        let m = scheduler::index(tasks, h);
        assert(s.placed(m));
        if tasks[m].inner.state == TaskState::Ready {
            queue::law_push_goes_behind_all(l, tasks[m].inner.level as int, h);
            if k == tasks[m].inner.level && a == l[k].len() {
                assert(p == h);
            } else {
                assert(l[k][a] == p);
            }
        } else {
            assert(l[k][a] == p);
        }
    } else {
        assert(l[k][a] == p);
    }
}

/// Sweeping keeps a task that is ready as it was.
proof fn lemma_swept_keeps(s: Scheduler, p: u64)
    requires
        s.wf(),
        scheduler::known(s.tasks@, p),
        s.tasks@[scheduler::index(s.tasks@, p)].inner.state == TaskState::Ready,
        scheduler::known(family::swept(s.tasks@), p),
    ensures
        family::swept(s.tasks@)[scheduler::index(family::swept(s.tasks@), p)] == s.tasks@[scheduler::index(s.tasks@, p)],
{
    let tasks = s.tasks@;
    let u = family::swept(tasks);
    let j = scheduler::index(tasks, p);
    let h = scheduler::index(u, p);
    lemma_swept_part(tasks, h);
    let m = choose|m: int| 0 <= m < tasks.len() && tasks[m] == u[h];
    assert(tasks[m].pid.0 == tasks[j].pid.0);
}

/// Nobody is made up by sweeping.
proof fn lemma_swept_part(tasks: Seq<Task>, h: int)
    requires
        0 <= h < family::swept(tasks).len(),
    ensures
        tasks.contains(family::swept(tasks)[h]),
    decreases tasks.len(),
{
    let i = family::first_unowned(tasks, 0);
    if 0 <= i < tasks.len() {
        let rest = tasks.remove(i);
        lemma_swept_part(rest, h);
        let m = choose|m: int| 0 <= m < rest.len() && rest[m] == family::swept(rest)[h];
        let m1 = if m < i {
            m
        } else {
            m + 1
        };
        assert(tasks[m1] == rest[m]);
    } else {
        assert(tasks[h] == family::swept(tasks)[h]);
    }
}

/// A task that gave way is behind all that wait on its level, unless it is the one that
/// runs next; one that sleeps is not queued.
pub proof fn law_who_gave_way_is_last(after: Scheduler, before: Scheduler, r: Dispatch, i: int)
    requires
        before.wf(),
        after.wf(),
        before.cpu.current is None,
        scheduler::picked(after, before, r),
        0 <= i < before.tasks@.len(),
        before.cpu.previous == Some(before.tasks@[i].pid.0),
    ensures
        before.tasks@[i].inner.state == TaskState::Ready && after.cpu.current != Some(before.tasks@[i].pid.0)
            ==> after.queue.levels()[before.tasks@[i].inner.level as int].len() > 0
            && after.queue.levels()[before.tasks@[i].inner.level as int].last() == before.tasks@[i].pid.0,
        before.tasks@[i].inner.state == TaskState::Blocked ==> !scheduler::queued(
            after.queue.levels(),
            before.tasks@[i].pid.0,
        ) && after.cpu.current != Some(before.tasks@[i].pid.0),
{
    let tasks = before.tasks@;
    let p = tasks[i].pid.0;
    let l = before.queue.levels();
    let v = scheduler::settled(before);
    assert(before.placed(i));
    scheduler::lemma_index(tasks, i);
    let k0 = tasks[i].inner.level as int;
    if tasks[i].inner.state == TaskState::Ready {
        queue::law_push_goes_behind_all(l, k0, p);
        lemma_waits_on_its_level(before, i);
        queue::lemma_first_level(v.levels, 0, k0);
        let k = queue::first_level(v.levels, 0);
        if k == k0 && v.levels[k0].len() == 1 {
            assert(v.levels[k0][0] == p);
        }
    } else if tasks[i].inner.state == TaskState::Blocked {
        assert(v.levels == l);
        let k = queue::first_level(v.levels, 0);
        if k < 3 {
            queue::lemma_first_level_some(v.levels, 0);
            assert(scheduler::queued(l, l[k][0]));
            assert(after.queue.levels() == queue::popped(l, k));
            if scheduler::queued(after.queue.levels(), p) {
                let m = after.queue.levels();
                let (b, c) = choose|b: int, c: int| 0 <= b < m.len() && 0 <= c < m[b].len() && #[trigger] m[b][c] == p;
                if b == k {
                    assert(l[b][c + 1] == p);
                } else {
                    assert(l[b][c] == p);
                }
                assert(scheduler::queued(l, p));
            }
        }
    }
}

/// A new task is the last of the table, and last in line on the highest level; nobody
/// else moves, and what runs goes on.
pub proof fn law_new_tasks_start_on_top(after: Scheduler, before: Scheduler)
    requires
        before.wf(),
        scheduler::joined(after, before),
    ensures
        after.tasks@.len() == before.tasks@.len() + 1,
        forall|i: int| 0 <= i < before.tasks@.len() ==> #[trigger] after.tasks@[i] == before.tasks@[i],
        after.queue.levels()[0] == before.queue.levels()[0].push(after.tasks@.last().pid.0),
        after.queue.levels()[1] == before.queue.levels()[1],
        after.queue.levels()[2] == before.queue.levels()[2],
        after.cpu == before.cpu,
{
    queue::law_push_goes_behind_all(before.queue.levels(), 0, after.tasks@.last().pid.0);
    assert(after.queue.levels()[0] =~= before.queue.levels()[0].push(after.tasks@.last().pid.0));
}

/// A task that has exited and that no one can wait for is gone once it is off the hart.
/// One that is on somebody's list of children stays, if that one has not exited itself.
pub proof fn law_unclaimed_tasks_leave(before: Scheduler, i: int, j: int, a: int)
    requires
        before.wf(),
        0 <= i < before.tasks@.len(),
        before.cpu.previous == Some(before.tasks@[i].pid.0),
        before.tasks@[i].inner.state == TaskState::Zombie,
        0 <= j < before.tasks@.len(),
    ensures
        (forall|m: int, b: int|
            0 <= m < before.tasks@.len() && 0 <= b < before.tasks@[m].inner.children@.len()
                ==> #[trigger] before.tasks@[m].inner.children@[b] != before.tasks@[i].pid.0) ==> !scheduler::known(
            scheduler::settled(before).tasks,
            before.tasks@[i].pid.0,
        ),
        before.tasks@[j].inner.state != TaskState::Zombie ==> scheduler::settled(before).tasks.contains(before.tasks@[j]),
        0 <= a < before.tasks@[j].inner.children@.len() && before.tasks@[j].inner.state != TaskState::Zombie
            && before.tasks@[j].inner.children@[a] == before.tasks@[i].pid.0 ==> scheduler::settled(before).tasks.contains(
            before.tasks@[i],
        ),
{
    let tasks = before.tasks@;
    scheduler::lemma_index(tasks, i);
    kernel::lemma_swept_some(tasks);
    if forall|m: int, b: int|
        0 <= m < tasks.len() && 0 <= b < tasks[m].inner.children@.len() ==> #[trigger] tasks[m].inner.children@[b]
            != tasks[i].pid.0 {
        assert(!family::listed(tasks, tasks[i].pid.0));
        assert(family::unowned(tasks, i));
        family::lemma_swept_gone(tasks, i);
    }
    if 0 <= a < tasks[j].inner.children@.len() && tasks[j].inner.state != TaskState::Zombie
        && tasks[j].inner.children@[a] == tasks[i].pid.0 {
        lemma_sweep_keeps_listed(tasks, j, a, i);
    }
}

/// Sweeping keeps a task that one lists which has not exited.
pub proof fn lemma_sweep_keeps_listed(tasks: Seq<Task>, i: int, a: int, j: int)
    requires
        0 <= i < tasks.len(),
        0 <= a < tasks[i].inner.children@.len(),
        tasks[i].inner.state != TaskState::Zombie,
        0 <= j < tasks.len(),
        tasks[j].pid.0 == tasks[i].inner.children@[a],
    ensures
        family::swept(tasks).contains(tasks[j]),
    decreases tasks.len(),
{
    let f = family::first_unowned(tasks, 0);
    if 0 <= f < tasks.len() {
        lemma_unowned(tasks, 0);
        assert(tasks[i].inner.children@[a] == tasks[j].pid.0);
        assert(family::listed(tasks, tasks[j].pid.0));
        assert(f != i && f != j);
        let rest = tasks.remove(f);
        let i1 = if i < f {
            i
        } else {
            i - 1
        };
        let j1 = if j < f {
            j
        } else {
            j - 1
        };
        assert(rest[i1] == tasks[i] && rest[j1] == tasks[j]);
        lemma_sweep_keeps_listed(rest, i1, a, j1);
        assert(family::swept(tasks) == family::swept(rest));
    } else {
        assert(family::swept(tasks) == tasks);
    }
}

proof fn lemma_unowned(tasks: Seq<Task>, i: int)
    requires
        0 <= i,
        family::first_unowned(tasks, i) < tasks.len(),
    ensures
        i <= family::first_unowned(tasks, i),
        family::unowned(tasks, family::first_unowned(tasks, i)),
    decreases tasks.len() - i,
{
    if i < tasks.len() && !family::unowned(tasks, i) {
        lemma_unowned(tasks, i + 1);
    }
}

/// A tick of the timer is accounted to the task that runs and to nobody else; when none
/// runs it changes nothing.
pub proof fn law_tick_is_for_who_runs(k: Kernel, k0: Kernel, i: int)
    requires
        k0.wf(),
        k.quantum_spent(k0),
        0 <= i < k0.sched.tasks@.len(),
    ensures
        k.sched.queue == k0.sched.queue,
        k.sched.cpu == k0.sched.cpu,
        k.mem == k0.mem,
        k.sched.tasks@.len() == k0.sched.tasks@.len(),
        k0.sched.cpu.current != Some(k0.sched.tasks@[i].pid.0) ==> k.sched.tasks@[i] == k0.sched.tasks@[i],
        k0.sched.cpu.current == Some(k0.sched.tasks@[i].pid.0) ==> {
            let t0 = k0.sched.tasks@[i].inner;
            let t = k.sched.tasks@[i].inner;
            &&& t.needs_resched
            &&& t.state == t0.state
            &&& t0.ticks < 3 ==> t.ticks == t0.ticks + 1 && t.level == t0.level
            &&& t0.ticks == 3 ==> t.ticks == 0 && t.level == (if t0.level < 2 {
                t0.level + 1
            } else {
                2int
            })
        },
{
    let tasks = k0.sched.tasks@;
    assert(k0.sched.placed(i));
    scheduler::lemma_index(tasks, i);
    if let Some(p) = k0.sched.cpu.current {
        assert(scheduler::known(tasks, p));
        assert(tasks[scheduler::index(tasks, p)].pid.0 == p);
    }
}

/// The idle loop idles when nothing is ready, and no task runs then.
pub proof fn law_idle_when_nothing_is_ready(after: Scheduler, before: Scheduler, r: Dispatch)
    requires
        before.wf(),
        before.cpu.current is None,
        scheduler::picked(after, before, r),
        forall|i: int| 0 <= i < before.tasks@.len() ==> (#[trigger] before.tasks@[i]).inner.state != TaskState::Ready,
    ensures
        r == Dispatch::Idle,
        after.cpu.current is None,
        forall|k: int| 0 <= k < 3 ==> (#[trigger] after.queue.levels()[k]).len() == 0,
{
    let v = scheduler::settled(before);
    if let Some(p) = before.cpu.previous {
        assert(before.tasks@[scheduler::index(before.tasks@, p)].inner.state != TaskState::Ready);
    }
    assert(v.levels == before.queue.levels());
    assert forall|k: int| 0 <= k < 3 implies (#[trigger] v.levels[k]).len() == 0 by {
        if v.levels[k].len() > 0 {
            lemma_comes_from(before, k, 0);
            let p = v.levels[k][0];
            assert(before.tasks@[scheduler::index(before.tasks@, p)].inner.state == TaskState::Ready);
        }
    }
    if queue::first_level(v.levels, 0) < 3 {
        queue::lemma_first_level_some(v.levels, 0);
    }
}

/// Of the tasks that are woken in a row each one that slept is ready, and one that did not
/// remembers that it was woken; all others are as they were.
pub proof fn law_wakeups_reach_everyone(r: Runnable, list: Seq<u64>, j: int)
    requires
        scheduler::distinct(r.tasks),
        forall|a: int| 0 <= a < list.len() ==> scheduler::known(r.tasks, #[trigger] list[a]),
        0 <= j < r.tasks.len(),
    ensures
        ({
            let v = scheduler::after_wakes(r, list);
            &&& !list.contains(r.tasks[j].pid.0) ==> v.tasks[j] == r.tasks[j]
            &&& list.contains(r.tasks[j].pid.0) && r.tasks[j].inner.state == TaskState::Blocked
                ==> v.tasks[j].inner.state == TaskState::Ready
            &&& list.contains(r.tasks[j].pid.0) && r.tasks[j].inner.state == TaskState::Running
                ==> v.tasks[j].inner.state == TaskState::Running && v.tasks[j].inner.wakeup_pending
        }),
    decreases list.len(),
{
    if list.len() > 0 {
        let p = list[0];
        let i = scheduler::index(r.tasks, p);
        let one = scheduler::after_wake(r, p);
        assert(scheduler::known(r.tasks, list[0]));
        scheduler::lemma_with_inner(r.tasks, i, scheduler::woken(r.tasks[i].inner));
        let rest = list.skip(1);
        assert forall|a: int| 0 <= a < rest.len() implies scheduler::known(one.tasks, #[trigger] rest[a]) by {
            assert(scheduler::known(r.tasks, list[a + 1]));
        }
        law_wakeups_reach_everyone(one, rest, j);
        kernel::lemma_stirred(one, rest);
        assert(kernel::stirred_at(scheduler::after_wakes(one, rest).tasks, one.tasks, j));
        if list.contains(r.tasks[j].pid.0) {
            let a = choose|a: int| 0 <= a < list.len() && list[a] == r.tasks[j].pid.0;
            if a > 0 {
                assert(rest[a - 1] == list[a]);
            }
        } else {
            assert(list[0] != r.tasks[j].pid.0);
            if rest.contains(r.tasks[j].pid.0) {
                let a = choose|a: int| 0 <= a < rest.len() && rest[a] == r.tasks[j].pid.0;
                assert(list[a + 1] == rest[a]);
            }
        }
        scheduler::lemma_index(r.tasks, j);
    }
}

} // verus!
