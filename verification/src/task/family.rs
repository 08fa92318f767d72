//! Who holds what: parents and children, and the frames of each task.
//!
//! A task that has exited stays in the table until whoever may wait for it has
//! collected its exit code. One that nobody may wait for is freed as soon as the
//! hart has left its stack.

use vstd::prelude::*;
use crate::mm::frame::Memory;
use crate::mm::space::AddressSpace;
use crate::sync::WaitQueue;
use crate::task::scheduler::{self, Runnable, Scheduler};
use crate::task::{Task, TaskInner, TaskState};

verus! {

/// The first process, to which orphans are handed over.
pub const INIT: u64 = 1;

/// Does some task list `pid` among its children?
pub open spec fn listed(tasks: Seq<Task>, pid: u64) -> bool {
    exists|i: int, a: int|
        0 <= i < tasks.len() && 0 <= a < tasks[i].inner.children@.len() && #[trigger] tasks[i].inner.children@[a]
            == pid
}

/// Child `a` of task `i` is a task, and names task `i` as its parent; or it is an
/// orphan, and task `i` is the first process.
pub open spec fn child_ok(tasks: Seq<Task>, i: int, a: int) -> bool {
    let c = tasks[i].inner.children@[a];
    &&& scheduler::known(tasks, c)
    &&& c != tasks[i].pid.0
    &&& c != INIT
    &&& ({
        let p = tasks[scheduler::index(tasks, c)].inner.parent;
        p == Some(tasks[i].pid.0) || (p is None && tasks[i].pid.0 == INIT)
    })
}

/// If the parent that task `i` names exists, it lists the task.
pub open spec fn parent_ok(tasks: Seq<Task>, i: int) -> bool {
    tasks[i].inner.parent matches Some(q) ==> scheduler::known(tasks, q) ==> tasks[scheduler::index(
        tasks,
        q,
    )].inner.children@.contains(tasks[i].pid.0)
}

/// Task `i` waits for its children on its own queue, and nobody else does.
pub open spec fn exit_queue_ok(tasks: Seq<Task>, i: int) -> bool {
    tasks[i].child_exit@ == Seq::<u64>::empty() || tasks[i].child_exit@ == seq![tasks[i].pid.0]
}

/// Parents and children agree.
pub open spec fn kin(tasks: Seq<Task>) -> bool {
    &&& forall|i: int, a: int|
        0 <= i < tasks.len() && 0 <= a < tasks[i].inner.children@.len() ==> #[trigger] child_ok(tasks, i, a)
    &&& forall|i: int, a: int, j: int, b: int|
        0 <= i < tasks.len() && 0 <= a < tasks[i].inner.children@.len() && 0 <= j < tasks.len() && 0 <= b
            < tasks[j].inner.children@.len() && #[trigger] tasks[i].inner.children@[a]
            == #[trigger] tasks[j].inner.children@[b] ==> i == j && a == b
    &&& forall|i: int| 0 <= i < tasks.len() ==> #[trigger] parent_ok(tasks, i)
    &&& forall|i: int| 0 <= i < tasks.len() ==> #[trigger] exit_queue_ok(tasks, i)
}

/// A zombie that nobody may wait for.
pub open spec fn unowned(tasks: Seq<Task>, i: int) -> bool {
    tasks[i].inner.state == TaskState::Zombie && !listed(tasks, tasks[i].pid.0)
}

/// The first such zombie from position `i` on, or the number of tasks.
pub open spec fn first_unowned(tasks: Seq<Task>, i: int) -> int
    decreases tasks.len() - i,
{
    if i >= tasks.len() {
        tasks.len() as int
    } else if unowned(tasks, i) {
        i
    } else {
        first_unowned(tasks, i + 1)
    }
}

/// The tasks that are left once every zombie that nobody may wait for is gone, and
/// those that only such zombies listed.
pub open spec fn swept(tasks: Seq<Task>) -> Seq<Task>
    decreases tasks.len(),
{
    let i = first_unowned(tasks, 0);
    if 0 <= i < tasks.len() {
        swept(tasks.remove(i))
    } else {
        tasks
    }
}

/// The frames that some task holds.
pub open spec fn holdings(tasks: Seq<Task>) -> Set<int> {
    Set::new(|f: int| exists|i: int| 0 <= i < tasks.len() && (#[trigger] tasks[i]).frames().contains(f))
}

/// What each task holds is its own: sound, and apart from what any other holds.
pub open spec fn backed(tasks: Seq<Task>, mem: Memory, kernel: AddressSpace) -> bool {
    &&& forall|i: int| 0 <= i < tasks.len() ==> (#[trigger] tasks[i]).sound(mem, kernel)
    &&& forall|i: int, j: int|
        0 <= i < tasks.len() && 0 <= j < tasks.len() && i != j ==> (#[trigger] tasks[i]).frames().disjoint(
            (#[trigger] tasks[j]).frames(),
        )
}

/// Tasks that hold the same.
pub open spec fn same_holdings(tasks: Seq<Task>, before: Seq<Task>) -> bool {
    &&& tasks.len() == before.len()
    &&& forall|i: int|
        0 <= i < tasks.len() ==> (#[trigger] tasks[i]).inner.kstack == before[i].inner.kstack
            && tasks[i].inner.space == before[i].inner.space
}

/// Holding the same, tasks are backed as they were.
pub proof fn lemma_same_holdings(tasks: Seq<Task>, before: Seq<Task>, mem: Memory, kernel: AddressSpace)
    requires
        same_holdings(tasks, before),
        backed(before, mem, kernel),
    ensures
        backed(tasks, mem, kernel),
        holdings(tasks) == holdings(before),
{
    assert forall|i: int| 0 <= i < tasks.len() implies (#[trigger] tasks[i]).sound(mem, kernel)
        && tasks[i].frames() == before[i].frames() by {
        assert(before[i].sound(mem, kernel));
    }
    assert forall|f: int| holdings(tasks).contains(f) == holdings(before).contains(f) by {
        if holdings(tasks).contains(f) {
            let i = choose|i: int| 0 <= i < tasks.len() && (#[trigger] tasks[i]).frames().contains(f);
            assert(before[i].frames().contains(f));
        }
        if holdings(before).contains(f) {
            let i = choose|i: int| 0 <= i < before.len() && (#[trigger] before[i]).frames().contains(f);
            assert(tasks[i].frames().contains(f));
        }
    }
    assert(holdings(tasks) =~= holdings(before));
}

/// Tasks whose frames nobody touched are backed still.
pub proof fn lemma_backed_kept(tasks: Seq<Task>, m0: Memory, mem: Memory, kernel: AddressSpace, touched: Set<int>)
    requires
        m0.wf(),
        kernel.live(m0),
        backed(tasks, m0, kernel),
        mem.keeps(m0, touched),
        touched.disjoint(holdings(tasks)),
        touched.disjoint(kernel.support()),
    ensures
        backed(tasks, mem, kernel),
{
    assert forall|i: int| 0 <= i < tasks.len() implies (#[trigger] tasks[i]).sound(mem, kernel) by {
        assert forall|f: int| touched.contains(f) implies !tasks[i].frames().contains(f) by {
            if tasks[i].frames().contains(f) {
                assert(holdings(tasks).contains(f));
            }
        }
        tasks[i].lemma_kept(m0, mem, kernel, touched);
    }
}

/// Position in a table of what was at position `j` of the table without its entry
/// `i`.
pub open spec fn shifted(i: int, j: int) -> int {
    if j < i {
        j
    } else {
        j + 1
    }
}

/// Taking a zombie that nobody lists out of the table breaks no kinship.
proof fn lemma_kin_remove(tasks: Seq<Task>, i: int)
    requires
        scheduler::distinct(tasks),
        kin(tasks),
        0 <= i < tasks.len(),
        !listed(tasks, tasks[i].pid.0),
    ensures
        kin(tasks.remove(i)),
{
    let u = tasks.remove(i);
    let pid = tasks[i].pid.0;
    scheduler::lemma_remove_task(tasks, i);
    assert forall|j: int, a: int| 0 <= j < u.len() && 0 <= a < u[j].inner.children@.len() implies #[trigger] child_ok(
        u,
        j,
        a,
    ) by {
        let k = shifted(i, j);
        assert(u[j] == tasks[k]);
        assert(child_ok(tasks, k, a));
        let c = tasks[k].inner.children@[a];
        assert(listed(tasks, c));
        assert(scheduler::known(u, c));
        assert(u[scheduler::index(u, c)] == tasks[scheduler::index(tasks, c)]);
    }
    assert forall|j: int, a: int, l: int, b: int|
        0 <= j < u.len() && 0 <= a < u[j].inner.children@.len() && 0 <= l < u.len() && 0 <= b
            < u[l].inner.children@.len() && #[trigger] u[j].inner.children@[a]
            == #[trigger] u[l].inner.children@[b] implies j == l && a == b by {
        let k = shifted(i, j);
        let m = shifted(i, l);
        assert(u[j] == tasks[k] && u[l] == tasks[m]);
        assert(tasks[k].inner.children@[a] == tasks[m].inner.children@[b]);
    }
    assert forall|j: int| 0 <= j < u.len() implies #[trigger] parent_ok(u, j) by {
        let k = shifted(i, j);
        assert(u[j] == tasks[k]);
        assert(parent_ok(tasks, k));
        if let Some(q) = u[j].inner.parent {
            if scheduler::known(u, q) {
                assert(u[scheduler::index(u, q)] == tasks[scheduler::index(tasks, q)]);
            }
        }
    }
    assert forall|j: int| 0 <= j < u.len() implies #[trigger] exit_queue_ok(u, j) by {
        let k = shifted(i, j);
        assert(u[j] == tasks[k]);
        assert(exit_queue_ok(tasks, k));
    }
}

/// Taking a zombie that the hart has left out of the table disturbs nobody.
proof fn lemma_wf_remove(s: Scheduler, s0: Scheduler, i: int)
    requires
        s0.wf(),
        0 <= i < s0.tasks@.len(),
        s0.tasks@[i].inner.state == TaskState::Zombie,
        s0.cpu.previous != Some(s0.tasks@[i].pid.0),
        s.tasks@ == s0.tasks@.remove(i),
        s.queue == s0.queue,
        s.cpu == s0.cpu,
    ensures
        s.wf(),
{
    let pid = s0.tasks@[i].pid.0;
    scheduler::lemma_remove_task(s0.tasks@, i);
    scheduler::lemma_index(s0.tasks@, i);
    let l = s0.queue.levels();
    assert forall|k: int, a: int| 0 <= k < 3 && 0 <= a < l[k].len() implies {
        let q = #[trigger] l[k][a];
        &&& scheduler::known(s.tasks@, q)
        &&& s.tasks@[scheduler::index(s.tasks@, q)].inner.state == TaskState::Ready
        &&& s.tasks@[scheduler::index(s.tasks@, q)].inner.level == k
    } by {
        assert(scheduler::known(s0.tasks@, l[k][a]));
        assert(l[k][a] != pid);
    }
    assert forall|j: int| 0 <= j < s.tasks@.len() implies #[trigger] s.placed(j) by {
        let k = shifted(i, j);
        assert(s.tasks@[j] == s0.tasks@[k]);
        assert(s0.placed(k));
    }
}

/// Is `pid` listed among the children of some task?
fn is_listed(sched: &Scheduler, pid: u64) -> (r: bool)
    ensures
        r == listed(sched.tasks@, pid),
{
    let mut i: usize = 0;
    while i < sched.tasks.len()
        invariant
            i <= sched.tasks@.len(),
            forall|j: int, a: int|
                0 <= j < i && 0 <= a < sched.tasks@[j].inner.children@.len()
                    ==> #[trigger] sched.tasks@[j].inner.children@[a] != pid,
        decreases sched.tasks@.len() - i,
    {
        let mut a: usize = 0;
        while a < sched.tasks[i].inner.children.len()
            invariant
                i < sched.tasks@.len(),
                a <= sched.tasks@[i as int].inner.children@.len(),
                forall|j: int, b: int|
                    0 <= j < i && 0 <= b < sched.tasks@[j].inner.children@.len()
                        ==> #[trigger] sched.tasks@[j].inner.children@[b] != pid,
                forall|b: int| 0 <= b < a ==> #[trigger] sched.tasks@[i as int].inner.children@[b] != pid,
            decreases sched.tasks@[i as int].inner.children@.len() - a,
        {
            if sched.tasks[i].inner.children[a] == pid {
                assert(sched.tasks@[i as int].inner.children@[a as int] == pid);
                return true;
            }
            a = a + 1;
        }
        i = i + 1;
    }
    false
}

/// The first zombie that nobody may wait for.
fn find_unowned(sched: &Scheduler) -> (r: Option<usize>)
    ensures
        match r {
            Some(i) => i == first_unowned(sched.tasks@, 0) && i < sched.tasks@.len() && unowned(
                sched.tasks@,
                i as int,
            ),
            None => first_unowned(sched.tasks@, 0) == sched.tasks@.len(),
        },
{
    let mut i: usize = 0;
    while i < sched.tasks.len()
        invariant
            i <= sched.tasks@.len(),
            first_unowned(sched.tasks@, 0) == first_unowned(sched.tasks@, i as int),
        decreases sched.tasks@.len() - i,
    {
        if sched.tasks[i].inner.state == TaskState::Zombie && !is_listed(sched, sched.tasks[i].pid.0) {
            return Some(i);
        }
        i = i + 1;
    }
    None
}

/// One task less holds less.
proof fn lemma_holdings_remove(tasks: Seq<Task>, i: int, mem: Memory, kernel: AddressSpace)
    requires
        backed(tasks, mem, kernel),
        0 <= i < tasks.len(),
    ensures
        holdings(tasks.remove(i)) == holdings(tasks).difference(tasks[i].frames()),
        tasks[i].frames().disjoint(holdings(tasks.remove(i))),
        tasks[i].frames().subset_of(holdings(tasks)),
{
    let u = tasks.remove(i);
    assert forall|f: int| holdings(u).contains(f) == (holdings(tasks).contains(f) && !tasks[i].frames().contains(f)) by {
        if holdings(u).contains(f) {
            let j = choose|j: int| 0 <= j < u.len() && (#[trigger] u[j]).frames().contains(f);
            let k = shifted(i, j);
            assert(u[j] == tasks[k]);
            assert(tasks[k].frames().contains(f));
            assert(tasks[k].frames().disjoint(tasks[i].frames()));
        }
        if holdings(tasks).contains(f) && !tasks[i].frames().contains(f) {
            let k = choose|k: int| 0 <= k < tasks.len() && (#[trigger] tasks[k]).frames().contains(f);
            let j = if k < i {
                k
            } else {
                k - 1
            };
            assert(u[j] == tasks[k]);
            assert(u[j].frames().contains(f));
        }
    }
    assert(holdings(u) =~= holdings(tasks).difference(tasks[i].frames()));
    assert forall|f: int| #[trigger] tasks[i].frames().contains(f) implies holdings(tasks).contains(f) by {}
}

/// Without one of them the others are backed still.
proof fn lemma_backed_remove(tasks: Seq<Task>, i: int, m0: Memory, mem: Memory, kernel: AddressSpace)
    requires
        m0.wf(),
        kernel.wf(m0),
        backed(tasks, m0, kernel),
        0 <= i < tasks.len(),
        mem.keeps(m0, tasks[i].frames()),
        tasks[i].frames().disjoint(kernel.support()),
    ensures
        backed(tasks.remove(i), mem, kernel),
{
    let u = tasks.remove(i);
    assert forall|j: int| 0 <= j < u.len() implies (#[trigger] u[j]).sound(m0, kernel) by {
        assert(u[j] == tasks[shifted(i, j)]);
    }
    assert forall|j: int, l: int| 0 <= j < u.len() && 0 <= l < u.len() && j != l implies (
    #[trigger] u[j]).frames().disjoint((#[trigger] u[l]).frames()) by {
        assert(u[j] == tasks[shifted(i, j)]);
        assert(u[l] == tasks[shifted(i, l)]);
    }
    lemma_holdings_remove(tasks, i, m0, kernel);
    lemma_backed_kept(u, m0, mem, kernel, tasks[i].frames());
}

/// A task's frames are none of the kernel's.
pub proof fn lemma_apart_from_kernel(t: Task, mem: Memory, kernel: AddressSpace)
    requires
        mem.wf(),
        kernel.wf(mem),
        t.sound(mem, kernel),
    ensures
        t.frames().disjoint(kernel.support()),
{
    t.inner.kstack.lemma_valid(mem);
    kernel.lemma_live(mem);
}

/// Free every zombie that nobody may wait for.
pub fn sweep(sched: &mut Scheduler, mem: &mut Memory, kernel: &AddressSpace)
    requires
        old(mem).wf(),
        kernel.wf(*old(mem)),
        kernel.supervisor(*old(mem)),
        old(sched).wf(),
        old(sched).cpu.previous is None,
        kin(old(sched).tasks@),
        backed(old(sched).tasks@, *old(mem), *kernel),
    ensures
        final(mem).wf(),
        kernel.wf(*final(mem)),
        kernel.supervisor(*final(mem)),
        final(sched).wf(),
        kin(final(sched).tasks@),
        backed(final(sched).tasks@, *final(mem), *kernel),
        final(sched).tasks@ == swept(old(sched).tasks@),
        final(sched).queue == old(sched).queue,
        final(sched).cpu == old(sched).cpu,
        final(mem).gave(
            *old(mem),
            holdings(old(sched).tasks@).difference(holdings(final(sched).tasks@)),
        ),
{
    let ghost m0 = *mem;
    let ghost s0 = *sched;
    let ghost mut gone: Set<int> = Set::empty();
    let mut next: Option<usize> = find_unowned(sched);
    proof {
        assert(holdings(s0.tasks@).difference(holdings(s0.tasks@)) =~= Set::empty());
    }
    while next.is_some()
        invariant
            m0 == *old(mem),
            s0 == *old(sched),
            mem.wf(),
            kernel.wf(*mem),
            kernel.supervisor(*mem),
            sched.wf(),
            sched.queue == s0.queue,
            sched.cpu == s0.cpu,
            s0.cpu.previous is None,
            kin(sched.tasks@),
            backed(sched.tasks@, *mem, *kernel),
            swept(s0.tasks@) == swept(sched.tasks@),
            mem.gave(m0, gone),
            gone == holdings(s0.tasks@).difference(holdings(sched.tasks@)),
            holdings(sched.tasks@).subset_of(holdings(s0.tasks@)),
            match next {
                Some(i) => i == first_unowned(sched.tasks@, 0) && i < sched.tasks@.len() && unowned(
                    sched.tasks@,
                    i as int,
                ),
                None => first_unowned(sched.tasks@, 0) == sched.tasks@.len(),
            },
        decreases sched.tasks@.len(),
    {
        let i: usize = next.unwrap();
        let ghost s1 = *sched;
        let ghost m1 = *mem;
        let ghost t = s1.tasks@[i as int];
        let task: Task = sched.tasks.remove(i);
        proof {
            lemma_wf_remove(*sched, s1, i as int);
            lemma_kin_remove(s1.tasks@, i as int);
            lemma_apart_from_kernel(t, m1, *kernel);
            lemma_holdings_remove(s1.tasks@, i as int, m1, *kernel);
        }
        task.release(mem, kernel);
        proof {
            lemma_backed_remove(s1.tasks@, i as int, m1, *mem, *kernel);
            crate::task::process::lemma_survives(*kernel, m1, *mem, t.frames());
            mem.lemma_gave_twice(m1, m0, gone, t.frames());
            let all = gone.union(t.frames());
            assert(all =~= holdings(s0.tasks@).difference(holdings(sched.tasks@)));
            gone = all;
        }
        next = find_unowned(sched);
    }
}

/// The same tasks, but for kinship and for who waits for children.
pub open spec fn alike(u: Seq<Task>, tasks: Seq<Task>) -> bool {
    &&& u.len() == tasks.len()
    &&& forall|j: int| 0 <= j < tasks.len() ==> #[trigger] alike_at(u, tasks, j)
}

/// The same task, but for kinship and for who waits for children.
pub open spec fn alike_at(u: Seq<Task>, tasks: Seq<Task>, j: int) -> bool {
    u[j] == (Task {
        child_exit: u[j].child_exit,
        inner: TaskInner { children: u[j].inner.children, parent: u[j].inner.parent, ..tasks[j].inner },
        ..tasks[j]
    })
}

/// Such tasks have the same names.
pub proof fn lemma_alike(u: Seq<Task>, tasks: Seq<Task>)
    requires
        scheduler::distinct(tasks),
        alike(u, tasks),
    ensures
        scheduler::distinct(u),
        same_holdings(u, tasks),
        forall|p: u64| #[trigger] scheduler::known(u, p) == scheduler::known(tasks, p),
        forall|p: u64|
            scheduler::known(tasks, p) ==> #[trigger] scheduler::index(u, p) == scheduler::index(tasks, p),
{
    assert forall|j: int| 0 <= j < tasks.len() implies (#[trigger] u[j]).pid == tasks[j].pid && u[j].inner.kstack
        == tasks[j].inner.kstack && u[j].inner.space == tasks[j].inner.space by {
        assert(alike_at(u, tasks, j));
    }
    assert forall|a: int, b: int|
        0 <= a < u.len() && 0 <= b < u.len() && (#[trigger] u[a]).pid.0 == (#[trigger] u[b]).pid.0 implies a == b by {
        assert(tasks[a].pid.0 == tasks[b].pid.0);
    }
    assert forall|p: u64| #[trigger] scheduler::known(u, p) == scheduler::known(tasks, p) by {
        if scheduler::known(u, p) {
            let a = scheduler::index(u, p);
            assert(tasks[a].pid.0 == p);
        }
        if scheduler::known(tasks, p) {
            let a = scheduler::index(tasks, p);
            assert(u[a].pid.0 == p);
        }
    }
    assert forall|p: u64| scheduler::known(tasks, p) implies #[trigger] scheduler::index(u, p)
        == scheduler::index(tasks, p) by {
        let a = scheduler::index(tasks, p);
        assert(u[a].pid.0 == p);
        scheduler::lemma_index(u, a);
    }
}

/// Such tasks are scheduled alike.
pub proof fn lemma_alike_wf(s: Scheduler, s0: Scheduler)
    requires
        s0.wf(),
        alike(s.tasks@, s0.tasks@),
        s.queue == s0.queue,
        s.cpu == s0.cpu,
    ensures
        s.wf(),
{
    lemma_alike(s.tasks@, s0.tasks@);
    let l = s0.queue.levels();
    assert forall|k: int, a: int| 0 <= k < 3 && 0 <= a < l[k].len() implies {
        let q = #[trigger] l[k][a];
        &&& scheduler::known(s.tasks@, q)
        &&& s.tasks@[scheduler::index(s.tasks@, q)].inner.state == TaskState::Ready
        &&& s.tasks@[scheduler::index(s.tasks@, q)].inner.level == k
    } by {
        assert(scheduler::known(s0.tasks@, l[k][a]));
        assert(alike_at(s.tasks@, s0.tasks@, scheduler::index(s0.tasks@, l[k][a])));
    }
    if let Some(p) = s0.cpu.current {
        assert(alike_at(s.tasks@, s0.tasks@, scheduler::index(s0.tasks@, p)));
    }
    if let Some(p) = s0.cpu.previous {
        assert(alike_at(s.tasks@, s0.tasks@, scheduler::index(s0.tasks@, p)));
    }
    assert forall|j: int| 0 <= j < s.tasks@.len() implies #[trigger] s.placed(j) by {
        assert(s0.placed(j));
        assert(alike_at(s.tasks@, s0.tasks@, j));
    }
}

/// Waking acts alike on such tasks.
pub proof fn lemma_alike_wake(u: Seq<Task>, tasks: Seq<Task>, levels: Seq<Seq<u64>>, pid: u64)
    requires
        scheduler::distinct(tasks),
        alike(u, tasks),
        scheduler::known(tasks, pid),
    ensures
        ({
            let a = scheduler::after_wake(Runnable { tasks: u, levels }, pid);
            let b = scheduler::after_wake(Runnable { tasks, levels }, pid);
            a.levels == b.levels && alike(a.tasks, b.tasks)
        }),
{
    lemma_alike(u, tasks);
    let a = scheduler::after_wake(Runnable { tasks: u, levels }, pid);
    let b = scheduler::after_wake(Runnable { tasks, levels }, pid);
    let i = scheduler::index(tasks, pid);
    assert(alike_at(u, tasks, i));
    assert forall|j: int| 0 <= j < b.tasks.len() implies #[trigger] alike_at(a.tasks, b.tasks, j) by {
        assert(alike_at(u, tasks, j));
    }
}

/// The children of task `pid`.
pub open spec fn children_of(tasks: Seq<Task>, pid: u64) -> Seq<u64> {
    tasks[scheduler::index(tasks, pid)].inner.children@
}

/// Are the children of `pid` handed over when it exits? Not those of the first
/// process, and not when there is none.
pub open spec fn hands_over(tasks: Seq<Task>, pid: u64) -> bool {
    pid != INIT && scheduler::known(tasks, INIT)
}

/// Kinship of task `j` once `pid` has handed the children `kids` over.
pub open spec fn handed_at(u: Seq<Task>, tasks: Seq<Task>, pid: u64, kids: Seq<u64>, j: int) -> bool {
    &&& u[j].inner.children@ == (if tasks[j].pid.0 == pid {
        Seq::<u64>::empty()
    } else if tasks[j].pid.0 == INIT {
        tasks[j].inner.children@ + kids
    } else {
        tasks[j].inner.children@
    })
    &&& u[j].inner.parent == (if kids.contains(tasks[j].pid.0) {
        None
    } else {
        tasks[j].inner.parent
    })
}

/// Task `j` has the kin it had.
pub open spec fn same_kin_at(u: Seq<Task>, tasks: Seq<Task>, j: int) -> bool {
    u[j].inner.children@ == tasks[j].inner.children@ && u[j].inner.parent == tasks[j].inner.parent
}

/// Kinship once `pid` has handed its children over to the first process, if it
/// does.
pub open spec fn handed(u: Seq<Task>, tasks: Seq<Task>, pid: u64) -> bool {
    if hands_over(tasks, pid) {
        forall|j: int|
            0 <= j < tasks.len() ==> #[trigger] handed_at(u, tasks, pid, children_of(tasks, pid), j)
    } else {
        forall|j: int| 0 <= j < tasks.len() ==> #[trigger] same_kin_at(u, tasks, j)
    }
}

/// Tasks that differ in kinship alone.
pub open spec fn same_queues(u: Seq<Task>, tasks: Seq<Task>) -> bool {
    forall|j: int| 0 <= j < tasks.len() ==> (#[trigger] u[j]).child_exit == tasks[j].child_exit
}

/// Hand the children of `pid` over to the first process, which collects the exit
/// codes of orphans. An orphan has no parent any more.
fn hand_over(sched: &mut Scheduler, pid: u64)
    requires
        old(sched).wf(),
        kin(old(sched).tasks@),
        scheduler::known(old(sched).tasks@, pid),
    ensures
        final(sched).wf(),
        kin(final(sched).tasks@),
        final(sched).queue == old(sched).queue,
        final(sched).cpu == old(sched).cpu,
        alike(final(sched).tasks@, old(sched).tasks@),
        same_queues(final(sched).tasks@, old(sched).tasks@),
        handed(final(sched).tasks@, old(sched).tasks@, pid),
{
    let ghost s0 = *sched;
    let ghost t0 = sched.tasks@;
    if pid == INIT {
        return;
    }
    let n: usize = match sched.find(INIT) {
        Some(n) => n,
        None => {
            return;
        },
    };
    let i: usize = match sched.find(pid) {
        Some(i) => i,
        None => {
            return;
        },
    };
    let mut kids: Vec<u64> = Vec::new();
    core::mem::swap(&mut kids, &mut sched.tasks[i].inner.children);
    let ghost all = kids@;
    let mut a: usize = 0;
    proof {
        assert(all == children_of(t0, pid));
        assert(all.take(0) =~= Seq::empty());
        assert forall|j: int| 0 <= j < t0.len() implies #[trigger] handed_at(sched.tasks@, t0, pid, all.take(0), j)
            && alike_at(sched.tasks@, t0, j) by {
            assert(t0[j].inner.children@ + Seq::<u64>::empty() =~= t0[j].inner.children@);
        }
    }
    while a < kids.len()
        invariant
            a <= all.len(),
            kids@ == all,
            all == children_of(t0, pid),
            t0 == s0.tasks@,
            s0 == *old(sched),
            s0.wf(),
            kin(t0),
            pid != INIT,
            n < t0.len(),
            t0[n as int].pid.0 == INIT,
            i == scheduler::index(t0, pid),
            i < t0.len(),
            t0[i as int].pid.0 == pid,
            sched.queue == s0.queue,
            sched.cpu == s0.cpu,
            alike(sched.tasks@, t0),
            same_queues(sched.tasks@, t0),
            forall|j: int|
                0 <= j < t0.len() ==> #[trigger] handed_at(sched.tasks@, t0, pid, all.take(a as int), j),
        decreases all.len() - a,
    {
        let child: u64 = kids[a];
        let ghost t1 = sched.tasks@;
        proof {
            assert(child_ok(t0, i as int, a as int));
            lemma_alike(t1, t0);
        }
        let c: usize = match sched.find(child) {
            Some(c) => c,
            None => {
                assert(false);
                0
            },
        };
        sched.tasks[c].inner.parent = None;
        sched.tasks[n].inner.children.push(child);
        a = a + 1;
        proof {
            let now = all.take(a as int);
            let then = all.take(a - 1);
            assert(now =~= then.push(child));
            assert(c == scheduler::index(t0, child));
            assert forall|j: int| 0 <= j < t0.len() implies #[trigger] alike_at(sched.tasks@, t0, j) by {
                assert(alike_at(t1, t0, j));
            }
            assert forall|j: int| 0 <= j < t0.len() implies #[trigger] handed_at(sched.tasks@, t0, pid, now, j) by {
                assert(handed_at(t1, t0, pid, then, j));
                if j == n {
                    assert(sched.tasks@[j].inner.children@ =~= t0[j].inner.children@ + now);
                }
                lemma_contains_push(then, child, t0[j].pid.0);
                if t0[j].pid.0 == child {
                    scheduler::lemma_index(t0, j);
                }
            }
        }
    }
    proof {
        assert(all.take(a as int) =~= all);
        lemma_alike_wf(*sched, s0);
        lemma_kin_handed(sched.tasks@, t0, pid);
    }
}

proof fn lemma_contains_push(s: Seq<u64>, x: u64, y: u64)
    ensures
        s.push(x).contains(y) == (s.contains(y) || x == y),
{
    if s.contains(y) {
        let k = choose|k: int| 0 <= k < s.len() && s[k] == y;
        assert(s.push(x)[k] == y);
    }
    if x == y {
        assert(s.push(x)[s.len() as int] == y);
    }
    if s.push(x).contains(y) {
        let k = choose|k: int| 0 <= k < s.push(x).len() && s.push(x)[k] == y;
        if k < s.len() {
            assert(s[k] == y);
        }
    }
}

/// Handing children over keeps kinship in order.
#[verifier::rlimit(60)]
proof fn lemma_kin_handed(u: Seq<Task>, tasks: Seq<Task>, pid: u64)
    requires
        scheduler::distinct(tasks),
        kin(tasks),
        scheduler::known(tasks, pid),
        alike(u, tasks),
        same_queues(u, tasks),
        hands_over(tasks, pid),
        handed(u, tasks, pid),
    ensures
        kin(u),
{
    let kids = children_of(tasks, pid);
    let i = scheduler::index(tasks, pid);
    let n = scheduler::index(tasks, INIT);
    let had = tasks[n].inner.children@;
    lemma_alike(u, tasks);
    assert forall|j: int, a: int| 0 <= j < u.len() && 0 <= a < u[j].inner.children@.len() implies #[trigger] child_ok(
        u,
        j,
        a,
    ) by {
        lemma_child_handed(u, tasks, pid, j, a);
    }
    assert forall|j: int, a: int, l: int, b: int|
        0 <= j < u.len() && 0 <= a < u[j].inner.children@.len() && 0 <= l < u.len() && 0 <= b
            < u[l].inner.children@.len() && #[trigger] u[j].inner.children@[a]
            == #[trigger] u[l].inner.children@[b] implies j == l && a == b by {
        let (j1, a1) = lemma_whence(u, tasks, pid, j, a);
        let (l1, b1) = lemma_whence(u, tasks, pid, l, b);
        assert(tasks[j1].inner.children@[a1] == tasks[l1].inner.children@[b1]);
        assert(j1 == l1 && a1 == b1);
    }
    assert forall|j: int| 0 <= j < u.len() implies #[trigger] parent_ok(u, j) by {
        assert(parent_ok(tasks, j));
        assert(handed_at(u, tasks, pid, kids, j));
        assert(alike_at(u, tasks, j));
        if let Some(q) = u[j].inner.parent {
            if scheduler::known(u, q) {
                let x = scheduler::index(tasks, q);
                assert(handed_at(u, tasks, pid, kids, x));
                assert(tasks[x].inner.children@.contains(tasks[j].pid.0));
                let k = choose|k: int|
                    0 <= k < tasks[x].inner.children@.len() && tasks[x].inner.children@[k] == tasks[j].pid.0;
                if q == INIT {
                    assert((had + kids)[k] == tasks[j].pid.0);
                }
            }
        }
    }
    assert forall|j: int| 0 <= j < u.len() implies #[trigger] exit_queue_ok(u, j) by {
        assert(exit_queue_ok(tasks, j));
        assert(alike_at(u, tasks, j));
        assert(u[j].child_exit == tasks[j].child_exit);
    }
}

/// Whose child it was before.
proof fn lemma_whence(u: Seq<Task>, tasks: Seq<Task>, pid: u64, j: int, a: int) -> (r: (int, int))
    requires
        scheduler::distinct(tasks),
        scheduler::known(tasks, pid),
        hands_over(tasks, pid),
        handed(u, tasks, pid),
        alike(u, tasks),
        0 <= j < u.len(),
        0 <= a < u[j].inner.children@.len(),
    ensures
        0 <= r.0 < tasks.len(),
        0 <= r.1 < tasks[r.0].inner.children@.len(),
        tasks[r.0].inner.children@[r.1] == u[j].inner.children@[a],
        r.0 == j ==> r.1 == a,
        r.0 != j ==> tasks[j].pid.0 == INIT && tasks[r.0].pid.0 == pid && a == tasks[j].inner.children@.len() + r.1,
        tasks[j].pid.0 != pid,
{
    let kids = children_of(tasks, pid);
    assert(handed_at(u, tasks, pid, kids, j));
    if tasks[j].pid.0 == INIT && a >= tasks[j].inner.children@.len() {
        (scheduler::index(tasks, pid), a - tasks[j].inner.children@.len())
    } else {
        (j, a)
    }
}

proof fn lemma_child_handed(u: Seq<Task>, tasks: Seq<Task>, pid: u64, j: int, a: int)
    requires
        scheduler::distinct(tasks),
        kin(tasks),
        scheduler::known(tasks, pid),
        alike(u, tasks),
        hands_over(tasks, pid),
        handed(u, tasks, pid),
        0 <= j < u.len(),
        0 <= a < u[j].inner.children@.len(),
    ensures
        child_ok(u, j, a),
{
    let kids = children_of(tasks, pid);
    let i = scheduler::index(tasks, pid);
    lemma_alike(u, tasks);
    let (j1, a1) = lemma_whence(u, tasks, pid, j, a);
    assert(child_ok(tasks, j1, a1));
    assert(alike_at(u, tasks, j));
    let c = u[j].inner.children@[a];
    let x = scheduler::index(tasks, c);
    assert(handed_at(u, tasks, pid, kids, x));
    assert(alike_at(u, tasks, x));
    if j1 == j {
        if kids.contains(c) {
            let k = choose|k: int| 0 <= k < kids.len() && kids[k] == c;
            assert(tasks[i].inner.children@[k] == tasks[j].inner.children@[a]);
            assert(i == j);
        }
    } else {
        assert(kids[a1] == c);
        assert(kids.contains(c));
    }
}

/// Likeness carries over.
proof fn lemma_alike_twice(w: Seq<Task>, u: Seq<Task>, tasks: Seq<Task>)
    requires
        alike(u, tasks),
        alike(w, u),
    ensures
        alike(w, tasks),
{
    assert forall|j: int| 0 <= j < tasks.len() implies #[trigger] alike_at(w, tasks, j) by {
        assert(alike_at(u, tasks, j));
        assert(alike_at(w, u, j));
    }
}

/// Kinship is a matter of names, parents, children, and who waits.
pub proof fn lemma_kin_same(u: Seq<Task>, tasks: Seq<Task>)
    requires
        scheduler::distinct(tasks),
        kin(tasks),
        u.len() == tasks.len(),
        forall|j: int| 0 <= j < tasks.len() ==> (#[trigger] u[j]).pid == tasks[j].pid,
        forall|j: int| 0 <= j < tasks.len() ==> #[trigger] same_kin_at(u, tasks, j),
        forall|j: int| 0 <= j < tasks.len() ==> #[trigger] exit_queue_ok(u, j),
    ensures
        kin(u),
        scheduler::distinct(u),
        forall|p: u64| #[trigger] scheduler::known(u, p) == scheduler::known(tasks, p),
        forall|p: u64|
            scheduler::known(tasks, p) ==> #[trigger] scheduler::index(u, p) == scheduler::index(tasks, p),
{
    assert forall|a: int, b: int|
        0 <= a < u.len() && 0 <= b < u.len() && (#[trigger] u[a]).pid.0 == (#[trigger] u[b]).pid.0 implies a == b by {
        assert(tasks[a].pid.0 == tasks[b].pid.0);
    }
    assert forall|p: u64| #[trigger] scheduler::known(u, p) == scheduler::known(tasks, p) by {
        if scheduler::known(u, p) {
            let a = scheduler::index(u, p);
            assert(tasks[a].pid.0 == p);
        }
        if scheduler::known(tasks, p) {
            let a = scheduler::index(tasks, p);
            assert(u[a].pid.0 == p);
        }
    }
    assert forall|p: u64| scheduler::known(tasks, p) implies #[trigger] scheduler::index(u, p)
        == scheduler::index(tasks, p) by {
        let a = scheduler::index(tasks, p);
        assert(u[a].pid.0 == p);
        scheduler::lemma_index(u, a);
    }
    assert forall|j: int, a: int| 0 <= j < u.len() && 0 <= a < u[j].inner.children@.len() implies #[trigger] child_ok(
        u,
        j,
        a,
    ) by {
        assert(same_kin_at(u, tasks, j));
        assert(child_ok(tasks, j, a));
        let c = tasks[j].inner.children@[a];
        assert(same_kin_at(u, tasks, scheduler::index(tasks, c)));
        assert(u[j].pid == tasks[j].pid);
    }
    assert forall|j: int, a: int, l: int, b: int|
        0 <= j < u.len() && 0 <= a < u[j].inner.children@.len() && 0 <= l < u.len() && 0 <= b
            < u[l].inner.children@.len() && #[trigger] u[j].inner.children@[a]
            == #[trigger] u[l].inner.children@[b] implies j == l && a == b by {
        assert(same_kin_at(u, tasks, j));
        assert(same_kin_at(u, tasks, l));
        assert(tasks[j].inner.children@[a] == tasks[l].inner.children@[b]);
    }
    assert forall|j: int| 0 <= j < u.len() implies #[trigger] parent_ok(u, j) by {
        assert(same_kin_at(u, tasks, j));
        assert(parent_ok(tasks, j));
        if let Some(q) = u[j].inner.parent {
            if scheduler::known(u, q) {
                assert(same_kin_at(u, tasks, scheduler::index(tasks, q)));
                assert(u[j].pid == tasks[j].pid);
            }
        }
    }
}

/// Does `pid` wait for a child to exit?
pub open spec fn waits(tasks: Seq<Task>, pid: u64) -> bool {
    tasks[scheduler::index(tasks, pid)].child_exit@.len() > 0
}

/// What telling `pid` makes of the tasks and the queue, if it waits.
pub open spec fn after_notice(v: Runnable, pid: u64, waiting: bool) -> Runnable {
    if waiting {
        scheduler::after_wake(v, pid)
    } else {
        v
    }
}

/// Tasks of which `pid` alone has stopped waiting for its children.
pub open spec fn stopped_waiting(u: Seq<Task>, tasks: Seq<Task>, pid: u64) -> bool {
    forall|j: int|
        0 <= j < tasks.len() ==> (#[trigger] u[j]).child_exit@ == (if tasks[j].pid.0 == pid {
            Seq::<u64>::empty()
        } else {
            tasks[j].child_exit@
        })
}

/// Wake `pid` if it waits for a child to exit. It looks at its children again when
/// it runs, so a spurious wakeup costs nothing and a missed one hangs it.
fn notify(sched: &mut Scheduler, pid: u64)
    requires
        old(sched).wf(),
        old(sched).cpu.previous is None,
        kin(old(sched).tasks@),
        scheduler::known(old(sched).tasks@, pid),
    ensures
        final(sched).wf(),
        kin(final(sched).tasks@),
        final(sched).cpu == old(sched).cpu,
        final(sched).queue.created() == old(sched).queue.created(),
        forall|j: int|
            0 <= j < old(sched).tasks@.len() ==> #[trigger] same_kin_at(final(sched).tasks@, old(sched).tasks@, j),
        stopped_waiting(final(sched).tasks@, old(sched).tasks@, pid),
        ({
            let v = after_notice(old(sched).view(), pid, waits(old(sched).tasks@, pid));
            final(sched).queue.levels() == v.levels && alike(final(sched).tasks@, v.tasks)
        }),
{
    let ghost s0 = *sched;
    let ghost t0 = sched.tasks@;
    let k: usize = match sched.find(pid) {
        Some(k) => k,
        None => {
            assert(false);
            0
        },
    };
    proof {
        assert(exit_queue_ok(t0, k as int));
        assert forall|j: int| 0 <= j < t0.len() implies #[trigger] alike_at(t0, t0, j) by {}
        assert forall|j: int| 0 <= j < t0.len() implies #[trigger] same_kin_at(t0, t0, j) by {}
        scheduler::lemma_index(t0, k as int);
    }
    if sched.tasks[k].child_exit.is_empty() {
        return;
    }
    let mut waiters: WaitQueue = WaitQueue::new();
    core::mem::swap(&mut waiters, &mut sched.tasks[k].child_exit);
    let ghost s1 = *sched;
    proof {
        assert forall|j: int| 0 <= j < t0.len() implies #[trigger] alike_at(s1.tasks@, t0, j) by {}
        lemma_alike_wf(s1, s0);
        lemma_alike(s1.tasks@, t0);
        lemma_alike_wake(s1.tasks@, t0, s0.queue.levels(), pid);
        assert(waiters@ == seq![pid]);
        assert(waiters@.skip(1) =~= Seq::empty());
        reveal_with_fuel(scheduler::after_wakes, 2);
        assert(scheduler::after_wakes(s1.view(), waiters@) == scheduler::after_wake(s1.view(), pid));
    }
    waiters.wake_all(sched);
    proof {
        let u = sched.tasks@;
        let w = scheduler::woken(s1.tasks@[k as int].inner);
        assert(u == scheduler::with_inner(s1.tasks@, k as int, w));
        assert forall|j: int| 0 <= j < t0.len() implies #[trigger] same_kin_at(u, t0, j) by {}
        assert forall|j: int| 0 <= j < t0.len() implies #[trigger] exit_queue_ok(u, j) by {
            assert(exit_queue_ok(t0, j));
        }
        assert forall|j: int| 0 <= j < t0.len() implies (#[trigger] u[j]).pid == t0[j].pid by {}
        lemma_kin_same(u, t0);
        assert forall|j: int| 0 <= j < t0.len() implies (#[trigger] u[j]).child_exit@ == (if t0[j].pid.0 == pid {
            Seq::<u64>::empty()
        } else {
            t0[j].child_exit@
        }) by {
            if t0[j].pid.0 == pid {
                scheduler::lemma_index(t0, j);
            }
        }
    }
}

/// Who may wait for `pid`: its parent, or the first process if it is an orphan.
pub open spec fn reaper(tasks: Seq<Task>, pid: u64) -> Option<u64> {
    let t = tasks[scheduler::index(tasks, pid)];
    if t.inner.parent is Some && scheduler::known(tasks, t.inner.parent->0) {
        t.inner.parent
    } else if scheduler::known(tasks, INIT) && children_of(tasks, INIT).contains(pid) {
        Some(INIT)
    } else {
        None
    }
}

/// Is the first process told of children that `pid` hands over?
pub open spec fn init_told(tasks: Seq<Task>, pid: u64) -> bool {
    hands_over(tasks, pid) && children_of(tasks, pid).len() > 0
}

/// Who is woken when `pid` exits, in order.
pub open spec fn wake_list(tasks: Seq<Task>, pid: u64) -> Seq<u64> {
    let r = reaper(tasks, pid);
    let first = if r is Some && waits(tasks, r->0) {
        seq![r->0]
    } else {
        Seq::empty()
    };
    if init_told(tasks, pid) && waits(tasks, INIT) && r != Some(INIT) {
        first.push(INIT)
    } else {
        first
    }
}

/// Those that are woken wait no more.
pub open spec fn queues_after(u: Seq<Task>, tasks: Seq<Task>, list: Seq<u64>) -> bool {
    forall|j: int|
        0 <= j < tasks.len() ==> (#[trigger] u[j]).child_exit@ == (if list.contains(tasks[j].pid.0) {
            Seq::<u64>::empty()
        } else {
            tasks[j].child_exit@
        })
}

/// What the exit of `pid` makes of the tasks and the queue.
pub open spec fn departed(after: Runnable, before: Runnable, pid: u64) -> bool {
    let list = wake_list(before.tasks, pid);
    let v = scheduler::after_wakes(before, list);
    &&& after.levels == v.levels
    &&& alike(after.tasks, v.tasks)
    &&& handed(after.tasks, before.tasks, pid)
    &&& queues_after(after.tasks, before.tasks, list)
}

/// Is `pid` among the children of task `i`?
fn has_child(sched: &Scheduler, i: usize, pid: u64) -> (r: bool)
    requires
        i < sched.tasks@.len(),
    ensures
        r == sched.tasks@[i as int].inner.children@.contains(pid),
{
    let mut a: usize = 0;
    while a < sched.tasks[i].inner.children.len()
        invariant
            i < sched.tasks@.len(),
            a <= sched.tasks@[i as int].inner.children@.len(),
            forall|b: int| 0 <= b < a ==> sched.tasks@[i as int].inner.children@[b] != pid,
        decreases sched.tasks@[i as int].inner.children@.len() - a,
    {
        if sched.tasks[i].inner.children[a] == pid {
            assert(sched.tasks@[i as int].inner.children@[a as int] == pid);
            return true;
        }
        a = a + 1;
    }
    false
}

/// Who may wait for `pid`.
fn find_reaper(sched: &Scheduler, pid: u64) -> (r: Option<u64>)
    requires
        sched.wf(),
        scheduler::known(sched.tasks@, pid),
    ensures
        r == reaper(sched.tasks@, pid),
        r matches Some(q) ==> scheduler::known(sched.tasks@, q),
{
    let i: usize = match sched.find(pid) {
        Some(i) => i,
        None => {
            assert(false);
            0
        },
    };
    if let Some(q) = sched.tasks[i].inner.parent {
        if sched.find(q).is_some() {
            return Some(q);
        }
    }
    match sched.find(INIT) {
        Some(n) => {
            proof {
                scheduler::lemma_index(sched.tasks@, n as int);
            }
            if has_child(sched, n, pid) {
                Some(INIT)
            } else {
                None
            }
        },
        None => None,
    }
}

/// One who was notified, seen from where it all started.
proof fn lemma_notified(s2: Scheduler, s1: Scheduler, v0: Runnable, q: u64)
    requires
        scheduler::distinct(v0.tasks),
        scheduler::known(v0.tasks, q),
        alike(s1.tasks@, v0.tasks),
        s1.queue.levels() == v0.levels,
        ({
            let v = after_notice(s1.view(), q, waits(s1.tasks@, q));
            s2.queue.levels() == v.levels && alike(s2.tasks@, v.tasks)
        }),
    ensures
        ({
            let w = after_notice(v0, q, waits(s1.tasks@, q));
            &&& s2.queue.levels() == w.levels
            &&& alike(s2.tasks@, w.tasks)
            &&& scheduler::distinct(w.tasks)
            &&& forall|p: u64| #[trigger] scheduler::known(w.tasks, p) == scheduler::known(v0.tasks, p)
        }),
{
    if waits(s1.tasks@, q) {
        lemma_alike_wake(s1.tasks@, v0.tasks, v0.levels, q);
        lemma_alike_twice(
            s2.tasks@,
            scheduler::after_wake(s1.view(), q).tasks,
            scheduler::after_wake(v0, q).tasks,
        );
        let i = scheduler::index(v0.tasks, q);
        scheduler::lemma_with_inner(v0.tasks, i, scheduler::woken(v0.tasks[i].inner));
    } else {
        lemma_alike_twice(s2.tasks@, s1.tasks@, v0.tasks);
    }
}

/// Waking one or two.
proof fn lemma_wakes(v: Runnable, a: u64, b: u64)
    ensures
        scheduler::after_wakes(v, Seq::empty()) == v,
        scheduler::after_wakes(v, seq![a]) == scheduler::after_wake(v, a),
        scheduler::after_wakes(v, seq![a].push(b)) == scheduler::after_wake(scheduler::after_wake(v, a), b),
        scheduler::after_wakes(v, Seq::empty().push(b)) == scheduler::after_wake(v, b),
{
    reveal_with_fuel(scheduler::after_wakes, 3);
    assert(seq![a].skip(1) =~= Seq::empty());
    assert(seq![a].push(b).skip(1) =~= seq![b]);
    assert(seq![b].skip(1) =~= Seq::empty());
    assert(Seq::<u64>::empty().push(b) =~= seq![b]);
}

/// Kinship that did not change is as it was handed over.
proof fn lemma_handed_kept(w: Seq<Task>, u: Seq<Task>, tasks: Seq<Task>, pid: u64)
    requires
        handed(u, tasks, pid),
        forall|j: int| 0 <= j < tasks.len() ==> #[trigger] same_kin_at(w, u, j),
    ensures
        handed(w, tasks, pid),
{
    if hands_over(tasks, pid) {
        assert forall|j: int| 0 <= j < tasks.len() implies #[trigger] handed_at(
            w,
            tasks,
            pid,
            children_of(tasks, pid),
            j,
        ) by {
            assert(same_kin_at(w, u, j));
            assert(handed_at(u, tasks, pid, children_of(tasks, pid), j));
        }
    } else {
        assert forall|j: int| 0 <= j < tasks.len() implies #[trigger] same_kin_at(w, tasks, j) by {
            assert(same_kin_at(w, u, j));
            assert(same_kin_at(u, tasks, j));
        }
    }
}

/// Reparent `pid`'s children and wake whoever waits for it. Called as a process
/// exits.
#[verifier::rlimit(60)]
#[verifier::spinoff_prover]
pub fn on_exit(sched: &mut Scheduler, pid: u64)
    requires
        old(sched).wf(),
        old(sched).cpu.previous is None,
        kin(old(sched).tasks@),
        scheduler::known(old(sched).tasks@, pid),
    ensures
        final(sched).wf(),
        kin(final(sched).tasks@),
        final(sched).cpu == old(sched).cpu,
        final(sched).queue.created() == old(sched).queue.created(),
        departed(final(sched).view(), old(sched).view(), pid),
{
    let ghost s0 = *sched;
    let ghost t0 = sched.tasks@;
    let ghost list = wake_list(t0, pid);
    let ghost v0 = s0.view();
    let who: Option<u64> = find_reaper(sched, pid);
    let told: bool = match sched.find(pid) {
        Some(i) => pid != INIT && sched.find(INIT).is_some() && sched.tasks[i].inner.children.len() > 0,
        None => false,
    };
    assert(told == init_told(t0, pid));
    hand_over(sched, pid);
    let ghost s1 = *sched;
    proof {
        lemma_alike(s1.tasks@, t0);
    }
    if let Some(q) = who {
        notify(sched, q);
        proof {
            lemma_notified(*sched, s1, v0, q);
            lemma_handed_kept(sched.tasks@, s1.tasks@, t0, pid);
        }
    }
    let ghost s2 = *sched;
    let ghost first = who is Some && waits(t0, who->0);
    let ghost v1 = after_notice(v0, who->0, first);
    proof {
        assert(alike(s2.tasks@, v1.tasks));
        assert(s2.queue.levels() == v1.levels);
        assert(scheduler::distinct(v1.tasks));
        assert forall|j: int| 0 <= j < t0.len() implies (#[trigger] s2.tasks@[j]).child_exit@ == (if who == Some(
            t0[j].pid.0,
        ) {
            Seq::<u64>::empty()
        } else {
            t0[j].child_exit@
        }) by {
            assert(s1.tasks@[j].child_exit == t0[j].child_exit);
            assert(alike_at(s1.tasks@, t0, j));
        }
        lemma_alike(s2.tasks@, v1.tasks);
        assert forall|j: int| 0 <= j < t0.len() implies (#[trigger] s2.tasks@[j]).pid == t0[j].pid by {
            assert(alike_at(s2.tasks@, v1.tasks, j));
        }
    }
    if told {
        notify(sched, INIT);
        proof {
            lemma_notified(*sched, s2, v1, INIT);
            lemma_handed_kept(sched.tasks@, s2.tasks@, t0, pid);
        }
    }
    proof {
        let r = if who is Some {
            who->0
        } else {
            0
        };
        lemma_wakes(v0, r, INIT);
        let second = told && waits(t0, INIT) && who != Some(INIT);
        if told {
            let n = scheduler::index(t0, INIT);
            assert(scheduler::known(t0, INIT));
            assert(s2.tasks@[n].pid.0 == INIT);
            scheduler::lemma_index(s2.tasks@, n);
            assert(waits(s2.tasks@, INIT) == second);
        }
        assert(list == (if first {
            seq![r]
        } else {
            Seq::empty()
        }) + (if second {
            seq![INIT]
        } else {
            Seq::empty()
        }));
        if first && second {
            assert(list =~= seq![r].push(INIT));
        } else if first {
            assert(list =~= seq![r]);
        } else if second {
            assert(list =~= Seq::empty().push(INIT));
        } else {
            assert(list =~= Seq::empty());
        }
        let v = scheduler::after_wakes(v0, list);
        assert(v == after_notice(v1, INIT, second));
        assert(sched.queue.levels() == v.levels);
        assert(alike(sched.tasks@, v.tasks));
        assert forall|j: int| 0 <= j < t0.len() implies (#[trigger] sched.tasks@[j]).child_exit@ == (
        if list.contains(t0[j].pid.0) {
            Seq::<u64>::empty()
        } else {
            t0[j].child_exit@
        }) by {
            lemma_queue_after(*sched, s2, s0, who, told, pid, j);
        }
    }
}

/// Who waits once those who were to be told have been.
proof fn lemma_queue_after(s3: Scheduler, s2: Scheduler, s0: Scheduler, who: Option<u64>, told: bool, pid: u64, j: int)
    requires
        scheduler::distinct(s0.tasks@),
        kin(s0.tasks@),
        who == reaper(s0.tasks@, pid),
        who matches Some(q) ==> scheduler::known(s0.tasks@, q),
        told == init_told(s0.tasks@, pid),
        0 <= j < s0.tasks@.len() == s2.tasks@.len(),
        s2.tasks@[j].pid == s0.tasks@[j].pid,
        s2.tasks@[j].child_exit@ == (if who == Some(s0.tasks@[j].pid.0) {
            Seq::<u64>::empty()
        } else {
            s0.tasks@[j].child_exit@
        }),
        if told {
            stopped_waiting(s3.tasks@, s2.tasks@, INIT)
        } else {
            s3 == s2
        },
    ensures
        s3.tasks@[j].child_exit@ == (if wake_list(s0.tasks@, pid).contains(s0.tasks@[j].pid.0) {
            Seq::<u64>::empty()
        } else {
            s0.tasks@[j].child_exit@
        }),
{
    let t0 = s0.tasks@;
    let list = wake_list(t0, pid);
    let p = t0[j].pid.0;
    scheduler::lemma_index(t0, j);
    let first = who is Some && waits(t0, who->0);
    let second = told && waits(t0, INIT) && who != Some(INIT);
    assert(list.contains(p) == ((first && who == Some(p)) || (second && p == INIT))) by {
        if first {
            assert(list[0] == who->0);
        }
        if second {
            assert(list[list.len() - 1] == INIT);
        }
        if list.contains(p) {
            let k = choose|k: int| 0 <= k < list.len() && list[k] == p;
        }
    }
    if told {
        assert(s3.tasks@[j].child_exit@ == (if s2.tasks@[j].pid.0 == INIT {
            Seq::<u64>::empty()
        } else {
            s2.tasks@[j].child_exit@
        }));
    }
    if !waits(t0, p) {
        assert(t0[j].child_exit@ =~= Seq::empty());
    }
}

/// A task whose scheduling state alone changed has the kin and the frames it had.
pub proof fn lemma_rescheduled(u: Seq<Task>, tasks: Seq<Task>, i: int, inner: TaskInner, mem: Memory, kernel: AddressSpace)
    requires
        scheduler::distinct(tasks),
        kin(tasks),
        backed(tasks, mem, kernel),
        0 <= i < tasks.len(),
        u == scheduler::with_inner(tasks, i, inner),
        inner.kstack == tasks[i].inner.kstack,
        inner.space == tasks[i].inner.space,
        inner.children@ == tasks[i].inner.children@,
        inner.parent == tasks[i].inner.parent,
    ensures
        kin(u),
        backed(u, mem, kernel),
        holdings(u) == holdings(tasks),
{
    assert forall|j: int| 0 <= j < tasks.len() implies (#[trigger] u[j]).pid == tasks[j].pid by {}
    assert forall|j: int| 0 <= j < tasks.len() implies #[trigger] same_kin_at(u, tasks, j) by {}
    assert forall|j: int| 0 <= j < tasks.len() implies #[trigger] exit_queue_ok(u, j) by {
        assert(exit_queue_ok(tasks, j));
    }
    lemma_kin_same(u, tasks);
    lemma_same_holdings(u, tasks, mem, kernel);
}

/// Ids that tasks have or name were handed out: `next` is none of them.
pub open spec fn numbered(tasks: Seq<Task>, next: u64) -> bool {
    forall|i: int| 0 <= i < tasks.len() ==> #[trigger] numbered_at(tasks, next, i)
}

/// The ids that task `i` has and names were handed out.
pub open spec fn numbered_at(tasks: Seq<Task>, next: u64, i: int) -> bool {
    &&& 0 < tasks[i].pid.0 < next
    &&& tasks[i].inner.parent matches Some(q) ==> q < next
}

/// An id that was not handed out yet is nobody's.
pub proof fn lemma_numbered(tasks: Seq<Task>, next: u64)
    requires
        numbered(tasks, next),
    ensures
        !scheduler::known(tasks, next),
{
    if scheduler::known(tasks, next) {
        let i = scheduler::index(tasks, next);
        assert(numbered_at(tasks, next, i));
    }
}

/// A task without kin joins.
pub proof fn lemma_kin_join(tasks: Seq<Task>, t: Task, next: u64)
    requires
        scheduler::distinct(tasks),
        kin(tasks),
        numbered(tasks, next),
        t.pid.0 == next,
        t.inner.parent is None,
        t.inner.children@ == Seq::<u64>::empty(),
        t.child_exit@ == Seq::<u64>::empty(),
    ensures
        kin(tasks.push(t)),
{
    let u = tasks.push(t);
    lemma_numbered(tasks, next);
    scheduler::lemma_push_task(tasks, t);
    assert forall|j: int, a: int| 0 <= j < u.len() && 0 <= a < u[j].inner.children@.len() implies #[trigger] child_ok(
        u,
        j,
        a,
    ) by {
        assert(child_ok(tasks, j, a));
    }
    assert forall|j: int, a: int, l: int, b: int|
        0 <= j < u.len() && 0 <= a < u[j].inner.children@.len() && 0 <= l < u.len() && 0 <= b
            < u[l].inner.children@.len() && #[trigger] u[j].inner.children@[a]
            == #[trigger] u[l].inner.children@[b] implies j == l && a == b by {
        assert(tasks[j].inner.children@[a] == tasks[l].inner.children@[b]);
    }
    assert forall|j: int| 0 <= j < u.len() implies #[trigger] parent_ok(u, j) by {
        if j < tasks.len() {
            assert(parent_ok(tasks, j));
            assert(numbered_at(tasks, next, j));
        }
    }
    assert forall|j: int| 0 <= j < u.len() implies #[trigger] exit_queue_ok(u, j) by {
        if j < tasks.len() {
            assert(exit_queue_ok(tasks, j));
        }
    }
}

/// A parent's child list has grown by its new child, which joins the table.
pub proof fn lemma_kin_fork(tasks: Seq<Task>, i: int, inner: TaskInner, t: Task, next: u64)
    requires
        scheduler::distinct(tasks),
        kin(tasks),
        numbered(tasks, next),
        INIT < next,
        0 <= i < tasks.len(),
        inner.parent == tasks[i].inner.parent,
        inner.children@ == tasks[i].inner.children@.push(next),
        t.pid.0 == next,
        t.inner.parent == Some(tasks[i].pid.0),
        t.inner.children@ == Seq::<u64>::empty(),
        t.child_exit@ == Seq::<u64>::empty(),
    ensures
        kin(scheduler::with_inner(tasks, i, inner).push(t)),
{
    let mid = scheduler::with_inner(tasks, i, inner);
    let u = mid.push(t);
    let n = tasks.len() as int;
    lemma_numbered(tasks, next);
    scheduler::lemma_with_inner(tasks, i, inner);
    scheduler::lemma_push_task(mid, t);
    let kids = tasks[i].inner.children@;
    assert forall|j: int, a: int|
        0 <= j < n && 0 <= a < tasks[j].inner.children@.len() implies #[trigger] tasks[j].inner.children@[a] != next
        && u[j].inner.children@[a] == tasks[j].inner.children@[a] by {
        assert(child_ok(tasks, j, a));
        assert(scheduler::known(tasks, tasks[j].inner.children@[a]));
    }
    assert forall|j: int, a: int| 0 <= j < u.len() && 0 <= a < u[j].inner.children@.len() implies #[trigger] child_ok(
        u,
        j,
        a,
    ) by {
        assert(j < n);
        if a < tasks[j].inner.children@.len() {
            assert(child_ok(tasks, j, a));
            let c = tasks[j].inner.children@[a];
            assert(scheduler::known(mid, c));
            assert(scheduler::index(u, c) == scheduler::index(tasks, c));
        } else {
            assert(j == i && a == kids.len());
            assert(numbered_at(tasks, next, i));
            assert(scheduler::index(u, next) == n);
        }
    }
    assert forall|j: int, a: int, l: int, b: int|
        0 <= j < u.len() && 0 <= a < u[j].inner.children@.len() && 0 <= l < u.len() && 0 <= b
            < u[l].inner.children@.len() && #[trigger] u[j].inner.children@[a]
            == #[trigger] u[l].inner.children@[b] implies j == l && a == b by {
        assert(j < n && l < n);
        let old_a = a < tasks[j].inner.children@.len();
        let old_b = b < tasks[l].inner.children@.len();
        if old_a {
            assert(tasks[j].inner.children@[a] != next);
        }
        if old_b {
            assert(tasks[l].inner.children@[b] != next);
        }
        if !old_a {
            assert(j == i && a == kids.len() && u[j].inner.children@[a] == next);
        }
        if !old_b {
            assert(l == i && b == kids.len() && u[l].inner.children@[b] == next);
        }
    }
    assert forall|j: int| 0 <= j < u.len() implies #[trigger] parent_ok(u, j) by {
        if j < n {
            assert(parent_ok(tasks, j));
            assert(numbered_at(tasks, next, j));
            if u[j].inner.parent is Some {
                let q = u[j].inner.parent->0;
                if scheduler::known(u, q) {
                    assert(scheduler::known(mid, q));
                    assert(scheduler::known(tasks, q));
                    let l = scheduler::index(tasks, q);
                    assert(scheduler::index(u, q) == l);
                    let x = tasks[j].pid.0;
                    assert(tasks[l].inner.children@.contains(x));
                    let a = choose|a: int| 0 <= a < tasks[l].inner.children@.len() && tasks[l].inner.children@[a] == x;
                    assert(u[l].inner.children@[a] == x);
                }
            }
        } else {
            assert(scheduler::known(mid, tasks[i].pid.0)) by {
                scheduler::lemma_index(tasks, i);
            }
            scheduler::lemma_index(tasks, i);
            assert(scheduler::index(u, tasks[i].pid.0) == i);
            assert(u[i].inner.children@[kids.len() as int] == next);
        }
    }
    assert forall|j: int| 0 <= j < u.len() implies #[trigger] exit_queue_ok(u, j) by {
        if j < n {
            assert(exit_queue_ok(tasks, j));
        }
    }
}

/// Task `j` is scheduled as it was.
pub open spec fn same_place_at(u: Seq<Task>, tasks: Seq<Task>, j: int) -> bool {
    &&& u[j].pid == tasks[j].pid
    &&& u[j].inner.state == tasks[j].inner.state
    &&& u[j].inner.level == tasks[j].inner.level
    &&& u[j].inner.ticks == tasks[j].inner.ticks
}

/// Tasks that are scheduled as they were are in order as they were.
pub proof fn lemma_same_place(s: Scheduler, s0: Scheduler)
    requires
        s0.wf(),
        s.tasks@.len() == s0.tasks@.len(),
        forall|j: int| 0 <= j < s0.tasks@.len() ==> #[trigger] same_place_at(s.tasks@, s0.tasks@, j),
        s.queue == s0.queue,
        s.cpu == s0.cpu,
    ensures
        s.wf(),
        forall|p: u64| #[trigger] scheduler::known(s.tasks@, p) == scheduler::known(s0.tasks@, p),
        forall|p: u64|
            scheduler::known(s0.tasks@, p) ==> #[trigger] scheduler::index(s.tasks@, p) == scheduler::index(
                s0.tasks@,
                p,
            ),
{
    let u = s.tasks@;
    let tasks = s0.tasks@;
    assert forall|j: int| 0 <= j < tasks.len() implies (#[trigger] u[j]).pid == tasks[j].pid by {
        assert(same_place_at(u, tasks, j));
    }
    assert forall|a: int, b: int|
        0 <= a < u.len() && 0 <= b < u.len() && (#[trigger] u[a]).pid.0 == (#[trigger] u[b]).pid.0 implies a == b by {
        assert(tasks[a].pid.0 == tasks[b].pid.0);
    }
    assert forall|p: u64| #[trigger] scheduler::known(u, p) == scheduler::known(tasks, p) by {
        if scheduler::known(u, p) {
            let a = scheduler::index(u, p);
            assert(tasks[a].pid.0 == p);
        }
        if scheduler::known(tasks, p) {
            let a = scheduler::index(tasks, p);
            assert(u[a].pid.0 == p);
        }
    }
    assert forall|p: u64| scheduler::known(tasks, p) implies #[trigger] scheduler::index(u, p)
        == scheduler::index(tasks, p) by {
        let a = scheduler::index(tasks, p);
        assert(u[a].pid.0 == p);
        scheduler::lemma_index(u, a);
    }
    let l = s0.queue.levels();
    assert forall|k: int, a: int| 0 <= k < 3 && 0 <= a < l[k].len() implies {
        let q = #[trigger] l[k][a];
        &&& scheduler::known(u, q)
        &&& u[scheduler::index(u, q)].inner.state == TaskState::Ready
        &&& u[scheduler::index(u, q)].inner.level == k
    } by {
        assert(scheduler::known(tasks, l[k][a]));
        assert(same_place_at(u, tasks, scheduler::index(tasks, l[k][a])));
    }
    if let Some(p) = s0.cpu.current {
        assert(same_place_at(u, tasks, scheduler::index(tasks, p)));
    }
    if let Some(p) = s0.cpu.previous {
        assert(same_place_at(u, tasks, scheduler::index(tasks, p)));
    }
    assert forall|j: int| 0 <= j < u.len() implies #[trigger] s.placed(j) by {
        assert(s0.placed(j));
        assert(same_place_at(u, tasks, j));
    }
}

/// One task's address space has changed, out of its own frames and fresh ones.
pub proof fn lemma_backed_changed(tasks: Seq<Task>, i: int, t: Task, m0: Memory, mem: Memory, kernel: AddressSpace)
    requires
        m0.wf(),
        kernel.wf(m0),
        backed(tasks, m0, kernel),
        0 <= i < tasks.len(),
        t.sound(mem, kernel),
        t.inner.kstack == tasks[i].inner.kstack,
        mem.keeps(m0, tasks[i].user_frames()),
        forall|f: int|
            #[trigger] t.user_frames().contains(f) ==> tasks[i].user_frames().contains(f) || !m0.used(f),
    ensures
        backed(tasks.update(i, t), mem, kernel),
{
    let u = tasks.update(i, t);
    let gone = tasks[i].user_frames();
    assert(tasks[i].sound(m0, kernel));
    lemma_apart_from_kernel(tasks[i], m0, kernel);
    assert forall|j: int| 0 <= j < u.len() implies (#[trigger] u[j]).sound(mem, kernel) by {
        if j != i {
            assert(tasks[i].frames().disjoint(tasks[j].frames()));
            tasks[j].lemma_kept(m0, mem, kernel, gone);
        }
    }
    assert forall|j: int| 0 <= j < tasks.len() && j != i implies t.frames().disjoint(
        (#[trigger] tasks[j]).frames(),
    ) by {
        assert(tasks[j].sound(m0, kernel));
        tasks[j].lemma_sound(m0, kernel);
        assert(tasks[i].frames().disjoint(tasks[j].frames()));
        assert forall|f: int| t.frames().contains(f) implies !tasks[j].frames().contains(f) by {
            if t.user_frames().contains(f) && !tasks[i].user_frames().contains(f) {
                assert(!m0.used(f));
            }
        }
    }
    assert forall|a: int, b: int| 0 <= a < u.len() && 0 <= b < u.len() && a != b implies (
    #[trigger] u[a]).frames().disjoint((#[trigger] u[b]).frames()) by {
        if a == i {
            assert(u[b] == tasks[b]);
        } else if b == i {
            assert(u[a] == tasks[a]);
            assert(t.frames().disjoint(tasks[a].frames()));
        } else {
            assert(tasks[a].frames().disjoint(tasks[b].frames()));
        }
    }
}

/// Task `j` after task `i` has struck child `z` off its list.
pub open spec fn disowned_at(u: Seq<Task>, tasks: Seq<Task>, i: int, z: int, j: int) -> bool {
    &&& u[j] == (Task {
        inner: TaskInner { children: u[j].inner.children, parent: u[j].inner.parent, ..tasks[j].inner },
        ..tasks[j]
    })
    &&& u[j].inner.children@ == (if j == i {
        tasks[i].inner.children@.remove(z)
    } else {
        tasks[j].inner.children@
    })
    &&& u[j].inner.parent == (if tasks[j].pid.0 == tasks[i].inner.children@[z] {
        None
    } else {
        tasks[j].inner.parent
    })
}

/// Task `i` has struck child `z` off its list, which has no parent any more.
pub open spec fn disowned(u: Seq<Task>, tasks: Seq<Task>, i: int, z: int) -> bool {
    &&& u.len() == tasks.len()
    &&& forall|j: int| 0 <= j < tasks.len() ==> #[trigger] disowned_at(u, tasks, i, z, j)
}

/// Where entry `a` of a child list was before child `z` was struck off list `i`.
spec fn whence(i: int, z: int, j: int, a: int) -> int {
    if j == i && a >= z {
        a + 1
    } else {
        a
    }
}

/// Parents and children agree after a child was struck off, and nobody lists it.
pub proof fn lemma_disowned(u: Seq<Task>, tasks: Seq<Task>, i: int, z: int)
    requires
        scheduler::distinct(tasks),
        kin(tasks),
        0 <= i < tasks.len(),
        0 <= z < tasks[i].inner.children@.len(),
        disowned(u, tasks, i, z),
    ensures
        kin(u),
        alike(u, tasks),
        !listed(u, tasks[i].inner.children@[z]),
{
    let c = tasks[i].inner.children@[z];
    assert forall|j: int| 0 <= j < tasks.len() implies #[trigger] alike_at(u, tasks, j) by {
        assert(disowned_at(u, tasks, i, z, j));
    }
    lemma_alike(u, tasks);
    assert forall|j: int, a: int| 0 <= j < u.len() && 0 <= a < u[j].inner.children@.len() implies ({
        let b = whence(i, z, j, a);
        &&& 0 <= b < tasks[j].inner.children@.len()
        &&& #[trigger] u[j].inner.children@[a] == tasks[j].inner.children@[b]
        &&& tasks[j].inner.children@[b] != c
    }) by {
        assert(disowned_at(u, tasks, i, z, j));
        let b = whence(i, z, j, a);
        if tasks[j].inner.children@[b] == tasks[i].inner.children@[z] {
            assert(j == i && b == z);
        }
    }
    assert forall|j: int, a: int| 0 <= j < u.len() && 0 <= a < u[j].inner.children@.len() implies #[trigger] child_ok(
        u,
        j,
        a,
    ) by {
        let b = whence(i, z, j, a);
        let x = u[j].inner.children@[a];
        assert(child_ok(tasks, j, b));
        assert(disowned_at(u, tasks, i, z, scheduler::index(tasks, x)));
        assert(disowned_at(u, tasks, i, z, j));
    }
    assert forall|j: int, a: int, l: int, b: int|
        0 <= j < u.len() && 0 <= a < u[j].inner.children@.len() && 0 <= l < u.len() && 0 <= b
            < u[l].inner.children@.len() && #[trigger] u[j].inner.children@[a]
            == #[trigger] u[l].inner.children@[b] implies j == l && a == b by {
        let a0 = whence(i, z, j, a);
        let b0 = whence(i, z, l, b);
        assert(tasks[j].inner.children@[a0] == tasks[l].inner.children@[b0]);
    }
    assert forall|j: int| 0 <= j < u.len() implies #[trigger] parent_ok(u, j) by {
        assert(parent_ok(tasks, j));
        assert(disowned_at(u, tasks, i, z, j));
        if u[j].inner.parent is Some {
            let q = u[j].inner.parent->0;
            if scheduler::known(u, q) {
                let l = scheduler::index(tasks, q);
                let x = tasks[j].pid.0;
                assert(disowned_at(u, tasks, i, z, l));
                assert(tasks[l].inner.children@.contains(x));
                let b = choose|b: int| 0 <= b < tasks[l].inner.children@.len() && tasks[l].inner.children@[b] == x;
                assert(x != c);
                let a = if l == i && b > z {
                    b - 1
                } else {
                    b
                };
                assert(u[l].inner.children@[a] == x);
            }
        }
    }
    assert forall|j: int| 0 <= j < u.len() implies #[trigger] exit_queue_ok(u, j) by {
        assert(exit_queue_ok(tasks, j));
        assert(disowned_at(u, tasks, i, z, j));
    }
    if listed(u, c) {
        let (j, a) = choose|j: int, a: int|
            0 <= j < u.len() && 0 <= a < u[j].inner.children@.len() && #[trigger] u[j].inner.children@[a] == c;
        assert(u[j].inner.children@[a] != c);
    }
}

/// The first one that is found stands no later than any.
proof fn lemma_first_unowned(tasks: Seq<Task>, from: int, i: int)
    requires
        0 <= from <= i < tasks.len(),
        unowned(tasks, i),
    ensures
        from <= first_unowned(tasks, from) <= i,
        unowned(tasks, first_unowned(tasks, from)),
    decreases i - from,
{
    if !unowned(tasks, from) {
        lemma_first_unowned(tasks, from + 1, i);
    }
}

/// Nobody is added by a sweep.
proof fn lemma_swept_known(tasks: Seq<Task>, p: u64)
    requires
        scheduler::distinct(tasks),
        !scheduler::known(tasks, p),
    ensures
        !scheduler::known(swept(tasks), p),
    decreases tasks.len(),
{
    let k = first_unowned(tasks, 0);
    if 0 <= k < tasks.len() {
        scheduler::lemma_remove_task(tasks, k);
        lemma_swept_known(tasks.remove(k), p);
    }
}

/// One that has exited and that nobody lists is gone after a sweep.
pub proof fn lemma_swept_gone(tasks: Seq<Task>, i: int)
    requires
        scheduler::distinct(tasks),
        0 <= i < tasks.len(),
        unowned(tasks, i),
    ensures
        !scheduler::known(swept(tasks), tasks[i].pid.0),
    decreases tasks.len(),
{
    let p = tasks[i].pid.0;
    let k = first_unowned(tasks, 0);
    lemma_first_unowned(tasks, 0, i);
    let rest = tasks.remove(k);
    scheduler::lemma_remove_task(tasks, k);
    if k == i {
        lemma_swept_known(rest, p);
    } else {
        let j = if i < k {
            i
        } else {
            i - 1
        };
        assert(rest[j] == tasks[i]);
        assert(unowned(rest, j)) by {
            if listed(rest, p) {
                let (l, a) = choose|l: int, a: int|
                    0 <= l < rest.len() && 0 <= a < rest[l].inner.children@.len()
                        && #[trigger] rest[l].inner.children@[a] == p;
                let m = shifted(k, l);
                assert(tasks[m].inner.children@[a] == p);
            }
        }
        lemma_swept_gone(rest, j);
    }
}

/// One more task with frames that nobody had.
pub proof fn lemma_backed_join(tasks: Seq<Task>, t: Task, m0: Memory, mem: Memory, kernel: AddressSpace)
    requires
        m0.wf(),
        kernel.wf(m0),
        backed(tasks, m0, kernel),
        t.sound(mem, kernel),
        mem.took(m0, t.frames()),
    ensures
        backed(tasks.push(t), mem, kernel),
{
    let u = tasks.push(t);
    let none = Set::<int>::empty();
    lemma_backed_kept(tasks, m0, mem, kernel, none);
    assert forall|j: int| 0 <= j < u.len() implies (#[trigger] u[j]).sound(mem, kernel) by {
        if j < tasks.len() {
            assert(tasks[j].sound(mem, kernel));
        }
    }
    assert forall|j: int, l: int| 0 <= j < u.len() && 0 <= l < u.len() && j != l implies (
    #[trigger] u[j]).frames().disjoint((#[trigger] u[l]).frames()) by {
        if j < tasks.len() && l < tasks.len() {
            assert(tasks[j].frames().disjoint(tasks[l].frames()));
        } else {
            let k = if j < tasks.len() {
                j
            } else {
                l
            };
            tasks[k].lemma_sound(m0, kernel);
            assert forall|f: int| #[trigger] t.frames().contains(f) implies !tasks[k].frames().contains(f) by {
                assert(!m0.used(f));
            }
        }
    }
}

/// A task that gave up its address space holds its stack still; nobody else lost
/// anything.
pub proof fn lemma_finished(u: Seq<Task>, tasks: Seq<Task>, i: int, inner: TaskInner, m0: Memory, mem: Memory, kernel: AddressSpace)
    requires
        m0.wf(),
        kernel.wf(m0),
        scheduler::distinct(tasks),
        kin(tasks),
        backed(tasks, m0, kernel),
        0 <= i < tasks.len(),
        u == scheduler::with_inner(tasks, i, inner),
        inner.kstack == tasks[i].inner.kstack,
        inner.space is None,
        inner.children@ == tasks[i].inner.children@,
        inner.parent == tasks[i].inner.parent,
        mem.gave(m0, tasks[i].user_frames()),
    ensures
        kin(u),
        backed(u, mem, kernel),
        tasks[i].user_frames().disjoint(kernel.support()),
{
    let gone = tasks[i].user_frames();
    assert forall|j: int| 0 <= j < tasks.len() implies (#[trigger] u[j]).pid == tasks[j].pid by {}
    assert forall|j: int| 0 <= j < tasks.len() implies #[trigger] same_kin_at(u, tasks, j) by {}
    assert forall|j: int| 0 <= j < tasks.len() implies #[trigger] exit_queue_ok(u, j) by {
        assert(exit_queue_ok(tasks, j));
    }
    lemma_kin_same(u, tasks);
    lemma_apart_from_kernel(tasks[i], m0, kernel);
    assert forall|f: int| gone.contains(f) implies !kernel.support().contains(f) by {
        assert(tasks[i].frames().contains(f));
    }
    tasks[i].lemma_sound(m0, kernel);
    assert forall|j: int| 0 <= j < u.len() implies (#[trigger] u[j]).sound(mem, kernel) by {
        if j == i {
            let k = inner.kstack;
            k.lemma_valid(m0);
            assert(k.footprint().contains(k.ppn())) by {
                crate::mm::buddy::lemma_sizes();
            }
            assert(mem.owns(k.ppn(), 3));
            k.lemma_still_valid(m0, mem);
        } else {
            assert(u[j] == tasks[j]);
            assert(tasks[i].frames().disjoint(tasks[j].frames()));
            assert forall|f: int| gone.contains(f) implies !tasks[j].frames().contains(f) by {
                assert(tasks[i].frames().contains(f));
            }
            tasks[j].lemma_kept(m0, mem, kernel, gone);
        }
    }
    assert forall|j: int, l: int| 0 <= j < u.len() && 0 <= l < u.len() && j != l implies (
    #[trigger] u[j]).frames().disjoint((#[trigger] u[l]).frames()) by {
        assert(tasks[j].frames().disjoint(tasks[l].frames()));
        assert(u[j].frames().subset_of(tasks[j].frames()));
        assert(u[l].frames().subset_of(tasks[l].frames()));
    }
}

/// Waking and handing over changes nobody's frames.
pub proof fn lemma_departed_holdings(after: Runnable, before: Runnable, pid: u64)
    requires
        scheduler::distinct(before.tasks),
        departed(after, before, pid),
        forall|k: int|
            0 <= k < wake_list(before.tasks, pid).len() ==> scheduler::known(
                before.tasks,
                #[trigger] wake_list(before.tasks, pid)[k],
            ),
    ensures
        same_holdings(after.tasks, before.tasks),
        forall|j: int| 0 <= j < before.tasks.len() ==> (#[trigger] after.tasks[j]).pid == before.tasks[j].pid,
        scheduler::distinct(after.tasks),
        forall|p: u64| #[trigger] scheduler::known(after.tasks, p) == scheduler::known(before.tasks, p),
        forall|p: u64|
            scheduler::known(before.tasks, p) ==> #[trigger] scheduler::index(after.tasks, p)
                == scheduler::index(before.tasks, p),
{
    let list = wake_list(before.tasks, pid);
    let v = scheduler::after_wakes(before, list);
    lemma_wakes_holdings(before, list);
    lemma_alike(after.tasks, v.tasks);
    assert forall|j: int| 0 <= j < before.tasks.len() implies (#[trigger] after.tasks[j]).pid == before.tasks[j].pid by {
        assert(alike_at(after.tasks, v.tasks, j));
        assert(v.tasks[j].pid == before.tasks[j].pid);
    }
}

proof fn lemma_wakes_holdings(before: Runnable, list: Seq<u64>)
    requires
        scheduler::distinct(before.tasks),
        forall|k: int| 0 <= k < list.len() ==> scheduler::known(before.tasks, #[trigger] list[k]),
    ensures
        ({
            let v = scheduler::after_wakes(before, list);
            &&& same_holdings(v.tasks, before.tasks)
            &&& scheduler::distinct(v.tasks)
            &&& forall|j: int| 0 <= j < before.tasks.len() ==> (#[trigger] v.tasks[j]).pid == before.tasks[j].pid
            &&& forall|p: u64| #[trigger] scheduler::known(v.tasks, p) == scheduler::known(before.tasks, p)
            &&& forall|p: u64|
                scheduler::known(before.tasks, p) ==> #[trigger] scheduler::index(v.tasks, p) == scheduler::index(
                    before.tasks,
                    p,
                )
        }),
    decreases list.len(),
{
    if list.len() > 0 {
        let q = list[0];
        let i = scheduler::index(before.tasks, q);
        assert(scheduler::known(before.tasks, list[0]));
        let mid = scheduler::after_wake(before, q);
        scheduler::lemma_with_inner(before.tasks, i, scheduler::woken(before.tasks[i].inner));
        assert forall|k: int| 0 <= k < list.skip(1).len() implies scheduler::known(
            mid.tasks,
            #[trigger] list.skip(1)[k],
        ) by {
            assert(list.skip(1)[k] == list[k + 1]);
        }
        lemma_wakes_holdings(mid, list.skip(1));
    }
}

} // verus!
