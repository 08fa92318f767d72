//! The kernel as a whole: memory, the tasks and their scheduling, the programs it
//! knows, and the console it reads from.
//!
//! Every step that the machine can make the kernel take keeps it in order.

use vstd::prelude::*;
use crate::arch::Hart;
use crate::config::{USER_MAX_ADDR, USER_STACK_TOP};
use crate::drivers::uart::Uart;
use crate::loader;
use crate::mm::buddy;
use crate::mm::frame::Memory;
use crate::mm::space::AddressSpace;
use crate::programs::Program;
use crate::sync::wait;
use crate::task::family;
use crate::task::image;
use crate::task::process::{self, Entries};
use crate::task::scheduler::{self, Cpu, Dispatch, Runnable, Scheduler};
use crate::task::{Pid, Pids, Task, TaskInner, TaskState};
use crate::timer::{self, Timer};

verus! {

/// The state of the kernel.
pub struct Kernel {
    /// Physical memory.
    pub mem: Memory,
    /// The kernel's own address space.
    pub space: AddressSpace,
    /// The tasks, and which of them run.
    pub sched: Scheduler,
    /// Process ids yet to be given.
    pub pids: Pids,
    /// The registers of the hart.
    pub hart: Hart,
    /// Where new tasks start.
    pub entries: Entries,
    /// The programs that `exec` finds.
    pub programs: Vec<Program>,
    /// The console device.
    pub uart: Uart,
}

/// The top of a heap is a page boundary inside the user half.
pub open spec fn heap_ok(t: Task) -> bool {
    t.inner.heap_top % 4096 == 0 && t.inner.heap_top <= USER_MAX_ADDR
}

/// Every heap is in order.
pub open spec fn heaps_ok(tasks: Seq<Task>) -> bool {
    forall|i: int| 0 <= i < tasks.len() ==> heap_ok(#[trigger] tasks[i])
}

/// Is there a task `pid` that has not exited?
pub open spec fn lives(tasks: Seq<Task>, pid: u64) -> bool {
    exists|i: int|
        0 <= i < tasks.len() && (#[trigger] tasks[i]).pid.0 == pid && tasks[i].inner.state != TaskState::Zombie
}

/// Does `satp` hold the token of the address space of task `pid`?
pub open spec fn lodges(tasks: Seq<Task>, pid: u64, satp: u64) -> bool {
    exists|i: int|
        0 <= i < tasks.len() && (#[trigger] tasks[i]).pid.0 == pid && (tasks[i].inner.space matches Some(s) && satp
            == s.spec_token())
}

/// The task whose address space the hart may be in: the one that runs, or, until the
/// idle loop has dealt with it, the one that just switched away.
pub open spec fn guest(cpu: Cpu) -> Option<u64> {
    match cpu.current {
        Some(p) => Some(p),
        None => cpu.previous,
    }
}

/// Task `j` is in the same place with the same root table.
pub open spec fn rooted_at(u: Seq<Task>, tasks: Seq<Task>, j: int) -> bool {
    &&& u[j].pid == tasks[j].pid
    &&& tasks[j].inner.space matches Some(s0) ==> u[j].inner.space matches Some(s) && s.root() == s0.root()
}

/// The hart stays in a space that is there as long as its task keeps its root table.
pub proof fn lemma_grounded(k: Kernel, k0: Kernel)
    requires
        k0.grounded(),
        k.space.root() == k0.space.root(),
        k.hart.satp == k0.hart.satp,
        guest(k.sched.cpu) == guest(k0.sched.cpu),
        k.sched.tasks@.len() >= k0.sched.tasks@.len(),
        forall|j: int| 0 <= j < k0.sched.tasks@.len() ==> #[trigger] rooted_at(k.sched.tasks@, k0.sched.tasks@, j),
    ensures
        k.grounded(),
{
    let tasks = k0.sched.tasks@;
    if k0.hart.satp != k0.space.spec_token() {
        let p = guest(k0.sched.cpu)->0;
        let j = choose|j: int|
            0 <= j < tasks.len() && (#[trigger] tasks[j]).pid.0 == p && (tasks[j].inner.space matches Some(s)
                && k0.hart.satp == s.spec_token());
        assert(rooted_at(k.sched.tasks@, tasks, j));
        assert(k.sched.tasks@[j].pid.0 == p);
    }
}

/// Those who wait for input are tasks that have not exited, and wait once.
pub open spec fn readers_ok(readers: Seq<u64>, tasks: Seq<Task>) -> bool {
    &&& readers.no_duplicates()
    &&& forall|a: int| 0 <= a < readers.len() ==> lives(tasks, #[trigger] readers[a])
}

/// Task `j` is who it was: a heap as it was, a parent as it was or none, and not
/// exited unless it had, or it is `gone`.
pub open spec fn census_at(u: Seq<Task>, tasks: Seq<Task>, gone: Option<u64>, j: int) -> bool {
    &&& u[j].pid == tasks[j].pid
    &&& u[j].inner.heap_top == tasks[j].inner.heap_top
    &&& u[j].inner.parent == tasks[j].inner.parent || u[j].inner.parent is None
    &&& u[j].inner.state == TaskState::Zombie ==> tasks[j].inner.state == TaskState::Zombie || gone == Some(
        tasks[j].pid.0,
    )
}

/// The tasks are those there were, but that `gone` may have exited.
pub open spec fn census(u: Seq<Task>, tasks: Seq<Task>, gone: Option<u64>) -> bool {
    &&& u.len() == tasks.len()
    &&& forall|j: int| 0 <= j < tasks.len() ==> #[trigger] census_at(u, tasks, gone, j)
}

/// What a census keeps.
pub proof fn lemma_census(u: Seq<Task>, tasks: Seq<Task>, gone: Option<u64>, readers: Seq<u64>, next: u64)
    requires
        census(u, tasks, gone),
        heaps_ok(tasks),
        family::numbered(tasks, next),
        readers_ok(readers, tasks),
        gone matches Some(p) ==> !readers.contains(p),
    ensures
        heaps_ok(u),
        family::numbered(u, next),
        readers_ok(readers, u),
{
    assert forall|i: int| 0 <= i < u.len() implies heap_ok(#[trigger] u[i]) by {
        assert(census_at(u, tasks, gone, i));
        assert(heap_ok(tasks[i]));
    }
    assert forall|i: int| 0 <= i < u.len() implies #[trigger] family::numbered_at(u, next, i) by {
        assert(census_at(u, tasks, gone, i));
        assert(family::numbered_at(tasks, next, i));
    }
    assert forall|a: int| 0 <= a < readers.len() implies lives(u, #[trigger] readers[a]) by {
        assert(lives(tasks, readers[a]));
        let i = choose|i: int|
            0 <= i < tasks.len() && (#[trigger] tasks[i]).pid.0 == readers[a] && tasks[i].inner.state
                != TaskState::Zombie;
        assert(census_at(u, tasks, gone, i));
        assert(readers.contains(readers[a]));
        assert(u[i].pid.0 == readers[a]);
    }
}

/// What sweeping leaves: some of the tasks, and all that have not exited.
pub proof fn lemma_swept_some(tasks: Seq<Task>)
    ensures
        forall|i: int|
            0 <= i < family::swept(tasks).len() ==> tasks.contains(#[trigger] family::swept(tasks)[i]),
        forall|j: int|
            0 <= j < tasks.len() && (#[trigger] tasks[j]).inner.state != TaskState::Zombie ==> family::swept(
                tasks,
            ).contains(tasks[j]),
    decreases tasks.len(),
{
    let k = family::first_unowned(tasks, 0);
    if 0 <= k < tasks.len() {
        lemma_unowned(tasks, 0);
        let rest = tasks.remove(k);
        lemma_swept_some(rest);
        assert(family::swept(tasks) == family::swept(rest));
        assert forall|i: int| 0 <= i < family::swept(tasks).len() implies tasks.contains(
            #[trigger] family::swept(tasks)[i],
        ) by {
            assert(rest.contains(family::swept(rest)[i]));
            let j = choose|j: int| 0 <= j < rest.len() && rest[j] == family::swept(rest)[i];
            assert(tasks[if j < k {
                j
            } else {
                j + 1
            }] == rest[j]);
        }
        assert forall|j: int|
            0 <= j < tasks.len() && (#[trigger] tasks[j]).inner.state != TaskState::Zombie implies family::swept(
            tasks,
        ).contains(tasks[j]) by {
            assert(j != k);
            let i = if j < k {
                j
            } else {
                j - 1
            };
            assert(rest[i] == tasks[j]);
        }
    } else {
        assert(family::swept(tasks) == tasks);
    }
}

proof fn lemma_unowned(tasks: Seq<Task>, i: int)
    requires
        0 <= i,
        family::first_unowned(tasks, i) < tasks.len(),
    ensures
        i <= family::first_unowned(tasks, i),
        family::unowned(tasks, family::first_unowned(tasks, i)),
    decreases tasks.len() - i,
{
    if i < tasks.len() && !family::unowned(tasks, i) {
        lemma_unowned(tasks, i + 1);
    }
}

/// What sweeping keeps.
pub proof fn lemma_swept(tasks: Seq<Task>, readers: Seq<u64>, next: u64)
    requires
        heaps_ok(tasks),
        family::numbered(tasks, next),
        readers_ok(readers, tasks),
    ensures
        heaps_ok(family::swept(tasks)),
        family::numbered(family::swept(tasks), next),
        readers_ok(readers, family::swept(tasks)),
        forall|p: u64| lives(tasks, p) ==> #[trigger] lives(family::swept(tasks), p),
        forall|p: u64| #[trigger] scheduler::known(family::swept(tasks), p) ==> scheduler::known(tasks, p),
{
    let u = family::swept(tasks);
    lemma_swept_some(tasks);
    assert forall|i: int| 0 <= i < u.len() implies heap_ok(#[trigger] u[i]) by {
        let j = choose|j: int| 0 <= j < tasks.len() && tasks[j] == u[i];
        assert(heap_ok(tasks[j]));
    }
    assert forall|i: int| 0 <= i < u.len() implies #[trigger] family::numbered_at(u, next, i) by {
        assert(tasks.contains(u[i]));
        let j = choose|j: int| 0 <= j < tasks.len() && tasks[j] == u[i];
        assert(family::numbered_at(tasks, next, j));
    }
    assert forall|p: u64| lives(tasks, p) implies #[trigger] lives(u, p) by {
        let j = choose|j: int|
            0 <= j < tasks.len() && (#[trigger] tasks[j]).pid.0 == p && tasks[j].inner.state != TaskState::Zombie;
        assert(u.contains(tasks[j]));
        let i = choose|i: int| 0 <= i < u.len() && u[i] == tasks[j];
        assert(u[i].pid.0 == p);
    }
    assert forall|p: u64| #[trigger] scheduler::known(u, p) implies scheduler::known(tasks, p) by {
        let i = choose|i: int| 0 <= i < u.len() && (#[trigger] u[i]).pid.0 == p;
        assert(tasks.contains(u[i]));
        let j = choose|j: int| 0 <= j < tasks.len() && tasks[j] == u[i];
        assert(tasks[j].pid.0 == p);
    }
}

/// Task `j` is as it was but for what a wakeup changes.
pub open spec fn stirred_at(u: Seq<Task>, tasks: Seq<Task>, j: int) -> bool {
    &&& u[j] == (Task {
        inner: TaskInner {
            state: u[j].inner.state,
            level: u[j].inner.level,
            ticks: u[j].inner.ticks,
            wakeup_pending: u[j].inner.wakeup_pending,
            ..tasks[j].inner
        },
        ..tasks[j]
    })
    &&& u[j].inner.state == tasks[j].inner.state || (tasks[j].inner.state == TaskState::Blocked
        && u[j].inner.state == TaskState::Ready)
}

/// Wakeups change nothing else.
pub proof fn lemma_stirred(before: Runnable, list: Seq<u64>)
    requires
        scheduler::distinct(before.tasks),
        forall|k: int| 0 <= k < list.len() ==> scheduler::known(before.tasks, #[trigger] list[k]),
    ensures
        scheduler::after_wakes(before, list).tasks.len() == before.tasks.len(),
        forall|j: int|
            0 <= j < before.tasks.len() ==> #[trigger] stirred_at(
                scheduler::after_wakes(before, list).tasks,
                before.tasks,
                j,
            ),
    decreases list.len(),
{
    if list.len() > 0 {
        let p = list[0];
        let i = scheduler::index(before.tasks, p);
        let one = scheduler::after_wake(before, p);
        assert(scheduler::known(before.tasks, list[0]));
        scheduler::lemma_with_inner(before.tasks, i, scheduler::woken(before.tasks[i].inner));
        let rest = list.skip(1);
        assert forall|k: int| 0 <= k < rest.len() implies scheduler::known(one.tasks, #[trigger] rest[k]) by {
            assert(scheduler::known(before.tasks, list[k + 1]));
        }
        lemma_stirred(one, rest);
        let v = scheduler::after_wakes(before, list);
        assert forall|j: int| 0 <= j < before.tasks.len() implies #[trigger] stirred_at(v.tasks, before.tasks, j) by {
            assert(stirred_at(v.tasks, one.tasks, j));
            assert(stirred_at(one.tasks, before.tasks, j));
        }
    }
}

/// What wakeups keep.
pub proof fn lemma_stirred_order(u: Seq<Task>, tasks: Seq<Task>, mem: Memory, kernel: AddressSpace, readers: Seq<u64>, next: u64)
    requires
        scheduler::distinct(tasks),
        family::kin(tasks),
        family::backed(tasks, mem, kernel),
        family::numbered(tasks, next),
        heaps_ok(tasks),
        readers_ok(readers, tasks),
        u.len() == tasks.len(),
        forall|j: int| 0 <= j < tasks.len() ==> #[trigger] stirred_at(u, tasks, j),
    ensures
        family::kin(u),
        family::backed(u, mem, kernel),
        family::numbered(u, next),
        heaps_ok(u),
        readers_ok(readers, u),
{
    assert forall|j: int| 0 <= j < tasks.len() implies #[trigger] census_at(u, tasks, None, j) by {
        assert(stirred_at(u, tasks, j));
    }
    lemma_census(u, tasks, None, readers, next);
    assert forall|j: int| 0 <= j < tasks.len() implies #[trigger] family::same_kin_at(u, tasks, j) by {
        assert(stirred_at(u, tasks, j));
    }
    assert forall|j: int| 0 <= j < tasks.len() implies #[trigger] family::exit_queue_ok(u, j) by {
        assert(stirred_at(u, tasks, j));
        assert(family::exit_queue_ok(tasks, j));
    }
    assert forall|j: int| 0 <= j < tasks.len() implies (#[trigger] u[j]).pid == tasks[j].pid by {
        assert(stirred_at(u, tasks, j));
    }
    family::lemma_kin_same(u, tasks);
    assert forall|j: int| 0 <= j < tasks.len() implies (#[trigger] u[j]).inner.kstack == tasks[j].inner.kstack
        && u[j].inner.space == tasks[j].inner.space by {
        assert(stirred_at(u, tasks, j));
    }
    family::lemma_same_holdings(u, tasks, mem, kernel);
}

/// A task has joined that has a heap in order.
proof fn lemma_joined(u: Seq<Task>, tasks: Seq<Task>, readers: Seq<u64>)
    requires
        heaps_ok(tasks),
        readers_ok(readers, tasks),
        u.len() > 0,
        u == tasks.push(u.last()),
        heap_ok(u.last()),
    ensures
        heaps_ok(u),
        readers_ok(readers, u),
{
    assert forall|j: int| 0 <= j < u.len() implies heap_ok(#[trigger] u[j]) by {
        if j < tasks.len() {
            assert(heap_ok(tasks[j]));
        }
    }
    assert forall|a: int| 0 <= a < readers.len() implies lives(u, #[trigger] readers[a]) by {
        assert(lives(tasks, readers[a]));
        let j = choose|j: int|
            0 <= j < tasks.len() && (#[trigger] tasks[j]).pid.0 == readers[a] && tasks[j].inner.state
                != TaskState::Zombie;
        assert(u[j] == tasks[j]);
    }
}

impl Kernel {
    /// The kernel is in order.
    pub open spec fn wf(&self) -> bool {
        &&& self.mem.wf()
        &&& self.space.wf(self.mem)
        &&& self.space.supervisor(self.mem)
        &&& self.sched.wf()
        &&& family::kin(self.sched.tasks@)
        &&& family::backed(self.sched.tasks@, self.mem, self.space)
        &&& family::numbered(self.sched.tasks@, self.pids.upcoming())
        &&& 0 < self.pids.upcoming()
        &&& heaps_ok(self.sched.tasks@)
        &&& self.uart.rx.wf()
        &&& readers_ok(self.uart.readers@, self.sched.tasks@)
        &&& self.grounded()
    }

    /// The hart runs in an address space that is there: the kernel's, or that of the
    /// task that it runs or just left.
    pub open spec fn grounded(&self) -> bool {
        ||| self.hart.satp == self.space.spec_token()
        ||| (guest(self.sched.cpu) matches Some(p) && lodges(self.sched.tasks@, p, self.hart.satp))
    }

    /// What no step changes.
    pub open spec fn same_board(&self, before: Kernel) -> bool {
        &&& self.space == before.space
        &&& self.entries == before.entries
        &&& self.programs == before.programs
        &&& self.uart.ready == before.uart.ready
    }

    /// A task runs, and it stands in no wait queue.
    pub open spec fn awake(&self) -> bool {
        &&& self.sched.cpu.current is Some
        &&& !self.uart.readers@.contains(self.sched.cpu.current->0)
        &&& self.sched.running().child_exit@ == Seq::<u64>::empty()
    }

    /// The task that runs.
    pub open spec fn caller(&self) -> Task {
        self.sched.running()
    }

    /// A kernel without tasks, on a hart that runs in `space`.
    pub fn new(mem: Memory, space: AddressSpace, hart: Hart, entries: Entries, programs: Vec<Program>) -> (r: Kernel)
        requires
            mem.wf(),
            space.wf(mem),
            space.supervisor(mem),
            hart.satp == space.spec_token(),
        ensures
            r.wf(),
            r.mem == mem,
            r.space == space,
            r.hart == hart,
            r.entries == entries,
            r.programs == programs,
            r.sched.tasks@ == Seq::<Task>::empty(),
            r.sched.cpu.current is None,
            r.sched.queue.created() == 0,
            r.pids.upcoming() == family::INIT,
            r.uart.rx@ == Seq::<u8>::empty(),
            r.uart.readers@ == Seq::<u64>::empty(),
    {
        Kernel {
            mem,
            space,
            sched: Scheduler::new(),
            pids: Pids::new(),
            hart,
            entries,
            programs,
            uart: Uart::new(),
        }
    }

    /// Create a kernel task and make it runnable. `None` if there is no run of frames
    /// left for its stack.
    pub fn spawn(&mut self, name: &[u8], entry: u64) -> (r: Option<Pid>)
        requires
            old(self).wf(),
            old(self).pids.upcoming() < u64::MAX,
            old(self).sched.queue.created() < u64::MAX,
        ensures
            final(self).wf(),
            final(self).same_board(*old(self)),
            final(self).hart == old(self).hart,
            final(self).uart == old(self).uart,
            r is Some <==> buddy::donor(old(self).mem.lists(), 3) <= 10,
            match r {
                Some(pid) => {
                    let t = final(self).sched.tasks@.last();
                    &&& pid.0 == old(self).pids.upcoming()
                    &&& t.pid == pid
                    &&& t.is_new_kernel(name@, entry, old(self).entries.trampoline)
                    &&& scheduler::joined(final(self).sched, old(self).sched)
                    &&& final(self).mem.took(old(self).mem, t.frames())
                    &&& final(self).pids.upcoming() == old(self).pids.upcoming() + 1
                },
                None => *final(self) == *old(self),
            },
    {
        let ghost k0 = *self;
        let r = scheduler::spawn(
            &mut self.sched,
            &mut self.mem,
            &self.space,
            &mut self.pids,
            name,
            entry,
            self.entries.trampoline,
        );
        proof {
            if r is Some {
                lemma_grounded(*self, k0);
                lemma_joined(self.sched.tasks@, k0.sched.tasks@, self.uart.readers@);
            }
        }
        r
    }

    /// Create a process that runs `image` with arguments `args`, and make it runnable.
    /// `None` if the image is bad or memory runs out, in which case nothing has changed.
    pub fn launch(&mut self, name: &[u8], image: &[u8], args: &Vec<Vec<u8>>) -> (r: Option<Pid>)
        requires
            old(self).wf(),
            old(self).pids.upcoming() < u64::MAX,
            old(self).sched.queue.created() < u64::MAX,
            image::args_room(args@) <= USER_STACK_TOP,
        ensures
            final(self).wf(),
            final(self).same_board(*old(self)),
            final(self).hart == old(self).hart,
            final(self).uart == old(self).uart,
            match image::exec_result(image@, args@, old(self).mem.free()) {
                Ok(o) => {
                    &&& r is Some <==> process::stack_left(old(self).mem, old(self).mem.free() - o.free)
                    &&& r matches Some(pid) ==> {
                        let t = final(self).sched.tasks@.last();
                        &&& pid.0 == old(self).pids.upcoming()
                        &&& t.pid == pid
                        &&& t.name@ == name@
                        &&& t.inner.parent is None
                        &&& process::newborn(
                            t,
                            final(self).mem,
                            old(self).space,
                            old(self).hart,
                            old(self).entries,
                            image@,
                            args@,
                            o,
                        )
                        &&& scheduler::joined(final(self).sched, old(self).sched)
                        &&& final(self).mem.took(old(self).mem, t.frames())
                        &&& final(self).pids.upcoming() == old(self).pids.upcoming() + 1
                    }
                },
                Err(_) => r is None,
            },
            r is None ==> {
                &&& final(self).sched == old(self).sched
                &&& final(self).pids == old(self).pids
                &&& final(self).mem.took(old(self).mem, Set::empty())
            },
    {
        let ghost k0 = *self;
        let made = Task::new_user(
            &mut self.mem,
            &mut self.pids,
            &self.space,
            &self.hart,
            &self.entries,
            name,
            image,
            args,
        );
        match made {
            None => {
                proof {
                    lemma_grounded(*self, k0);
                    family::lemma_backed_kept(self.sched.tasks@, k0.mem, self.mem, self.space, Set::empty());
                }
                None
            },
            Some(task) => {
                let pid: Pid = task.pid;
                let ghost t = task;
                let ghost tasks = k0.sched.tasks@;
                proof {
                    family::lemma_numbered(tasks, pid.0);
                    loader::lemma_brk_page(image@, k0.mem.free());
                }
                scheduler::enroll(&mut self.sched, task);
                proof {
                    let u = self.sched.tasks@;
                    family::lemma_kin_join(tasks, t, pid.0);
                    family::lemma_backed_join(tasks, t, k0.mem, self.mem, self.space);
                    assert(u.last() == t);
                    lemma_grounded(*self, k0);
                    lemma_joined(u, tasks, self.uart.readers@);
                    assert forall|j: int| 0 <= j < u.len() implies #[trigger] family::numbered_at(
                        u,
                        self.pids.upcoming(),
                        j,
                    ) by {
                        if j < tasks.len() {
                            assert(family::numbered_at(tasks, pid.0, j));
                        }
                    }
                }
                Some(pid)
            },
        }
    }

    /// The running task has come back to a call in which it was parked: it leaves
    /// the queues that it waited in, and the call is to be made again.
    pub fn resume(&mut self)
        requires
            old(self).wf(),
            old(self).sched.cpu.current is Some,
        ensures
            final(self).wf(),
            final(self).awake(),
            final(self).same_board(*old(self)),
            final(self).mem == old(self).mem,
            final(self).pids == old(self).pids,
            final(self).hart == old(self).hart,
            final(self).uart.rx == old(self).uart.rx,
            final(self).uart.readers@ == wait::without(old(self).uart.readers@, old(self).sched.cpu.current->0),
            final(self).sched.queue == old(self).sched.queue,
            final(self).sched.cpu == old(self).sched.cpu,
            ({
                let i = scheduler::index(old(self).sched.tasks@, old(self).sched.cpu.current->0);
                &&& final(self).sched.tasks@ == old(self).sched.tasks@.update(i, final(self).caller())
                &&& final(self).caller() == (Task { child_exit: final(self).caller().child_exit, ..old(self).caller() })
            }),
    {
        let ghost k0 = *self;
        let pid: u64 = match scheduler::current(&self.sched) {
            Some(pid) => pid,
            None => {
                return ;
            },
        };
        let i: usize = match self.sched.find(pid) {
            Some(i) => i,
            None => {
                assert(false);
                return ;
            },
        };
        self.uart.readers.leave(pid);
        self.sched.tasks[i].child_exit.leave(pid);
        proof {
            let u = self.sched.tasks@;
            let tasks = k0.sched.tasks@;
            wait::lemma_left(k0.uart.readers@, pid);
            assert(family::exit_queue_ok(tasks, i as int));
            wait::lemma_left(tasks[i as int].child_exit@, pid);
            assert(u[i as int].child_exit@ =~= Seq::<u64>::empty()) by {
                let s = tasks[i as int].child_exit@;
                let w = u[i as int].child_exit@;
                if w.len() > 0 {
                    assert(w.contains(w[0]));
                    assert(s.contains(w[0]));
                    assert(!w.contains(pid));
                }
            }
            assert forall|j: int| 0 <= j < tasks.len() implies #[trigger] family::alike_at(u, tasks, j) by {}
            family::lemma_alike_wf(self.sched, k0.sched);
            family::lemma_alike(u, tasks);
            family::lemma_same_holdings(u, tasks, self.mem, self.space);
            assert forall|j: int| 0 <= j < tasks.len() implies #[trigger] family::exit_queue_ok(u, j) by {
                assert(family::exit_queue_ok(tasks, j));
            }
            assert forall|j: int| 0 <= j < tasks.len() implies #[trigger] family::same_kin_at(u, tasks, j) by {}
            family::lemma_kin_same(u, tasks);
            assert forall|j: int| 0 <= j < tasks.len() implies #[trigger] census_at(u, tasks, None, j) by {}
            lemma_census(u, tasks, None, k0.uart.readers@, self.pids.upcoming());
            assert(readers_ok(self.uart.readers@, u)) by {
                let r = self.uart.readers@;
                assert forall|a: int| 0 <= a < r.len() implies lives(u, #[trigger] r[a]) by {
                    assert(r.contains(r[a]));
                    assert(k0.uart.readers@.contains(r[a]));
                    let b = choose|b: int| 0 <= b < k0.uart.readers@.len() && k0.uart.readers@[b] == r[a];
                    assert(lives(u, k0.uart.readers@[b]));
                }
            }
            assert(self.caller() == u[i as int]);
            lemma_grounded(*self, k0);
        }
    }

    /// Pick what the hart runs next, once it has switched to the idle context, and move
    /// to the address space of that: the task's, or the kernel's to wait in.
    pub fn schedule(&mut self) -> (r: Dispatch)
        requires
            old(self).wf(),
            old(self).sched.cpu.current is None,
        ensures
            final(self).wf(),
            final(self).same_board(*old(self)),
            final(self).pids == old(self).pids,
            final(self).hart == (Hart { satp: final(self).hart.satp, ..old(self).hart }),
            final(self).hart.satp == (match r {
                Dispatch::Task(_, _) => process::home(final(self).caller(), old(self).space),
                Dispatch::Idle => old(self).space.spec_token(),
            }),
            final(self).uart == old(self).uart,
            scheduler::picked(final(self).sched, old(self).sched, r),
            final(self).sched.cpu.previous is None,
            final(self).sched.cpu.idle == old(self).sched.cpu.idle,
            final(self).sched.queue.created() == old(self).sched.queue.created(),
            final(self).mem.gave(
                old(self).mem,
                family::holdings(old(self).sched.tasks@).difference(family::holdings(final(self).sched.tasks@)),
            ),
    {
        let ghost k0 = *self;
        let r = scheduler::run(&mut self.sched, &mut self.mem, &self.space);
        proof {
            let v = scheduler::settled(k0.sched);
            let u = self.sched.tasks@;
            let readers = self.uart.readers@;
            let next = self.pids.upcoming();
            lemma_swept(k0.sched.tasks@, readers, next);
            assert(heaps_ok(v.tasks) && family::numbered(v.tasks, next) && readers_ok(readers, v.tasks));
            assert forall|j: int| 0 <= j < v.tasks.len() implies #[trigger] census_at(u, v.tasks, None, j) by {}
            lemma_census(u, v.tasks, None, readers, next);
        }
        self.hart.satp = match scheduler::current(&self.sched) {
            Some(pid) => match self.sched.find(pid) {
                Some(i) => {
                    assert(self.sched.tasks@[i as int].sound(self.mem, self.space));
                    process::space_token(&self.sched.tasks[i], &self.mem, &self.space)
                },
                None => {
                    assert(false);
                    0
                },
            },
            None => self.space.token(&self.mem),
        };
        r
    }

    /// The interrupt handler has queued `queued` bytes of input: wake those who wait
    /// for it, unless the interrupt turned out to be spurious.
    pub fn on_input(&mut self, queued: u64)
        requires
            old(self).wf(),
            old(self).sched.cpu.previous is None,
        ensures
            final(self).wf(),
            final(self).same_board(*old(self)),
            final(self).mem == old(self).mem,
            final(self).pids == old(self).pids,
            final(self).hart == old(self).hart,
            final(self).uart.rx == old(self).uart.rx,
            final(self).sched.cpu == old(self).sched.cpu,
            final(self).sched.queue.created() == old(self).sched.queue.created(),
            if queued > 0 {
                &&& final(self).uart.readers@ == Seq::<u64>::empty()
                &&& final(self).sched.view() == scheduler::after_wakes(
                    old(self).sched.view(),
                    old(self).uart.readers@,
                )
            } else {
                &&& final(self).uart == old(self).uart
                &&& final(self).sched == old(self).sched
            },
    {
        let ghost k0 = *self;
        if queued > 0 {
            proof {
                let r = self.uart.readers@;
                assert forall|a: int| 0 <= a < r.len() implies scheduler::known(self.sched.tasks@, #[trigger] r[a]) by {
                    assert(lives(self.sched.tasks@, r[a]));
                }
                lemma_stirred(self.sched.view(), r);
            }
            self.uart.readers.wake_all(&mut self.sched);
            proof {
                assert forall|j: int| 0 <= j < k0.sched.tasks@.len() implies #[trigger] rooted_at(
                    self.sched.tasks@,
                    k0.sched.tasks@,
                    j,
                ) by {
                    assert(stirred_at(self.sched.tasks@, k0.sched.tasks@, j));
                }
                lemma_grounded(*self, k0);
                lemma_stirred_order(
                    self.sched.tasks@,
                    k0.sched.tasks@,
                    self.mem,
                    self.space,
                    Seq::empty(),
                    self.pids.upcoming(),
                );
            }
        }
    }

    /// `self` is `k0` with a quantum accounted against the running task, if there is
    /// one.
    pub open spec fn quantum_spent(&self, k0: Kernel) -> bool {
        &&& self.same_board(k0)
        &&& self.mem == k0.mem
        &&& self.pids == k0.pids
        &&& self.hart == k0.hart
        &&& self.uart == k0.uart
        &&& self.sched.queue == k0.sched.queue
        &&& self.sched.cpu == k0.sched.cpu
        &&& self.sched.tasks@ == (match k0.sched.cpu.current {
            Some(pid) => {
                let i = scheduler::index(k0.sched.tasks@, pid);
                scheduler::with_inner(k0.sched.tasks@, i, scheduler::ticked(k0.sched.tasks@[i].inner))
            },
            None => k0.sched.tasks@,
        })
    }

    /// A timer interrupt, where `now` is the current time: count it, account the
    /// quantum against the running task, and advance the deadline. Returns the deadline
    /// to ask of the firmware.
    pub fn on_tick(&mut self, clock: &mut Timer, now: u64) -> (next: u64)
        requires
            old(self).wf(),
            old(clock).ticks < u64::MAX,
            old(clock).next_deadline + timer::quantum() <= u64::MAX,
            now + timer::quantum() <= u64::MAX,
        ensures
            final(self).wf(),
            final(self).quantum_spent(*old(self)),
            next == timer::next_deadline(old(clock).next_deadline as int, now as int),
            next > now,
            *final(clock) == (Timer { ticks: (old(clock).ticks + 1) as u64, next_deadline: next }),
    {
        proof {
            timer::law_deadline_is_ahead(clock.next_deadline as int, now as int);
        }
        self.tick();
        timer::on_tick(clock, now)
    }

    /// A scheduling quantum has expired.
    pub fn tick(&mut self)
        requires
            old(self).wf(),
        ensures
            final(self).wf(),
            final(self).quantum_spent(*old(self)),
    {
        let ghost k0 = *self;
        scheduler::on_timer_tick(&mut self.sched);
        proof {
            let u = self.sched.tasks@;
            let tasks = k0.sched.tasks@;
            if k0.sched.cpu.current is Some {
                let i = scheduler::index(tasks, k0.sched.cpu.current->0);
                family::lemma_rescheduled(
                    u,
                    tasks,
                    i,
                    scheduler::ticked(tasks[i].inner),
                    self.mem,
                    self.space,
                );
                assert forall|j: int| 0 <= j < tasks.len() implies #[trigger] census_at(u, tasks, None, j) by {}
                lemma_census(u, tasks, None, self.uart.readers@, self.pids.upcoming());
                lemma_grounded(*self, k0);
            }
        }
    }
}

} // verus!
