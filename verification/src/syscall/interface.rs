//! What each system call is for, by its number and its registers.

use vstd::prelude::*;
use crate::bits;
use crate::config::{KERNEL_STACK_SIZE, USER_STACK_TOP};
use crate::kernel::{self, Kernel};
use crate::loader;
use crate::mm::addr;
use crate::mm::buddy;
use crate::mm::duplicate;
use crate::mm::frame::{self, Memory};
use crate::mm::page_table;
use crate::mm::space::{self, AddressSpace};
use crate::programs;
use crate::sync::wait;
use crate::syscall::laws;
use crate::syscall::{self, Outcome};
use crate::task::args;
use crate::task::family;
use crate::task::image;
use crate::task::laws as scheduling;
use crate::task::process;
use crate::task::queue;
use crate::task::scheduler;
use crate::task::{Task, TaskContext, TaskState};
use crate::trap::TrapFrame;

verus! {

/// Has task `pid` exited?
pub open spec fn is_zombie(tasks: Seq<Task>, pid: u64) -> bool {
    exists|i: int|
        0 <= i < tasks.len() && (#[trigger] tasks[i]).pid.0 == pid && tasks[i].inner.state == TaskState::Zombie
}

/// A zombie is found by its number.
proof fn lemma_zombie(tasks: Seq<Task>, pid: u64)
    requires
        scheduler::distinct(tasks),
        scheduler::known(tasks, pid),
    ensures
        is_zombie(tasks, pid) == (tasks[scheduler::index(tasks, pid)].inner.state == TaskState::Zombie),
{
    let j = scheduler::index(tasks, pid);
    assert(tasks[j].pid.0 == pid);
    if is_zombie(tasks, pid) {
        let i = choose|i: int|
            0 <= i < tasks.len() && (#[trigger] tasks[i]).pid.0 == pid && tasks[i].inner.state == TaskState::Zombie;
        scheduler::lemma_index(tasks, i);
    }
}

/// What the search for a child that has exited comes to.
proof fn lemma_first_exited(tasks: Seq<Task>, kids: Seq<u64>, want: i64, a: int)
    requires
        0 <= a <= kids.len(),
    ensures
        ({
            let z = syscall::first_exited(tasks, kids, want, a);
            &&& a <= z <= kids.len()
            &&& z < kids.len() ==> syscall::wanted(want, kids[z]) && tasks[scheduler::index(
                tasks,
                kids[z],
            )].inner.state == TaskState::Zombie
            &&& forall|b: int|
                a <= b < z && syscall::wanted(want, #[trigger] kids[b]) ==> tasks[scheduler::index(
                    tasks,
                    kids[b],
                )].inner.state != TaskState::Zombie
        }),
    decreases kids.len() - a,
{
    if a < kids.len() {
        if !(syscall::wanted(want, kids[a]) && tasks[scheduler::index(tasks, kids[a])].inner.state
            == TaskState::Zombie) {
            lemma_first_exited(tasks, kids, want, a + 1);
        }
    }
}

/// A wait (call 8) collects whom it asks for. What it returns is the number of a child of
/// the caller that had exited, and if it asked for a particular one it is that one. A
/// caller that asks for what is not its child is told so. As long as a child that would
/// do has exited the call does not block, and as long as none has it does not return a
/// number.
pub proof fn law_wait_collects_whom_it_asks_for(
    k: Kernel,
    k0: Kernel,
    frame: TrapFrame,
    now: u64,
    ctx: TaskContext,
    r: Outcome,
)
    requires
        k0.wf(),
        k0.sched.cpu.current is Some,
        frame.x@[17] == 8,
        syscall::call_done(k, k0, frame, now, ctx, r),
    ensures
        ({
            let want = frame.x@[10] as i64;
            let kids = k0.caller().inner.children@;
            let tasks = k0.sched.tasks@;
            let fits = |c: u64| want < 0 || c as i64 == want;
            let done = exists|z: int| 0 <= z < kids.len() && fits(#[trigger] kids[z]) && is_zombie(tasks, kids[z]);
            &&& r matches Outcome::Return(v) ==> v >= 0 ==> {
                &&& want >= 0 ==> v == want
                &&& exists|z: int|
                    {
                        &&& 0 <= z < kids.len()
                        &&& #[trigger] kids[z] as i64 == v
                        &&& is_zombie(tasks, kids[z])
                        &&& !scheduler::known(k.sched.tasks@, kids[z])
                        &&& forall|b: int| 0 <= b < z && fits(#[trigger] kids[b]) ==> !is_zombie(tasks, kids[b])
                    }
            }
            &&& (forall|z: int| 0 <= z < kids.len() ==> !fits(#[trigger] kids[z])) ==> r == Outcome::Return(-5i64)
            &&& done ==> r is Return
            &&& !done && (exists|z: int| 0 <= z < kids.len() && fits(#[trigger] kids[z])) ==> r is Parked || r is Overflow
        }),
{
    let want = frame.x@[10] as i64;
    let kids = k0.caller().inner.children@;
    let tasks = k0.sched.tasks@;
    let i = scheduler::index(tasks, k0.sched.cpu.current->0);
    lemma_first_exited(tasks, kids, want, 0);
    let z = syscall::first_exited(tasks, kids, want, 0);
    assert forall|b: int| 0 <= b < kids.len() implies scheduler::known(tasks, #[trigger] kids[b]) by {
        assert(family::child_ok(tasks, i, b));
    }
    assert forall|b: int| 0 <= b < kids.len() implies is_zombie(tasks, #[trigger] kids[b]) == (tasks[scheduler::index(
        tasks,
        kids[b],
    )].inner.state == TaskState::Zombie) by {
        lemma_zombie(tasks, kids[b]);
    }
    let fits = |c: u64| want < 0 || c as i64 == want;
    if z < kids.len() {
        assert(fits(kids[z]) && is_zombie(tasks, kids[z]));
    } else {
        assert forall|b: int| 0 <= b < kids.len() && fits(#[trigger] kids[b]) implies !is_zombie(tasks, kids[b]) by {
            assert(syscall::wanted(want, kids[b]));
        }
    }
}

/// A wait takes nobody else out of the task table: a task other than the one whose number
/// the call returns stays as long as it has not exited, or somebody that has not exited
/// may still wait for it.
pub proof fn law_wait_takes_nobody_else(
    k: Kernel,
    k0: Kernel,
    frame: TrapFrame,
    now: u64,
    ctx: TaskContext,
    r: Outcome,
    j: int,
)
    requires
        k0.wf(),
        k0.sched.cpu.current is Some,
        frame.x@[17] == 8,
        syscall::call_done(k, k0, frame, now, ctx, r),
        0 <= j < k0.sched.tasks@.len(),
        r != Outcome::Return(k0.sched.tasks@[j].pid.0 as i64),
        k0.sched.tasks@[j].inner.state != TaskState::Zombie || exists|i: int, a: int|
            {
                &&& 0 <= i < k0.sched.tasks@.len()
                &&& 0 <= a < k0.sched.tasks@[i].inner.children@.len()
                &&& k0.sched.tasks@[i].inner.state != TaskState::Zombie
                &&& #[trigger] k0.sched.tasks@[i].inner.children@[a] == k0.sched.tasks@[j].pid.0
            },
    ensures
        scheduler::known(k.sched.tasks@, k0.sched.tasks@[j].pid.0),
{
    let want = frame.x@[10] as i64;
    let ptr = frame.x@[11];
    let tasks = k0.sched.tasks@;
    let u = k.sched.tasks@;
    let me = scheduler::index(tasks, k0.sched.cpu.current->0);
    let kids = k0.caller().inner.children@;
    let pid = tasks[j].pid.0;
    lemma_first_exited(tasks, kids, want, 0);
    let z = syscall::first_exited(tasks, kids, want, 0);
    scheduler::lemma_index(tasks, j);
    if z < kids.len() && syscall::can_be_told(k0.caller(), k0.mem, ptr) {
        let c = kids[z];
        assert(family::child_ok(tasks, me, z));
        let mid = choose|mid: Seq<Task>| #[trigger] family::disowned(mid, tasks, me, z) && u == family::swept(mid);
        assert(family::disowned_at(mid, tasks, me, z, j));
        kernel::lemma_swept_some(mid);
        if tasks[j].inner.state == TaskState::Zombie {
            let (i, a) = choose|i: int, a: int|
                {
                    &&& 0 <= i < tasks.len()
                    &&& 0 <= a < tasks[i].inner.children@.len()
                    &&& tasks[i].inner.state != TaskState::Zombie
                    &&& #[trigger] tasks[i].inner.children@[a] == pid
                };
            assert(family::disowned_at(mid, tasks, me, z, i));
            let b = if i == me && a > z {
                a - 1
            } else {
                a
            };
            if i == me {
                assert(a != z);
            }
            assert(mid[i].inner.children@[b] == pid);
            scheduling::lemma_sweep_keeps_listed(mid, i, b, j);
        }
        let l = choose|l: int| 0 <= l < u.len() && u[l] == mid[j];
        assert(u[l].pid.0 == pid);
    } else if k.sched != k0.sched {
        let s1 = choose|s1: scheduler::Scheduler|
            #[trigger] syscall::awaits_child(s1, k0.sched) && wait::parks(
                k.sched,
                s1,
                k0.mem,
                k.hart,
                k0.hart,
                ctx,
                syscall::step_of(r),
            );
        assert(s1.tasks@[j].pid.0 == pid);
        assert(u[j].pid.0 == pid);
    }
}

/// Does word `i` of the vector at `argv` point at a string that `exec` can read?
pub open spec fn names_string(s: AddressSpace, mem: Memory, argv: int, i: int) -> bool {
    &&& s.reach(mem, argv + 8 * i, 8, 2) == 8
    &&& s.uword(mem, argv + 8 * i) != 0
    &&& s.cstr(mem, s.uword(mem, argv + 8 * i), 256) is Some
}

/// The string that word `i` of the vector at `argv` points at.
pub open spec fn string_of(s: AddressSpace, mem: Memory, argv: int, i: int) -> Seq<u8> {
    s.cstr(mem, s.uword(mem, argv + 8 * i), 256)->0
}

/// The vector at `argv` has `n` strings: so many words point at one, and then comes a
/// null pointer, or there is no room for more.
pub open spec fn has_strings(s: AddressSpace, mem: Memory, argv: int, n: int) -> bool {
    &&& 0 <= n <= 32
    &&& forall|i: int| 0 <= i < n ==> #[trigger] names_string(s, mem, argv, i)
    &&& n == 32 || (s.reach(mem, argv + 8 * n, 8, 2) == 8 && s.uword(mem, argv + 8 * n) == 0)
}

/// The arguments of `exec` are all the strings of the vector that it is given, in order.
pub proof fn law_exec_reads_every_argument(s: AddressSpace, mem: Memory, argv: u64, n: int)
    requires
        argv != 0,
        has_strings(s, mem, argv as int, n),
    ensures
        syscall::exec_args(s, mem, argv) matches Some(a) && a.len() == n && forall|i: int|
            0 <= i < n ==> #[trigger] a[i] == string_of(s, mem, argv as int, i),
{
    lemma_args_from(s, mem, argv as int, n, 0);
}

proof fn lemma_args_from(s: AddressSpace, mem: Memory, argv: int, n: int, i: int)
    requires
        has_strings(s, mem, argv, n),
        0 <= i <= n,
    ensures
        syscall::user_args(s, mem, argv, i) matches Some(a) && a.len() == n - i && forall|j: int|
            0 <= j < n - i ==> #[trigger] a[j] == string_of(s, mem, argv, i + j),
    decreases n - i,
{
    if i < n {
        assert(names_string(s, mem, argv, i));
        lemma_args_from(s, mem, argv, n, i + 1);
        let rest = syscall::user_args(s, mem, argv, i + 1)->0;
        let a = syscall::user_args(s, mem, argv, i)->0;
        assert(a == seq![string_of(s, mem, argv, i)] + rest);
        assert forall|j: int| 0 <= j < n - i implies #[trigger] a[j] == string_of(s, mem, argv, i + j) by {
            if j > 0 {
                assert(a[j] == rest[j - 1]);
                assert(rest[j - 1] == string_of(s, mem, argv, (i + 1) + (j - 1)));
            }
        }
    }
}

/// A word or a string among the arguments that cannot be read fails the call.
pub proof fn law_exec_refuses_a_bad_argument(s: AddressSpace, mem: Memory, argv: u64, n: int)
    requires
        argv != 0,
        0 <= n < 32,
        forall|i: int| 0 <= i < n ==> #[trigger] names_string(s, mem, argv as int, i),
        s.reach(mem, argv + 8 * n, 8, 2) != 8 || (s.uword(mem, argv + 8 * n) != 0 && s.cstr(
            mem,
            s.uword(mem, argv + 8 * n),
            256,
        ) is None),
    ensures
        syscall::exec_args(s, mem, argv) is None,
{
    lemma_no_args_from(s, mem, argv as int, n, 0);
}

proof fn lemma_no_args_from(s: AddressSpace, mem: Memory, argv: int, n: int, i: int)
    requires
        0 <= i <= n < 32,
        forall|j: int| 0 <= j < n ==> #[trigger] names_string(s, mem, argv, j),
        s.reach(mem, argv + 8 * n, 8, 2) != 8 || (s.uword(mem, argv + 8 * n) != 0 && s.cstr(
            mem,
            s.uword(mem, argv + 8 * n),
            256,
        ) is None),
    ensures
        syscall::user_args(s, mem, argv, i) is None,
    decreases n - i,
{
    if i < n {
        assert(names_string(s, mem, argv, i));
        lemma_no_args_from(s, mem, argv, n, i + 1);
    }
}

/// A string of user memory has no NUL in it, and fits the limit.
proof fn lemma_no_nul(s: AddressSpace, mem: Memory, va: int, max: int)
    ensures
        s.cstr(mem, va, max) matches Some(c) ==> c.len() < max && forall|k: int| 0 <= k < c.len() ==> c[k] != 0,
    decreases max,
{
    if max > 0 && s.access(mem, va, 2) && s.ubyte(mem, va) != 0 {
        lemma_no_nul(s, mem, va + 1, max - 1);
        if let Some(rest) = s.cstr(mem, va + 1, max - 1) {
            let c = seq![s.ubyte(mem, va)] + rest;
            assert forall|k: int| 0 <= k < c.len() implies c[k] != 0 by {
                if k > 0 {
                    assert(c[k] == rest[k - 1]);
                }
            }
        }
    }
}

/// Room that short arguments take.
proof fn lemma_room(a: Seq<Vec<u8>>, n: int)
    requires
        0 <= n <= a.len(),
        forall|i: int| 0 <= i < a.len() ==> (#[trigger] a[i])@.len() < 256,
    ensures
        0 <= args::room(a, n) <= n * 264,
    decreases n,
{
    if n > 0 {
        lemma_room(a, n - 1);
        assert(a[n - 1]@.len() < 256);
    }
}

/// A program that `exec` (call 7) starts gets the arguments that the caller gave: their
/// number in `a0`, and behind `a1` a vector whose word `i` points at the string that the
/// caller's did, with a null pointer at its end.
#[verifier::rlimit(40)]
pub proof fn law_exec_hands_its_arguments_over(
    k: Kernel,
    k0: Kernel,
    frame: TrapFrame,
    now: u64,
    ctx: TaskContext,
    n: int,
    i: int,
)
    requires
        k0.wf(),
        k.wf(),
        k0.sched.cpu.current is Some,
        frame.x@[17] == 7,
        syscall::call_done(k, k0, frame, now, ctx, Outcome::Started),
        k0.caller().inner.space is Some,
        frame.x@[11] != 0,
        has_strings(k0.caller().inner.space->0, k0.mem, frame.x@[11] as int, n),
        0 <= i < n,
    ensures
        k.caller().pid == k0.caller().pid,
        k.caller().inner.frame is Some,
        k.caller().inner.space is Some,
        ({
            let s0 = k0.caller().inner.space->0;
            let s = k.caller().inner.space->0;
            let f = k.caller().inner.frame->0;
            &&& f.x@[10] == n
            &&& f.x@[2] % 16 == 0
            &&& s.cstr(k.mem, s.uword(k.mem, f.x@[11] + 8 * i), 256) == Some(
                string_of(s0, k0.mem, frame.x@[11] as int, i),
            )
            &&& s.uword(k.mem, f.x@[11] + 8 * n) == 0
        }),
{
    let s0 = k0.caller().inner.space->0;
    let argv = frame.x@[11];
    law_exec_reads_every_argument(s0, k0.mem, argv, n);
    let list = syscall::exec_args(s0, k0.mem, argv)->0;
    let path = s0.cstr(k0.mem, frame.x@[10] as int, syscall::MAX_STR as int)->0;
    let image = programs::found(k0.programs@, path)->0;
    let a = choose|a: Seq<Vec<u8>>|
        syscall::strings_of(a) == list && #[trigger] syscall::execs(k, k0, path, image, a, 0);
    let o = image::exec_result(image, a, k0.mem.free())->Ok_0;
    let t = k.caller();
    let s = t.inner.space->0;
    let f = t.inner.frame->0;
    assert(syscall::strings_of(a).len() == n);
    assert forall|j: int| 0 <= j < a.len() implies (#[trigger] a[j])@.len() < 256 && a[j]@ == string_of(
        s0,
        k0.mem,
        argv as int,
        j,
    ) && forall|b: int| 0 <= b < a[j]@.len() ==> a[j]@[b] != 0 by {
        assert(syscall::strings_of(a)[j] == a[j]@);
        assert(list[j] == string_of(s0, k0.mem, argv as int, j));
        assert(names_string(s0, k0.mem, argv as int, j));
        lemma_no_nul(s0, k0.mem, s0.uword(k0.mem, argv + 8 * j), 256);
    }
    lemma_room(a, n);
    args::lemma_argv_at(a, USER_STACK_TOP as int);
    let me = scheduler::index(k0.sched.tasks@, k0.sched.cpu.current->0);
    assert(k.sched.tasks@[me] == t);
    assert(t.sound(k.mem, k.space));
    assert forall|x: int|
        args::argv_at(a, USER_STACK_TOP as int) <= x < USER_STACK_TOP && #[trigger] s.access(k.mem, x, 4) implies s.access(
        k.mem,
        x,
        2,
    ) && s.access(k.mem, x, 0) by {
        image::law_stack_is_for_data(s, k.mem, x);
    }
    process::law_program_finds_its_arguments(
        s,
        k.mem,
        f,
        o,
        image,
        a,
        k0.caller().inner.kstack.low() + KERNEL_STACK_SIZE,
        k0.space,
        k0.hart,
        i,
        256,
    );
}

/// Can each of the `len` bytes at `ptr` be got at with the permissions `need`?
pub open spec fn all_within_reach(s: AddressSpace, mem: Memory, ptr: int, len: int, need: u64) -> bool {
    forall|x: int| ptr <= x < ptr + len ==> #[trigger] s.access(mem, x, need)
}

proof fn lemma_all_within_reach(s: AddressSpace, mem: Memory, ptr: int, len: int, need: u64)
    requires
        0 <= len,
    ensures
        s.reach(mem, ptr, len, need) == len <==> all_within_reach(s, mem, ptr, len, need),
{
    s.lemma_reach(mem, ptr, len, need);
    let n = s.reach(mem, ptr, len, need);
    if n == len {
        assert forall|x: int| ptr <= x < ptr + len implies #[trigger] s.access(mem, x, need) by {
            assert(s.access(mem, ptr + (x - ptr), need));
        }
    } else {
        assert(!s.access(mem, ptr + n, need));
    }
}

/// A write (call 1) to either output hands on exactly the bytes that the caller names, if
/// it can read them all and they are no more than 64 KiB below the end of user memory. It
/// changes nothing.
pub proof fn law_write_sends_what_is_there(
    k: Kernel,
    k0: Kernel,
    frame: TrapFrame,
    now: u64,
    ctx: TaskContext,
    r: Outcome,
)
    requires
        k0.wf(),
        k0.sched.cpu.current is Some,
        frame.x@[17] == 1,
        syscall::call_done(k, k0, frame, now, ctx, r),
    ensures
        ({
            let fd = frame.x@[10];
            let ptr = frame.x@[11];
            let len = frame.x@[12];
            let good = len <= 0x1_0000 && ptr + len <= 0x40_0000_0000 && (k0.caller().inner.space matches Some(s)
                && all_within_reach(s, k0.mem, ptr as int, len as int, 2));
            &&& k == k0
            &&& fd != 1 && fd != 2 ==> r == Outcome::Return(-3i64)
            &&& (fd == 1 || fd == 2) && !good ==> r == Outcome::Return(-6i64)
            &&& (fd == 1 || fd == 2) && good ==> (r matches Outcome::Write(b) && b@.len() == len && r.spec_value() == Some(
                len as i64,
            ) && forall|j: int|
                0 <= j < len ==> #[trigger] b@[j] == k0.caller().inner.space->0.ubyte(k0.mem, ptr + j))
        }),
{
    if let Some(s) = k0.caller().inner.space {
        lemma_all_within_reach(s, k0.mem, frame.x@[11] as int, frame.x@[12] as int, 2);
    }
}

/// A read (call 2) from the input that finds bytes hands over the oldest ones, as many as
/// there are and fit, in the order in which they came, and touches nothing else. The
/// bytes are gone from the input then, and the rest stays.
pub proof fn law_read_hands_over_the_oldest(
    k: Kernel,
    k0: Kernel,
    frame: TrapFrame,
    now: u64,
    ctx: TaskContext,
    r: Outcome,
)
    requires
        k0.wf(),
        k0.sched.cpu.current is Some,
        frame.x@[17] == 2,
        frame.x@[10] == 0,
        0 < frame.x@[12] <= 0x1_0000,
        frame.x@[11] + frame.x@[12] <= 0x40_0000_0000,
        k0.uart.rx@.len() > 0,
        syscall::call_done(k, k0, frame, now, ctx, r),
    ensures
        ({
            let ptr = frame.x@[11];
            let len = frame.x@[12];
            let old = k0.uart.rx@;
            let n = if len < old.len() {
                len as int
            } else {
                old.len() as int
            };
            let good = k0.caller().inner.space matches Some(s) && all_within_reach(s, k0.mem, ptr as int, n, 4);
            &&& k.sched == k0.sched
            &&& k.uart.rx@.len() == old.len() - n
            &&& forall|j: int| 0 <= j < old.len() - n ==> #[trigger] k.uart.rx@[j] == old[n + j]
            &&& r == Outcome::Return(
                if good {
                    n as i64
                } else {
                    -6i64
                },
            )
            &&& k0.caller().inner.space matches Some(s) ==> forall|x: int|
                s.access(k0.mem, x, 0) ==> #[trigger] s.ubyte(k.mem, x) == s.ubyte(k0.mem, x) || (ptr <= x < ptr + n
                    && s.ubyte(k.mem, x) == old[x - ptr])
            &&& good ==> {
                let s = k0.caller().inner.space->0;
                forall|x: int|
                    s.access(k0.mem, x, 0) ==> #[trigger] s.ubyte(k.mem, x) == (if ptr <= x < ptr + n {
                        old[x - ptr]
                    } else {
                        s.ubyte(k0.mem, x)
                    })
            }
        }),
{
    let len = frame.x@[12] as int;
    let old = k0.uart.rx@;
    let n = syscall::smaller(len, old.len() as int);
    if let Some(s) = k0.caller().inner.space {
        lemma_all_within_reach(s, k0.mem, frame.x@[11] as int, n, 4);
        let data = old.take(n);
        assert(data.take(n) =~= data);
        let ptr = frame.x@[11] as int;
        s.lemma_reach(k0.mem, ptr, n, 4);
        let got = data.take(s.reach(k0.mem, ptr, n, 4));
        assert(data.len() == n);
        assert forall|x: int| s.access(k0.mem, x, 0) implies #[trigger] s.ubyte(k.mem, x) == s.ubyte(k0.mem, x) || (ptr
            <= x < ptr + n && s.ubyte(k.mem, x) == old[x - ptr]) by {
            if ptr <= x < ptr + got.len() {
                assert(got[x - ptr] == old[x - ptr]);
            }
        }
    }
}

/// A read that finds no bytes waits for some: the caller leaves the hart and is last in
/// line for input, and nothing else happens. Reads that cannot be are refused, and one of
/// nothing returns at once.
pub proof fn law_read_waits_for_input(
    k: Kernel,
    k0: Kernel,
    frame: TrapFrame,
    now: u64,
    ctx: TaskContext,
    r: Outcome,
)
    requires
        k0.wf(),
        k0.sched.cpu.current is Some,
        frame.x@[17] == 2,
        syscall::call_done(k, k0, frame, now, ctx, r),
    ensures
        ({
            let fd = frame.x@[10];
            let ptr = frame.x@[11];
            let len = frame.x@[12];
            let me = k0.sched.cpu.current->0;
            &&& fd != 0 ==> r == Outcome::Return(-3i64) && k == k0
            &&& fd == 0 && len == 0 ==> r == Outcome::Return(0i64) && k == k0
            &&& fd == 0 && len > 0 && (len > 0x1_0000 || ptr + len > 0x40_0000_0000) ==> r == Outcome::Return(-6i64)
                && k == k0
            &&& fd == 0 && 0 < len <= 0x1_0000 && ptr + len <= 0x40_0000_0000 && k0.uart.rx@.len() == 0 ==> {
                &&& k.mem == k0.mem
                &&& k.uart.rx@.len() == 0
                &&& k.uart.readers@ == k0.uart.readers@.push(me)
                &&& r is Parked || r is Overflow
                &&& r is Parked ==> {
                    &&& k.sched.cpu.current is None
                    &&& k.sched.cpu.previous == Some(me)
                    &&& k.sched.queue == k0.sched.queue
                    &&& k.sched.tasks@.len() == k0.sched.tasks@.len()
                    &&& forall|i: int|
                        0 <= i < k0.sched.tasks@.len() && (#[trigger] k0.sched.tasks@[i]).pid.0 == me
                            && !k0.sched.tasks@[i].inner.wakeup_pending ==> k.sched.tasks@[i].inner.state
                            == TaskState::Blocked
                    &&& forall|i: int|
                        0 <= i < k0.sched.tasks@.len() && (#[trigger] k0.sched.tasks@[i]).pid.0 != me
                            ==> k.sched.tasks@[i] == k0.sched.tasks@[i]
                }
            }
        }),
{
    let tasks = k0.sched.tasks@;
    let me = k0.sched.cpu.current->0;
    let i0 = scheduler::index(tasks, me);
    assert(scheduler::known(tasks, me));
    assert(tasks[i0].pid.0 == me);
    assert forall|i: int| 0 <= i < tasks.len() && (#[trigger] tasks[i]).pid.0 == me implies i == i0 by {}
}

/// A caller learns its own number (call 4), that of its parent, or 0 if that has gone
/// (call 5), and how many milliseconds the machine has been up (call 10).
pub proof fn law_queries_are_answered(
    k: Kernel,
    k0: Kernel,
    frame: TrapFrame,
    now: u64,
    ctx: TaskContext,
    r: Outcome,
)
    requires
        k0.wf(),
        k0.sched.cpu.current is Some,
        syscall::call_done(k, k0, frame, now, ctx, r),
    ensures
        frame.x@[17] == 4 ==> k == k0 && r == Outcome::Return(k0.caller().pid.0 as i64),
        frame.x@[17] == 5 ==> k == k0 && (match k0.caller().inner.parent {
            Some(q) => if exists|i: int|
                0 <= i < k0.sched.tasks@.len() && (#[trigger] k0.sched.tasks@[i]).pid.0 == q {
                r == Outcome::Return(q as i64)
            } else {
                r == Outcome::Return(0i64)
            },
            None => r == Outcome::Return(0i64),
        }),
        frame.x@[17] == 10 ==> k == k0 && r == Outcome::Return((now as int / 10_000) as i64),
        frame.x@[17] > 11 ==> k == k0 && r.spec_value() == Some(-7i64),
{
    assert(scheduler::known(k0.sched.tasks@, k0.sched.cpu.current->0));
}

/// A yield (call 3) leaves the caller ready to run and everything else alone.
pub proof fn law_yield_keeps_the_caller_ready(
    k: Kernel,
    k0: Kernel,
    frame: TrapFrame,
    now: u64,
    ctx: TaskContext,
    r: Outcome,
)
    requires
        k0.wf(),
        k0.sched.cpu.current is Some,
        frame.x@[17] == 3,
        k0.caller().inner.kstack.intact(k0.mem),
        syscall::call_done(k, k0, frame, now, ctx, r),
    ensures
        r.spec_value() == Some(0i64),
        k.mem == k0.mem,
        k.uart == k0.uart,
        k.sched.cpu.current is None,
        k.sched.cpu.previous == k0.sched.cpu.current,
        k.sched.queue == k0.sched.queue,
        k.sched.tasks@.len() == k0.sched.tasks@.len(),
        forall|i: int|
            0 <= i < k0.sched.tasks@.len() ==> {
                let t0 = #[trigger] k0.sched.tasks@[i];
                let t = k.sched.tasks@[i];
                if k0.sched.cpu.current == Some(t0.pid.0) {
                    &&& t.inner.state == TaskState::Ready
                    &&& t.inner.ctx == ctx
                    &&& t.inner.level == t0.inner.level
                    &&& t.inner.ticks == t0.inner.ticks
                    &&& t.inner.wakeup_pending == t0.inner.wakeup_pending
                } else {
                    t == t0
                }
            },
{
    let tasks = k0.sched.tasks@;
    let i0 = scheduler::index(tasks, k0.sched.cpu.current->0);
    assert(tasks[i0].pid.0 == k0.sched.cpu.current->0);
}

/// The task table (call 11) has a line for each task, with what the task is.
pub proof fn law_table_lists_every_task(
    k: Kernel,
    k0: Kernel,
    frame: TrapFrame,
    now: u64,
    ctx: TaskContext,
    r: Outcome,
)
    requires
        k0.wf(),
        k0.sched.cpu.current is Some,
        frame.x@[17] == 11,
        syscall::call_done(k, k0, frame, now, ctx, r),
    ensures
        k == k0,
        r.spec_value() == Some(0i64),
        r matches Outcome::Table(rows) && rows@.len() == k0.sched.tasks@.len() && forall|i: int|
            0 <= i < rows@.len() ==> {
                let row = #[trigger] rows@[i];
                let t = k0.sched.tasks@[i];
                &&& row.pid == t.pid.0
                &&& row.name@ == t.name@
                &&& row.state == t.inner.state
                &&& row.level == t.inner.level
                &&& t.inner.parent is None ==> row.ppid == 0
                &&& t.inner.parent is Some ==> row.ppid == 0 || row.ppid == t.inner.parent->0
                &&& t.inner.parent is Some && scheduler::known(k0.sched.tasks@, t.inner.parent->0) ==> row.ppid
                    == t.inner.parent->0
                &&& t.inner.ctx.sp >= t.inner.kstack.low() ==> row.headroom == t.inner.ctx.sp - t.inner.kstack.low()
                &&& t.inner.ctx.sp < t.inner.kstack.low() ==> row.headroom == 0
            },
{
    if let Outcome::Table(rows) = r {
        assert forall|i: int| 0 <= i < rows@.len() implies scheduler::row_of(
            #[trigger] rows@[i],
            k0.sched.tasks@,
            i,
        ) by {}
    }
}

/// Moving the break (call 9) either moves it by what was asked and returns where it was,
/// or is refused and changes nothing that the caller can see. It is refused when the
/// new break would be outside the heap's range, and never when no page is needed. What
/// the heap gains is zero and there to read and write, and the rest is as it was.
pub proof fn law_break_moves_as_asked(
    k: Kernel,
    k0: Kernel,
    frame: TrapFrame,
    now: u64,
    ctx: TaskContext,
    r: Outcome,
)
    requires
        k0.wf(),
        k0.sched.cpu.current is Some,
        frame.x@[17] == 9,
        k0.caller().inner.space is Some,
        syscall::call_done(k, k0, frame, now, ctx, r),
    ensures
        ({
            let delta = frame.x@[10] as i64;
            let old = k0.caller().inner.brk as int;
            let top = k0.caller().inner.heap_top as int;
            let new = old + delta;
            let s0 = k0.caller().inner.space->0;
            let in_range = 0x1000_0000 <= new < 0x40_0000_0000;
            let t = k.caller();
            let moved = r == Outcome::Return(old as i64) && t.inner.brk == new;
            let refused = r == Outcome::Return(-4i64) && t.inner.brk == old;
            &&& moved || refused
            &&& delta == 0 ==> moved
            &&& delta != 0 && !in_range ==> refused
            &&& in_range && new <= top ==> moved
            &&& t.pid == k0.caller().pid
            &&& t.inner.space matches Some(s) && {
                &&& forall|x: int, need: u64| s0.access(k0.mem, x, need) ==> #[trigger] s.access(k.mem, x, need)
                &&& forall|x: int| s0.access(k0.mem, x, 0) ==> #[trigger] s.ubyte(k.mem, x) == s0.ubyte(k0.mem, x)
                &&& refused && delta != 0 ==> t.inner.heap_top == top && forall|x: int, need: u64|
                    #[trigger] s.access(k.mem, x, need) ==> s0.access(k0.mem, x, need)
                &&& moved && delta != 0 && new > top ==> t.inner.heap_top == ((new + 4095) / 4096) * 4096 && forall|x: int|
                    top <= x < ((new + 4095) / 4096) * 4096 ==> #[trigger] s.access(k.mem, x, 2) && s.access(k.mem, x, 4)
                        && !s.access(k.mem, x, 8) && s.ubyte(k.mem, x) == 0
            }
        }),
{
}

/// A fork (call 6) makes a second process that differs from the caller in its number and
/// in register `a0`: it is where the caller is, with the same other registers, the same
/// name and break, and it sees the same bytes at the same addresses with the same
/// permissions. It is a child of the caller, and last in line on the highest level. Its
/// number is the next one, and the one after it will be the next.
pub proof fn law_fork_makes_a_copy(
    k: Kernel,
    k0: Kernel,
    frame: TrapFrame,
    now: u64,
    ctx: TaskContext,
    v: i64,
    x: int,
    need: u64,
)
    requires
        k0.wf(),
        k.wf(),
        k0.sched.cpu.current is Some,
        k0.caller().inner.space is Some,
        frame.x@[17] == 6,
        syscall::call_done(k, k0, frame, now, ctx, Outcome::Return(v)),
        v != -4,
        need < 1024,
    ensures
        k.sched.tasks@.len() == k0.sched.tasks@.len() + 1,
        ({
            let t = k0.caller();
            let c = k.sched.tasks@.last();
            let s0 = t.inner.space->0;
            let line = k.sched.queue.levels()[0];
            &&& c.pid.0 as i64 == v
            &&& !scheduler::known(k0.sched.tasks@, c.pid.0)
            &&& c.name@ == t.name@
            &&& c.inner.parent == Some(t.pid.0)
            &&& c.inner.children@.len() == 0
            &&& c.inner.brk == t.inner.brk
            &&& c.inner.state == TaskState::Ready
            &&& c.inner.level == 0
            &&& line.last() == c.pid.0
            &&& line.len() == k0.sched.queue.levels()[0].len() + 1
            &&& c.inner.frame matches Some(f) && f.sepc == frame.sepc && f.sstatus == frame.sstatus && f.x@[10] == 0
                && forall|i: int| 0 <= i < 32 && i != 10 ==> #[trigger] f.x@[i] == frame.x@[i]
            &&& c.inner.space matches Some(s) && s.access(k.mem, x, need) == s0.access(k0.mem, x, need) && (s0.access(
                k0.mem,
                x,
                need,
            ) ==> s.ubyte(k.mem, x) == s0.ubyte(k0.mem, x))
            &&& c.pid.0 == k0.pids.upcoming()
            &&& k.pids.upcoming() == c.pid.0 + 1
            &&& k.caller().inner.children@ == t.inner.children@.push(c.pid.0)
            &&& k.caller().inner.space == t.inner.space
            &&& s0.access(k.mem, x, need) == s0.access(k0.mem, x, need)
            &&& s0.access(k0.mem, x, need) ==> s0.ubyte(k.mem, x) == s0.ubyte(k0.mem, x)
            &&& k.sched.cpu == k0.sched.cpu
        }),
{
    let tasks = k0.sched.tasks@;
    let i = scheduler::index(tasks, k0.sched.cpu.current->0);
    let t = k0.caller();
    let n = tasks.len() as int;
    let c = k.sched.tasks@.last();
    let s0 = t.inner.space->0;
    assert(k.sched.tasks@[n] == c);
    assert(t.sound(k0.mem, k0.space));
    assert(c.sound(k.mem, k.space));
    assert(k.sched.tasks@[i].pid == t.pid);
    scheduler::lemma_index(k.sched.tasks@, i);
    family::lemma_numbered(tasks, k0.pids.upcoming());
    queue::law_push_goes_behind_all(k0.sched.queue.levels(), 0, c.pid.0);
    duplicate::law_duplicate_is_equal(s0, c.inner.space->0, k0.mem, k.mem, x, need);
    process::lemma_view_kept(s0, k0.mem, k.mem, Set::empty(), x, need);
    if s0.access(k0.mem, x, need) {
        s0.lemma_any_access(k0.mem, x, need);
    }
}

/// A fork that is refused changes nobody.
pub proof fn law_refused_fork_changes_nobody(
    k: Kernel,
    k0: Kernel,
    frame: TrapFrame,
    now: u64,
    ctx: TaskContext,
    r: Outcome,
)
    requires
        k0.wf(),
        k0.sched.cpu.current is Some,
        frame.x@[17] == 6,
        syscall::call_done(k, k0, frame, now, ctx, r),
        k.sched.tasks@.len() == k0.sched.tasks@.len(),
    ensures
        r == Outcome::Return(-4i64),
        k.sched == k0.sched,
        k.pids == k0.pids,
        k.mem.free() == k0.mem.free(),
{
}

/// An `exec` (call 7) that starts a program starts the one that the path names, at the
/// entry point of its file, and the process stays who it was: its number, its parent and
/// its children are the same, and so is its place in line. Nothing of its registers gets
/// through but what the program is given.
pub proof fn law_exec_starts_the_program(
    k: Kernel,
    k0: Kernel,
    frame: TrapFrame,
    now: u64,
    ctx: TaskContext,
)
    requires
        k0.wf(),
        k.wf(),
        k0.sched.cpu.current is Some,
        frame.x@[17] == 7,
        syscall::call_done(k, k0, frame, now, ctx, Outcome::Started),
    ensures
        k0.caller().inner.space is Some,
        ({
            let s0 = k0.caller().inner.space->0;
            let path = s0.cstr(k0.mem, frame.x@[10] as int, 256);
            let t0 = k0.caller();
            let t = k.caller();
            &&& path is Some
            &&& programs::found(k0.programs@, path->0) matches Some(image) && (t.inner.frame matches Some(f) && f.sepc
                == bits::le(image, 24, 8) && (t.inner.space matches Some(s) && t.name@ == path->0)
                && f.x@[2] == f.x@[11] && forall|i: int|
                0 <= i < 32 && i != 2 && i != 10 && i != 11 ==> #[trigger] f.x@[i] == 0)
            &&& t.pid == t0.pid
            &&& t.inner.parent == t0.inner.parent
            &&& t.inner.children == t0.inner.children
            &&& t.inner.level == t0.inner.level
            &&& t.inner.brk >= 0x1000_0000
            &&& t.inner.brk == t.inner.heap_top
            &&& k.sched.queue == k0.sched.queue
            &&& k.sched.cpu == k0.sched.cpu
        }),
{
    let s0 = k0.caller().inner.space->0;
    let path = s0.cstr(k0.mem, frame.x@[10] as int, syscall::MAX_STR as int)->0;
    let list = syscall::exec_args(s0, k0.mem, frame.x@[11])->0;
    let image = programs::found(k0.programs@, path)->0;
    let a = choose|a: Seq<Vec<u8>>|
        syscall::strings_of(a) == list && #[trigger] syscall::execs(k, k0, path, image, a, 0);
    loader::law_program_starts_at_its_entry(image, k0.mem.free());
}

/// An `exec` that cannot be done says why: the path or an argument cannot be read, no
/// program has the name, or there is not what it takes to load it. The caller goes on as
/// it was.
pub proof fn law_exec_says_why_not(
    k: Kernel,
    k0: Kernel,
    frame: TrapFrame,
    now: u64,
    ctx: TaskContext,
    r: Outcome,
)
    requires
        k0.wf(),
        k0.sched.cpu.current is Some,
        frame.x@[17] == 7,
        k0.caller().inner.space is Some,
        syscall::call_done(k, k0, frame, now, ctx, r),
    ensures
        ({
            let s0 = k0.caller().inner.space->0;
            let path = s0.cstr(k0.mem, frame.x@[10] as int, 256);
            let list = syscall::exec_args(s0, k0.mem, frame.x@[11]);
            &&& path is None || list is None ==> r == Outcome::Return(-6i64) && k == k0
            &&& path is Some && list is Some && programs::found(k0.programs@, path->0) is None ==> r == Outcome::Return(
                -2i64,
            ) && k == k0
            &&& path is Some && list is Some && programs::found(k0.programs@, path->0) is Some ==> r == Outcome::Started || (
            r == Outcome::Return(-4i64) && k.sched.tasks@ == k0.sched.tasks@ && k.sched.cpu == k0.sched.cpu
                && k.sched.queue == k0.sched.queue && k.mem.free() == k0.mem.free())
            &&& frame.x@[11] == 0 ==> list == Some(Seq::<Seq<u8>>::empty())
        }),
{
}

/// A process that exits (call 0) stays behind with the code that it gave and nothing but
/// its kernel stack, off the hart. Its children belong to the first process from then on,
/// if there is one. Its parent is woken if it waits for a child, and so is the first
/// process if it gets some; nobody else moves.
#[verifier::rlimit(40)]
pub proof fn law_exit_tells_who_waits(
    k: Kernel,
    k0: Kernel,
    frame: TrapFrame,
    now: u64,
    ctx: TaskContext,
    r: Outcome,
    j: int,
)
    requires
        k0.wf(),
        k0.sched.cpu.current is Some,
        frame.x@[17] == 0,
        k0.caller().inner.kstack.intact(k0.mem),
        syscall::call_done(k, k0, frame, now, ctx, r),
        0 <= j < k0.sched.tasks@.len(),
    ensures
        r == Outcome::Exited,
        k.sched.tasks@.len() == k0.sched.tasks@.len(),
        k.sched.cpu.current is None,
        k.sched.cpu.previous == k0.sched.cpu.current,
        ({
            let me = k0.caller();
            let t0 = k0.sched.tasks@[j];
            let t = k.sched.tasks@[j];
            let first = scheduler::known(k0.sched.tasks@, 1) && me.pid.0 != 1;
            let parent = me.inner.parent == Some(t0.pid.0);
            let heir = t0.pid.0 == 1 && me.inner.children@.len() > 0;
            let foster = t0.pid.0 == 1 && t0.inner.children@.contains(me.pid.0);
            &&& t.pid == t0.pid
            &&& t0.pid == me.pid ==> {
                &&& t.inner.state == TaskState::Zombie
                &&& t.inner.exit_code == frame.x@[10] as i32
                &&& t.inner.space is None
                &&& first ==> t.inner.children@.len() == 0
            }
            &&& t0.pid != me.pid ==> {
                &&& t.inner.exit_code == t0.inner.exit_code
                &&& t.inner.space == t0.inner.space
                &&& t.inner.frame == t0.inner.frame
                &&& t.inner.ctx == t0.inner.ctx
                &&& t.inner.state != TaskState::Zombie || t0.inner.state == TaskState::Zombie
                &&& t0.child_exit@.len() > 0 && parent && t0.inner.state == TaskState::Blocked ==> {
                    &&& t.inner.state == TaskState::Ready
                    &&& t.child_exit@.len() == 0
                }
                &&& t0.child_exit@.len() > 0 && heir && t0.inner.state == TaskState::Blocked ==> {
                    &&& t.inner.state == TaskState::Ready
                    &&& t.child_exit@.len() == 0
                }
                &&& t0.child_exit@.len() > 0 && foster && me.inner.parent is None && t0.inner.state == TaskState::Blocked ==> {
                    &&& t.inner.state == TaskState::Ready
                    &&& t.child_exit@.len() == 0
                }
                &&& t0.child_exit@.len() == 0 || !(parent || heir || foster) ==> {
                    &&& t.inner.state == t0.inner.state
                    &&& t.inner.level == t0.inner.level
                    &&& t.inner.ticks == t0.inner.ticks
                    &&& t.inner.wakeup_pending == t0.inner.wakeup_pending
                    &&& t.child_exit@ == t0.child_exit@
                }
                &&& first && t0.pid.0 == 1 ==> t.inner.children@ == t0.inner.children@ + me.inner.children@
                &&& t0.pid.0 != 1 || !first ==> t.inner.children@ == t0.inner.children@
                &&& first && me.inner.children@.contains(t0.pid.0) ==> t.inner.parent is None
                &&& !me.inner.children@.contains(t0.pid.0) ==> t.inner.parent == t0.inner.parent
            }
        }),
{
    let code = frame.x@[10] as i32;
    let s0 = k0.sched;
    let s = k.sched;
    let tasks = s0.tasks@;
    let pid = s0.cpu.current->0;
    let i = scheduler::index(tasks, pid);
    let gone = scheduler::Runnable {
        tasks: scheduler::with_inner(tasks, i, scheduler::finished(tasks[i].inner, code)),
        levels: s0.queue.levels(),
    };
    let mid = choose|mid: scheduler::Runnable|
        {
            &&& #[trigger] family::departed(mid, gone, pid)
            &&& s.tasks@ == scheduler::with_inner(
                mid.tasks,
                i,
                scheduler::parked(mid.tasks[i].inner, TaskState::Zombie, ctx),
            )
            &&& s.queue.levels() == mid.levels
        };
    syscall::lemma_exited(s, s0, code, ctx);
    let list = family::wake_list(gone.tasks, pid);
    scheduler::lemma_with_inner(tasks, i, scheduler::finished(tasks[i].inner, code));
    kernel::lemma_stirred(gone, list);
    let v = scheduler::after_wakes(gone, list);
    assert(kernel::stirred_at(v.tasks, gone.tasks, j));
    assert(family::alike_at(mid.tasks, v.tasks, j));
    assert(kernel::census_at(s.tasks@, tasks, Some(pid), j));
    assert(tasks[i].pid.0 == pid);
    scheduler::lemma_index(tasks, j);
    scheduler::lemma_index(gone.tasks, j);
    scheduler::lemma_index(gone.tasks, i);
    if family::hands_over(gone.tasks, pid) {
        assert(family::handed_at(mid.tasks, gone.tasks, pid, family::children_of(gone.tasks, pid), j));
    } else {
        assert(family::same_kin_at(mid.tasks, gone.tasks, j));
    }
    scheduling::law_wakeups_reach_everyone(gone, list, j);
    assert(scheduler::known(gone.tasks, 1) == scheduler::known(tasks, 1));
    if i != j {
        lemma_who_is_told(gone.tasks, tasks, i, j);
    }
}

/// Who is on the list of those to wake.
proof fn lemma_who_is_told(gone: Seq<Task>, tasks: Seq<Task>, i: int, j: int)
    requires
        scheduler::distinct(gone),
        gone.len() == tasks.len(),
        0 <= i < tasks.len(),
        0 <= j < tasks.len(),
        i != j,
        gone[j] == tasks[j],
        gone[i].pid == tasks[i].pid,
        gone[i].inner.parent == tasks[i].inner.parent,
        gone[i].inner.children == tasks[i].inner.children,
    ensures
        ({
            let list = family::wake_list(gone, tasks[i].pid.0);
            let me = tasks[i];
            let t = tasks[j];
            let parent = me.inner.parent == Some(t.pid.0);
            let heir = t.pid.0 == 1 && me.inner.children@.len() > 0;
            let foster = t.pid.0 == 1 && t.inner.children@.contains(me.pid.0);
            &&& t.child_exit@.len() > 0 && (parent || heir) ==> list.contains(t.pid.0)
            &&& t.child_exit@.len() > 0 && foster && me.inner.parent is None ==> list.contains(t.pid.0)
            &&& t.child_exit@.len() == 0 || !(parent || heir || foster) ==> !list.contains(t.pid.0)
        }),
{
    let p = tasks[i].pid.0;
    let q = tasks[j].pid.0;
    scheduler::lemma_index(gone, i);
    scheduler::lemma_index(gone, j);
    let list = family::wake_list(gone, p);
    let r = family::reaper(gone, p);
    if tasks[i].inner.parent == Some(q) {
        assert(r == Some(q));
        if tasks[j].child_exit@.len() > 0 {
            assert(list[0] == q);
        }
    }
    if q == 1 && tasks[i].inner.children@.len() > 0 && tasks[j].child_exit@.len() > 0 {
        assert(list.last() == q || list[0] == q);
    }
    if q == 1 && tasks[j].inner.children@.contains(p) && tasks[i].inner.parent is None {
        assert(r == Some(q));
        if tasks[j].child_exit@.len() > 0 {
            assert(list[0] == q);
        }
    }
    if list.contains(q) {
        let a = choose|a: int| 0 <= a < list.len() && list[a] == q;
        assert(a == 0 || a == 1);
    }
}

/// A wait that returns a child has stored the code that the child exited with in the four
/// bytes that it was given, and touched no other byte of the caller's.
pub proof fn law_wait_stores_the_status(
    k: Kernel,
    k0: Kernel,
    frame: TrapFrame,
    now: u64,
    ctx: TaskContext,
    v: i64,
    x: int,
)
    requires
        k0.wf(),
        k0.sched.cpu.current is Some,
        frame.x@[17] == 8,
        frame.x@[11] != 0,
        syscall::call_done(k, k0, frame, now, ctx, Outcome::Return(v)),
        v >= 0,
    ensures
        k0.caller().inner.space is Some,
        ({
            let s = k0.caller().inner.space->0;
            let ptr = frame.x@[11];
            let kids = k0.caller().inner.children@;
            &&& exists|z: int, i: int|
                {
                    &&& 0 <= z < kids.len()
                    &&& 0 <= i < k0.sched.tasks@.len()
                    &&& (#[trigger] kids[z]) as i64 == v
                    &&& (#[trigger] k0.sched.tasks@[i]).pid.0 == kids[z]
                    &&& s.ubyte(k.mem, ptr + 0) + 0x100 * s.ubyte(k.mem, ptr + 1) + 0x1_0000 * s.ubyte(k.mem, ptr + 2)
                        + 0x100_0000 * s.ubyte(k.mem, ptr + 3) == k0.sched.tasks@[i].inner.exit_code as u32
                }
            &&& s.access(k0.mem, x, 0) && !(ptr <= x < ptr + 4) ==> s.ubyte(k.mem, x) == s.ubyte(k0.mem, x)
        }),
{
    let want = frame.x@[10] as i64;
    let ptr = frame.x@[11];
    let t = k0.caller();
    let s = t.inner.space->0;
    let tasks = k0.sched.tasks@;
    let kids = t.inner.children@;
    let me = scheduler::index(tasks, k0.sched.cpu.current->0);
    let z = syscall::first_exited(tasks, kids, want, 0);
    lemma_first_exited(tasks, kids, want, 0);
    assert(family::child_ok(tasks, me, z));
    let i = scheduler::index(tasks, kids[z]);
    let code = tasks[i].inner.exit_code;
    let freed = family::holdings(tasks).difference(family::holdings(k.sched.tasks@));
    let m1 = choose|m1: Memory| #[trigger] syscall::status_told(m1, k0.mem, t, ptr, code) && k.mem.gave(m1, freed);
    assert(syscall::status_told(m1, k0.mem, t, ptr, code) && k.mem.gave(m1, freed));
    let data = syscall::status_bytes(code);
    s.lemma_reach(k0.mem, ptr as int, 4, 4);
    assert(data.take(4) =~= data);
    laws::lemma_others_hold(k, k0, want, ptr, ctx, Outcome::Return(v), me);
    assert(t.sound(k0.mem, k0.space));
    lemma_freed_apart(k, k0, freed);
    laws::lemma_status_value(code);
    bits::law_least_significant_byte_first(data, 0);
    assert forall|y: int| #[trigger] s.access(k0.mem, y, 0) implies s.ubyte(k.mem, y) == s.ubyte(m1, y) by {
        laws::lemma_view_after_write(s, k0.mem, m1, k.mem, freed, ptr, data, y);
    }
    assert forall|b: int| 0 <= b < 4 implies s.ubyte(k.mem, #[trigger] (ptr + b)) == data[b] by {
        assert(s.access(k0.mem, ptr + b, 4));
        s.lemma_any_access(k0.mem, ptr + b, 4);
    }
    assert(s.ubyte(k.mem, ptr + 0) == data[0] && s.ubyte(k.mem, ptr + 1) == data[1] && s.ubyte(k.mem, ptr + 2) == data[2]
        && s.ubyte(k.mem, ptr + 3) == data[3]);
    assert(kids[z] as i64 == v && tasks[i].pid.0 == kids[z]);
}

/// What a wait frees is apart from the caller's space.
proof fn lemma_freed_apart(k: Kernel, k0: Kernel, freed: Set<int>)
    requires
        k0.wf(),
        k0.sched.cpu.current is Some,
        k0.caller().inner.space is Some,
        freed == family::holdings(k0.sched.tasks@).difference(family::holdings(k.sched.tasks@)),
        k0.caller().frames().subset_of(family::holdings(k.sched.tasks@)),
    ensures
        freed.disjoint(k0.caller().inner.space->0.support()),
{
    let tasks = k0.sched.tasks@;
    let me = scheduler::index(tasks, k0.sched.cpu.current->0);
    let s = k0.caller().inner.space->0;
    assert(tasks[me].sound(k0.mem, k0.space));
    assert forall|f: int| #[trigger] s.support().contains(f) implies !freed.contains(f) by {
        if freed.contains(f) {
            let l = choose|l: int| 0 <= l < tasks.len() && (#[trigger] tasks[l]).frames().contains(f);
            assert(tasks[l].sound(k0.mem, k0.space));
            family::lemma_apart_from_kernel(tasks[l], k0.mem, k0.space);
            if s.footprint().contains(f) {
                assert(tasks[me].frames().contains(f));
            }
        }
    }
}

/// An `exec` starts the program whenever it can: the path and the arguments can be read,
/// there is a program of that name, it can be loaded below the stack, and there is memory
/// for the stack.
pub proof fn law_exec_starts_what_it_can(
    k: Kernel,
    k0: Kernel,
    frame: TrapFrame,
    now: u64,
    ctx: TaskContext,
    r: Outcome,
)
    requires
        k0.wf(),
        k0.sched.cpu.current is Some,
        frame.x@[17] == 7,
        syscall::call_done(k, k0, frame, now, ctx, r),
        k0.caller().inner.space is Some,
        ({
            let s0 = k0.caller().inner.space->0;
            &&& s0.cstr(k0.mem, frame.x@[10] as int, 256) is Some
            &&& frame.x@[11] == 0 || exists|n: int| #[trigger] has_strings(s0, k0.mem, frame.x@[11] as int, n)
            &&& programs::found(k0.programs@, s0.cstr(k0.mem, frame.x@[10] as int, 256)->0) matches Some(image) && {
                let o = loader::load_result(image, k0.mem.free());
                &&& o is Ok
                &&& o->Ok_0.free >= 192
                &&& forall|i: int|
                    0 <= i < image::segments_of(image).len() ==> (#[trigger] image::segments_of(image)[i]).end
                        <= 0x3f_fffb_f000
            }
        }),
    ensures
        r == Outcome::Started,
{
    let s0 = k0.caller().inner.space->0;
    let argv = frame.x@[11];
    let path = s0.cstr(k0.mem, frame.x@[10] as int, syscall::MAX_STR as int)->0;
    let image = programs::found(k0.programs@, path)->0;
    if argv != 0 {
        let n = choose|n: int| #[trigger] has_strings(s0, k0.mem, argv as int, n);
        law_exec_reads_every_argument(s0, k0.mem, argv, n);
    }
    let list = syscall::exec_args(s0, k0.mem, argv)->0;
    let v: i64 = if r == Outcome::Started {
        0
    } else {
        r->Return_0
    };
    let a = choose|a: Seq<Vec<u8>>|
        syscall::strings_of(a) == list && #[trigger] syscall::execs(k, k0, path, image, a, v);
    assert(syscall::strings_of(a).len() == list.len());
    assert(list.len() <= 32);
    assert forall|j: int| 0 <= j < a.len() implies (#[trigger] a[j])@.len() < 256 by {
        assert(syscall::strings_of(a)[j] == a[j]@);
        let n = choose|n: int| #[trigger] has_strings(s0, k0.mem, argv as int, n);
        assert(list[j] == string_of(s0, k0.mem, argv as int, j));
        assert(names_string(s0, k0.mem, argv as int, j));
        lemma_no_nul(s0, k0.mem, s0.uword(k0.mem, argv + 8 * j), 256);
    }
    lemma_room(a, a.len() as int);
    image::law_loaded_programs_can_be_started(image, a, k0.mem.free());
}

/// A wait that returns a child takes it off the caller's list, and only it.
pub proof fn law_wait_forgets_the_child(
    k: Kernel,
    k0: Kernel,
    frame: TrapFrame,
    now: u64,
    ctx: TaskContext,
    v: i64,
)
    requires
        k0.wf(),
        k.wf(),
        k0.sched.cpu.current is Some,
        frame.x@[17] == 8,
        syscall::call_done(k, k0, frame, now, ctx, Outcome::Return(v)),
        v >= 0,
    ensures
        k.sched.cpu == k0.sched.cpu,
        k.sched.queue == k0.sched.queue,
        ({
            let kids = k0.caller().inner.children@;
            exists|z: int|
                0 <= z < kids.len() && (#[trigger] kids[z]) as i64 == v && k.caller().inner.children@ == kids.take(z)
                    + kids.skip(z + 1)
        }),
{
    let want = frame.x@[10] as i64;
    let tasks = k0.sched.tasks@;
    let u = k.sched.tasks@;
    let me = scheduler::index(tasks, k0.sched.cpu.current->0);
    let kids = k0.caller().inner.children@;
    lemma_first_exited(tasks, kids, want, 0);
    let z = syscall::first_exited(tasks, kids, want, 0);
    let mid = choose|mid: Seq<Task>| #[trigger] family::disowned(mid, tasks, me, z) && u == family::swept(mid);
    assert(family::disowned_at(mid, tasks, me, z, me));
    kernel::lemma_swept_some(mid);
    assert(u.contains(mid[me]));
    let l = choose|l: int| 0 <= l < u.len() && u[l] == mid[me];
    scheduler::lemma_index(u, l);
    assert(kids.remove(z) =~= kids.take(z) + kids.skip(z + 1));
    assert(kids[z] as i64 == v);
}

/// A fork is only refused for want of memory: the caller's space cannot be copied, or
/// there are no eight frames in a row for a stack once it is.
pub proof fn law_fork_is_refused_for_memory(
    k: Kernel,
    k0: Kernel,
    frame: TrapFrame,
    now: u64,
    ctx: TaskContext,
    r: Outcome,
)
    requires
        k0.wf(),
        k0.sched.cpu.current is Some,
        frame.x@[17] == 6,
        syscall::call_done(k, k0, frame, now, ctx, r),
        k0.caller().inner.space is Some,
        k.sched.tasks@.len() == k0.sched.tasks@.len(),
    ensures
        match duplicate::copied(k0.caller().inner.space->0.regions(), k0.mem.free()) {
            None => true,
            Some((_, left)) => forall|o: int|
                3 <= o <= 10 ==> (#[trigger] frame::drawn(k0.mem.lists(), k0.mem.free() - left)[o]).len() == 0,
        },
{
    if let Some((_, left)) = duplicate::copied(k0.caller().inner.space->0.regions(), k0.mem.free()) {
        let lists = frame::drawn(k0.mem.lists(), k0.mem.free() - left);
        assert forall|o: int| 3 <= o <= 10 implies (#[trigger] lists[o]).len() == 0 by {
            if lists[o].len() > 0 {
                buddy::lemma_donor_found(lists, 3, o);
            }
        }
    }
}

/// The break moves up if there is memory for it: three frames for each page that the heap
/// gains, where nothing is mapped yet.
pub proof fn law_break_moves_up_with_memory(
    k: Kernel,
    k0: Kernel,
    frame: TrapFrame,
    now: u64,
    ctx: TaskContext,
    r: Outcome,
)
    requires
        k0.wf(),
        k0.sched.cpu.current is Some,
        frame.x@[17] == 9,
        syscall::call_done(k, k0, frame, now, ctx, r),
        k0.caller().inner.space is Some,
        ({
            let t = k0.caller().inner;
            let new = t.brk + frame.x@[10] as i64;
            let from = t.heap_top as int / 4096;
            let to = (new + 4095) / 4096;
            &&& 0x1000_0000 <= new < 0x40_0000_0000
            &&& from < to ==> k0.mem.free() >= 3 * (to - from)
            &&& forall|w: int| from <= w < to ==> !page_table::occupies(t.space->0.leaves(), w, 2)
        }),
    ensures
        r == Outcome::Return(k0.caller().inner.brk as i64),
        k.caller().inner.brk == k0.caller().inner.brk + frame.x@[10] as i64,
{
    let t = k0.caller().inner;
    let new = t.brk + frame.x@[10] as i64;
    addr::law_pages_are_4096_bytes(new);
    let from = t.heap_top as int / 4096;
    let to = (new + 4095) / 4096;
    assert(addr::page_ceil(new) / 4096 == to);
    space::law_enough_memory_maps(t.space->0.leaves(), from, to, k0.mem.free());
}

/// The hart follows what runs: after an `exec` it is in the new space, and after an exit
/// in the kernel's own.
pub proof fn law_hart_follows_the_space(
    k: Kernel,
    k0: Kernel,
    frame: TrapFrame,
    now: u64,
    ctx: TaskContext,
    r: Outcome,
)
    requires
        k0.wf(),
        k0.sched.cpu.current is Some,
        k.wf(),
        syscall::call_done(k, k0, frame, now, ctx, r),
    ensures
        frame.x@[17] == 7 && r == Outcome::Started ==> (k.caller().inner.space matches Some(s) && k.hart.satp
            == 0x8000_0000_0000_0000 + s.root()),
        frame.x@[17] == 0 ==> k.hart.satp == 0x8000_0000_0000_0000 + k0.space.root(),
        frame.x@[17] != 0 && frame.x@[17] != 7 ==> k.hart.satp == k0.hart.satp,
{
    if frame.x@[17] == 7 && r == Outcome::Started {
        let s0 = k0.caller().inner.space->0;
        let path = s0.cstr(k0.mem, frame.x@[10] as int, syscall::MAX_STR as int)->0;
        let list = syscall::exec_args(s0, k0.mem, frame.x@[11])->0;
        let image = programs::found(k0.programs@, path)->0;
        let a = choose|a: Seq<Vec<u8>>|
            syscall::strings_of(a) == list && #[trigger] syscall::execs(k, k0, path, image, a, 0);
    }
}

/// A wait that has to wait puts the caller to sleep where its children tell it, unless it
/// was woken already. Nobody else is affected.
pub proof fn law_wait_sleeps_for_a_child(
    k: Kernel,
    k0: Kernel,
    frame: TrapFrame,
    now: u64,
    ctx: TaskContext,
    r: Outcome,
    i: int,
)
    requires
        k0.wf(),
        k0.sched.cpu.current is Some,
        frame.x@[17] == 8,
        syscall::call_done(k, k0, frame, now, ctx, r),
        r is Parked,
        0 <= i < k0.sched.tasks@.len(),
    ensures
        k.mem == k0.mem,
        k.sched.cpu.current is None,
        k.sched.cpu.previous == k0.sched.cpu.current,
        k.sched.queue == k0.sched.queue,
        k.sched.tasks@.len() == k0.sched.tasks@.len(),
        ({
            let t0 = k0.sched.tasks@[i];
            let t = k.sched.tasks@[i];
            if k0.sched.cpu.current == Some(t0.pid.0) {
                &&& t.pid == t0.pid
                &&& t.inner.state == (if t0.inner.wakeup_pending {
                    TaskState::Ready
                } else {
                    TaskState::Blocked
                })
                &&& t.inner.ctx == ctx
                &&& t.inner.children == t0.inner.children
                &&& t.child_exit@ == t0.child_exit@.push(t0.pid.0)
            } else {
                t == t0
            }
        }),
{
    let tasks = k0.sched.tasks@;
    let me = scheduler::index(tasks, k0.sched.cpu.current->0);
    assert(tasks[me].pid.0 == k0.sched.cpu.current->0);
    scheduler::lemma_index(tasks, i);
    let s1 = choose|s1: scheduler::Scheduler|
        #[trigger] syscall::awaits_child(s1, k0.sched) && wait::parks(
            k.sched,
            s1,
            k0.mem,
            k.hart,
            k0.hart,
            ctx,
            syscall::step_of(r),
        );
    assert(syscall::awaits_child(s1, k0.sched));
    assert(s1.tasks@[me].pid == tasks[me].pid);
    assert(scheduler::distinct(s1.tasks@)) by {
        assert forall|a: int, b: int|
            0 <= a < s1.tasks@.len() && 0 <= b < s1.tasks@.len() && (#[trigger] s1.tasks@[a]).pid.0 == (
            #[trigger] s1.tasks@[b]).pid.0 implies a == b by {
            assert(tasks[a].pid == s1.tasks@[a].pid && tasks[b].pid == s1.tasks@[b].pid);
        }
    }
    scheduler::lemma_index(s1.tasks@, me);
}

/// A wait whose child has exited returns it if the caller wants no status or can be told
/// it. If it cannot, the call fails and the child stays for another wait.
pub proof fn law_wait_needs_room_for_the_status(
    k: Kernel,
    k0: Kernel,
    frame: TrapFrame,
    now: u64,
    ctx: TaskContext,
    r: Outcome,
)
    requires
        k0.wf(),
        k0.sched.cpu.current is Some,
        frame.x@[17] == 8,
        syscall::call_done(k, k0, frame, now, ctx, r),
        exists|z: int|
            {
                &&& 0 <= z < k0.caller().inner.children@.len()
                &&& (frame.x@[10] as i64) < 0 || #[trigger] k0.caller().inner.children@[z] as i64 == frame.x@[10] as i64
                &&& is_zombie(k0.sched.tasks@, k0.caller().inner.children@[z])
            },
    ensures
        ({
            let ptr = frame.x@[11];
            let kids = k0.caller().inner.children@;
            let good = ptr == 0 || (k0.caller().inner.space matches Some(s) && all_within_reach(
                s,
                k0.mem,
                ptr as int,
                4,
                4,
            ));
            &&& !good ==> r == Outcome::Return(-6i64) && k == k0
            &&& good ==> exists|z: int|
                {
                    &&& 0 <= z < kids.len()
                    &&& r == Outcome::Return(#[trigger] kids[z] as i64)
                    &&& is_zombie(k0.sched.tasks@, kids[z])
                    &&& !scheduler::known(k.sched.tasks@, kids[z])
                }
        }),
{
    let want = frame.x@[10] as i64;
    let tasks = k0.sched.tasks@;
    let kids = k0.caller().inner.children@;
    let me = scheduler::index(tasks, k0.sched.cpu.current->0);
    lemma_first_exited(tasks, kids, want, 0);
    let z = syscall::first_exited(tasks, kids, want, 0);
    let y = choose|y: int|
        {
            &&& 0 <= y < kids.len()
            &&& want < 0 || #[trigger] kids[y] as i64 == want
            &&& is_zombie(tasks, kids[y])
        };
    assert(family::child_ok(tasks, me, y));
    lemma_zombie(tasks, kids[y]);
    if let Some(s) = k0.caller().inner.space {
        lemma_all_within_reach(s, k0.mem, frame.x@[11] as int, 4, 4);
    }
    assert(z <= y);
    assert(family::child_ok(tasks, me, z));
    lemma_zombie(tasks, kids[z]);
}

} // verus!
