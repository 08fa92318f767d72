//! What holds of the system calls together.

use vstd::prelude::*;
use crate::bits;
use crate::config::USER_MAX_ADDR;
use crate::kernel::{self, Kernel};
use crate::mm::addr;
use crate::mm::frame::Memory;
use crate::mm::page_table;
use crate::mm::space::{self, AddressSpace};
use crate::mm::usercopy;
use crate::sync::wait;
use crate::syscall::{self, nr, Outcome};
use crate::task::family;
use crate::task::process;
use crate::task::scheduler::{self, Scheduler};
use crate::task::{Task, TaskContext, TaskState};
use crate::trap::TrapFrame;

verus! {

/// Processes are isolated: what a system call stores for one process is not seen by
/// any other, whose mappings stay as they were too.
pub proof fn law_processes_are_isolated(
    tasks: Seq<Task>,
    i: int,
    j: int,
    m0: Memory,
    mem: Memory,
    kernel: AddressSpace,
    va: u64,
    data: Seq<u8>,
    x: int,
    need: u64,
)
    requires
        m0.wf(),
        family::backed(tasks, m0, kernel),
        0 <= i < tasks.len(),
        0 <= j < tasks.len(),
        i != j,
        tasks[i].inner.space is Some,
        tasks[j].inner.space is Some,
        syscall::wrote(mem, m0, tasks[i].inner.space->0, va, data),
    ensures
        ({
            let s = tasks[j].inner.space->0;
            &&& s.access(mem, x, need) == s.access(m0, x, need)
            &&& s.access(m0, x, need) ==> s.ubyte(mem, x) == s.ubyte(m0, x)
        }),
{
    let a = tasks[i].inner.space->0;
    let b = tasks[j].inner.space->0;
    assert(tasks[i].sound(m0, kernel));
    assert(tasks[j].sound(m0, kernel));
    assert(tasks[i].frames().disjoint(tasks[j].frames()));
    assert forall|f: int| a.footprint().contains(f) implies !b.support().contains(f) by {
        assert(tasks[i].frames().contains(f));
        if b.support().contains(f) {
            assert(b.footprint().contains(f) || kernel.support().contains(f));
            if b.footprint().contains(f) {
                assert(tasks[j].frames().contains(f));
            }
        }
    }
    usercopy::law_spaces_are_isolated(a, b, m0, mem);
    if b.access(m0, x, need) {
        b.lemma_any_access(m0, x, need);
    }
}

/// A copy touches nothing but the pages of its space.
proof fn lemma_wrote_keeps(mem: Memory, m0: Memory, t: Task, va: u64, data: Seq<u8>)
    requires
        t.inner.space is Some,
        syscall::wrote(mem, m0, t.inner.space->0, va, data),
    ensures
        mem.keeps(m0, t.user_frames()),
{
    let touched = space::frames_of(t.inner.space->0.regions());
    assert(touched.subset_of(t.user_frames()));
    assert forall|f: int| m0.used(f) && !t.user_frames().contains(f) implies #[trigger] mem.same_frame(m0, f) by {
        assert(!touched.contains(f));
    }
}

/// What a wait may touch: the pages of the caller, and the frames of a child that
/// it has collected.
pub open spec fn reachable(k: Kernel, k0: Kernel) -> Set<int> {
    k0.caller().user_frames().union(
        family::holdings(k0.sched.tasks@).difference(family::holdings(k.sched.tasks@)),
    )
}

proof fn lemma_keeps_more(mem: Memory, m0: Memory, a: Set<int>, b: Set<int>)
    requires
        mem.keeps(m0, a),
        a.subset_of(b),
    ensures
        mem.keeps(m0, b),
{
}

/// A wait keeps to what it may touch.
proof fn lemma_wait_keeps(k: Kernel, k0: Kernel, want: i64, ptr: u64, ctx: TaskContext, r: Outcome)
    requires
        syscall::wait_done(k, k0, want, ptr, ctx, r),
    ensures
        k.mem.keeps(k0.mem, reachable(k, k0)),
{
    let t = k0.caller();
    let all = reachable(k, k0);
    let kids = t.inner.children@;
    let z = syscall::first_exited(k0.sched.tasks@, kids, want, 0);
    if z < kids.len() && syscall::can_be_told(t, k0.mem, ptr) {
        let code = k0.sched.tasks@[scheduler::index(k0.sched.tasks@, kids[z])].inner.exit_code;
        let freed = family::holdings(k0.sched.tasks@).difference(family::holdings(k.sched.tasks@));
        let m1 = choose|m1: Memory|
            #[trigger] syscall::status_told(m1, k0.mem, t, ptr, code) && k.mem.gave(m1, freed);
        assert(syscall::status_told(m1, k0.mem, t, ptr, code) && k.mem.gave(m1, freed));
        if ptr == 0 {
            lemma_keeps_more(k.mem, k0.mem, freed, all);
        } else {
            lemma_wrote_keeps(m1, k0.mem, t, ptr, syscall::status_bytes(code));
            assert forall|q: int, l: int| k0.mem.owns(q, l) && !all.contains(q) implies #[trigger] k.mem.owns(q, l) by {
                assert(m1.owns(q, l));
            }
            assert forall|f: int| k0.mem.used(f) && !all.contains(f) implies #[trigger] k.mem.used(f) by {
                assert(m1.used(f));
            }
            assert forall|f: int| k0.mem.used(f) && !all.contains(f) implies #[trigger] k.mem.same_frame(k0.mem, f) by {
                assert(m1.used(f) && m1.same_frame(k0.mem, f) && k.mem.same_frame(m1, f));
            }
        }
    } else {
        assert(k0.mem.keeps(k0.mem, Set::empty()));
        lemma_keeps_more(k.mem, k0.mem, Set::empty(), all);
    }
}

/// A task that has not exited holds on to its frames while another waits.
pub proof fn lemma_others_hold(k: Kernel, k0: Kernel, want: i64, ptr: u64, ctx: TaskContext, r: Outcome, j: int)
    requires
        k0.wf(),
        k0.sched.cpu.current is Some,
        syscall::wait_done(k, k0, want, ptr, ctx, r),
        0 <= j < k0.sched.tasks@.len(),
        k0.sched.tasks@[j].inner.state != TaskState::Zombie,
    ensures
        k0.sched.tasks@[j].frames().subset_of(family::holdings(k.sched.tasks@)),
{
    let tasks = k0.sched.tasks@;
    let u = k.sched.tasks@;
    let kids = k0.caller().inner.children@;
    let z = syscall::first_exited(tasks, kids, want, 0);
    let i = scheduler::index(tasks, k0.sched.cpu.current->0);
    if z < kids.len() && syscall::can_be_told(k0.caller(), k0.mem, ptr) {
        let mid = choose|mid: Seq<Task>| #[trigger] family::disowned(mid, tasks, i, z) && u == family::swept(mid);
        assert(family::disowned(mid, tasks, i, z) && u == family::swept(mid));
        assert(family::disowned_at(mid, tasks, i, z, j));
        kernel::lemma_swept_some(mid);
        assert(u.contains(mid[j]));
        let l = choose|l: int| 0 <= l < u.len() && u[l] == mid[j];
        assert(u[l].frames() == tasks[j].frames());
        assert forall|f: int| tasks[j].frames().contains(f) implies family::holdings(u).contains(f) by {
            assert(u[l].frames().contains(f));
        }
    } else if z >= kids.len() && syscall::any_wanted(kids, want) {
        let s1 = choose|s1: Scheduler|
            #[trigger] syscall::awaits_child(s1, k0.sched) && wait::parks(
                k.sched,
                s1,
                k0.mem,
                k.hart,
                k0.hart,
                ctx,
                syscall::step_of(r),
            );
        assert(syscall::awaits_child(s1, k0.sched) && wait::parks(
            k.sched,
            s1,
            k0.mem,
            k.hart,
            k0.hart,
            ctx,
            syscall::step_of(r),
        ));
        assert(s1.tasks@[j].frames() == tasks[j].frames());
        assert(u[j].frames() == tasks[j].frames());
        assert forall|f: int| tasks[j].frames().contains(f) implies family::holdings(u).contains(f) by {
            assert(u[j].frames().contains(f));
        }
    } else {
        assert forall|f: int| tasks[j].frames().contains(f) implies family::holdings(u).contains(f) by {
            assert(u[j].frames().contains(f));
        }
    }
}

/// What a space shows after a write to it and a release of frames that are not its own.
pub proof fn lemma_view_after_write(
    s: AddressSpace,
    m0: Memory,
    m1: Memory,
    mem: Memory,
    freed: Set<int>,
    va: u64,
    data: Seq<u8>,
    y: int,
)
    requires
        m0.wf(),
        s.wf(m0),
        s.is_user(),
        s.access(m0, y, 0),
        syscall::wrote(m1, m0, s, va, data),
        mem.gave(m1, freed),
        freed.disjoint(s.support()),
    ensures
        s.ubyte(mem, y) == s.ubyte(m1, y),
{
    s.lemma_live(m0);
    let i = s.lemma_user_page(m0, y);
    let p = page_table::entry_ppn(s.page_entry(m0, y)->0);
    assert(s.footprint().contains(p) && s.support().contains(p));
    assert(m0.owns(p, 0) && m0.used(p));
    assert(page_table::walk(m1, s.root(), y / 4096) == page_table::walk(m0, s.root(), y / 4096));
    assert forall|q: int| #[trigger] s.support().contains(q) implies mem.owns(q, 0) by {
        assert(m0.owns(q, 0));
        assert(m1.owns(q, 0));
    }
    assert forall|q: int| #[trigger] s.spec_table().tables().contains(q) implies mem.same_frame(m0, q) by {
        assert(s.support().contains(q));
        assert(m0.used(q) && m1.used(q));
        if space::frames_of(s.regions()).contains(q) {
            space::lemma_frames_of(s.regions(), q);
            let l = choose|l: int| 0 <= l < s.regions().len() && (#[trigger] s.regions()[l]).frames().to_set().contains(q);
            assert(s.region_ok(m0, l));
        }
        assert(m1.same_frame(m0, q) && mem.same_frame(m1, q));
    }
    s.lemma_undisturbed(m0, mem);
    assert(mem.same_frame(m1, p));
    assert(mem.word(p, (y % 4096) / 8) == m1.word(p, (y % 4096) / 8));
}

/// No system call of one process changes what another sees: its mappings and every byte
/// that it can read stay as they were, whichever call it is and however it ends.
pub proof fn law_calls_do_not_reach_others(
    k: Kernel,
    k0: Kernel,
    frame: TrapFrame,
    now: u64,
    ctx: TaskContext,
    r: Outcome,
    j: int,
    x: int,
    need: u64,
)
    requires
        k0.wf(),
        k0.sched.cpu.current is Some,
        syscall::call_done(k, k0, frame, now, ctx, r),
        0 <= j < k0.sched.tasks@.len(),
        k0.sched.tasks@[j].pid.0 != k0.sched.cpu.current->0,
        k0.sched.tasks@[j].inner.state != TaskState::Zombie,
        k0.sched.tasks@[j].inner.space is Some,
    ensures
        ({
            let s = k0.sched.tasks@[j].inner.space->0;
            &&& s.access(k.mem, x, need) == s.access(k0.mem, x, need)
            &&& s.access(k0.mem, x, need) ==> s.ubyte(k.mem, x) == s.ubyte(k0.mem, x)
        }),
{
    let tasks = k0.sched.tasks@;
    let i = scheduler::index(tasks, k0.sched.cpu.current->0);
    let s = tasks[j].inner.space->0;
    let mine = k0.caller().user_frames();
    assert(i != j);
    assert(tasks[i].sound(k0.mem, k0.space));
    assert(tasks[j].sound(k0.mem, k0.space));
    assert(tasks[i].frames().disjoint(tasks[j].frames()));
    assert forall|f: int| #[trigger] mine.contains(f) implies !s.support().contains(f) by {
        assert(tasks[i].frames().contains(f));
        if s.footprint().contains(f) {
            assert(tasks[j].frames().contains(f));
        }
    }
    if frame.x@[17] == nr::SYS_WAITPID {
        let gone = reachable(k, k0);
        lemma_wait_keeps(k, k0, frame.x@[10] as i64, frame.x@[11], ctx, r);
        lemma_others_hold(k, k0, frame.x@[10] as i64, frame.x@[11], ctx, r, j);
        assert forall|f: int| #[trigger] s.support().contains(f) implies !gone.contains(f) by {
            if family::holdings(tasks).contains(f) && !family::holdings(k.sched.tasks@).contains(f) {
                let l = choose|l: int| 0 <= l < tasks.len() && (#[trigger] tasks[l]).frames().contains(f);
                assert(tasks[l].sound(k0.mem, k0.space));
                family::lemma_apart_from_kernel(tasks[l], k0.mem, k0.space);
                if s.footprint().contains(f) {
                    assert(tasks[j].frames().contains(f));
                }
            }
        }
        process::lemma_view_kept(s, k0.mem, k.mem, gone, x, need);
    } else {
        lemma_own_keeps(k, k0, frame, now, ctx, r);
        process::lemma_view_kept(s, k0.mem, k.mem, mine, x, need);
    }
    if s.access(k0.mem, x, need) {
        s.lemma_any_access(k0.mem, x, need);
    }
}

/// Every call but a wait keeps to the caller's own pages.
proof fn lemma_own_keeps(k: Kernel, k0: Kernel, frame: TrapFrame, now: u64, ctx: TaskContext, r: Outcome)
    requires
        k0.wf(),
        k0.sched.cpu.current is Some,
        syscall::call_done(k, k0, frame, now, ctx, r),
        frame.x@[17] != nr::SYS_WAITPID,
    ensures
        k.mem.keeps(k0.mem, k0.caller().user_frames()),
{
    let t = k0.caller();
    let mine = t.user_frames();
    let id = frame.x@[17];
    let none = Set::<int>::empty();
    assert(k0.mem.keeps(k0.mem, none));
    if id == nr::SYS_READ && k.mem != k0.mem {
        let n = syscall::smaller(frame.x@[12] as int, k0.uart.rx@.len() as int);
        lemma_wrote_keeps(k.mem, k0.mem, t, frame.x@[11], k0.uart.rx@.take(n));
    } else if k.mem.keeps(k0.mem, none) {
        lemma_keeps_more(k.mem, k0.mem, none, mine);
    }
}

/// No user pointer reaches the kernel: nothing from `USER_MAX_ADDR` on, the upper half
/// and what is not an address at all among it, can be read or written on a process's
/// behalf. Nor can user code get there on its own: no page of the upper half is a user
/// page.
pub proof fn law_kernel_is_out_of_reach(t: Task, mem: Memory, kernel: AddressSpace, x: int, need: u64)
    requires
        mem.wf(),
        t.sound(mem, kernel),
        t.inner.space is Some,
        x < 0 || x >= USER_MAX_ADDR,
    ensures
        !t.inner.space->0.access(mem, x, need),
        0 <= x && addr::table_index(x / 4096, 0) >= 256 ==> match page_table::walk(
            mem,
            t.inner.space->0.root(),
            x / 4096,
        ) {
            Some((l, w)) => w & 16 != 16,
            None => true,
        },
{
    reveal(AddressSpace::sound);
}

/// Every process runs with the kernel mapped: at every step, whatever the kernel's
/// space maps in the upper half the space of a process maps alike, so that a trap out
/// of it finds the kernel.
pub proof fn law_kernel_half_is_shared(k: Kernel, i: int, v: int)
    requires
        k.wf(),
        0 <= i < k.sched.tasks@.len(),
        k.sched.tasks@[i].inner.space is Some,
        0 <= v,
        addr::table_index(v, 0) >= 256,
    ensures
        page_table::walk(k.mem, k.sched.tasks@[i].inner.space->0.root(), v) == page_table::walk(
            k.mem,
            k.space.root(),
            v,
        ),
{
    reveal(AddressSpace::shares);
    let t = k.sched.tasks@[i];
    assert(t.sound(k.mem, k.space));
}

/// The hart never runs in an address space that has been freed: whatever `satp` holds,
/// the root table there is in use, and the kernel is mapped through it.
pub proof fn law_hart_is_in_a_living_space(k: Kernel, v: int)
    requires
        k.wf(),
        0 <= v,
        addr::table_index(v, 0) >= 256,
    ensures
        ({
            let root = k.hart.satp - 0x8000_0000_0000_0000;
            &&& k.mem.used(root)
            &&& page_table::walk(k.mem, root, v) == page_table::walk(k.mem, k.space.root(), v)
        }),
{
    let tasks = k.sched.tasks@;
    if k.hart.satp == k.space.spec_token() {
        k.space.lemma_live(k.mem);
        k.space.spec_table().lemma_wf(k.mem);
        assert(k.space.support().contains(k.space.root()));
    } else {
        let p = kernel::guest(k.sched.cpu)->0;
        let i = choose|i: int|
            0 <= i < tasks.len() && (#[trigger] tasks[i]).pid.0 == p && (tasks[i].inner.space matches Some(s)
                && k.hart.satp == s.spec_token());
        let s = tasks[i].inner.space->0;
        assert(tasks[i].sound(k.mem, k.space));
        s.lemma_live(k.mem);
        s.spec_table().lemma_wf(k.mem);
        assert(s.support().contains(s.root()));
        law_kernel_half_is_shared(k, i, v);
    }
}

/// A status pointer that the caller could not write to fails a wait, and costs nothing:
/// waiting again without one collects the child.
pub proof fn law_bad_status_pointer_costs_nothing(
    k0: Kernel,
    k1: Kernel,
    k2: Kernel,
    want: i64,
    ptr: u64,
    ctx: TaskContext,
    r1: Outcome,
    r2: Outcome,
)
    requires
        !syscall::can_be_told(k0.caller(), k0.mem, ptr),
        ({
            let kids = k0.caller().inner.children@;
            syscall::first_exited(k0.sched.tasks@, kids, want, 0) < kids.len()
        }),
        syscall::wait_done(k1, k0, want, ptr, ctx, r1),
        syscall::wait_done(k2, k1, want, 0, ctx, r2),
    ensures
        r1.spec_value() == Some(nr::EFAULT),
        k1 == k0,
        ({
            let kids = k0.caller().inner.children@;
            let z = syscall::first_exited(k0.sched.tasks@, kids, want, 0);
            r2.spec_value() == Some(kids[z] as i64) && syscall::has_reaped(k2, k0, 0, z)
        }),
{
}

/// A call that is none of the interface is answered with `ENOSYS` and changes nothing.
pub proof fn law_unknown_calls_are_refused(k: Kernel, k0: Kernel, frame: TrapFrame, now: u64, ctx: TaskContext, r: Outcome)
    requires
        frame.x@[17] > nr::SYS_PS,
        syscall::call_done(k, k0, frame, now, ctx, r),
    ensures
        r.spec_value() == Some(nr::ENOSYS),
        k == k0,
{
}

/// The exit status that a wait stores is the one that the child exited with.
pub proof fn law_status_arrives(s: AddressSpace, m0: Memory, mem: Memory, ptr: u64, code: i32)
    requires
        s.reach(m0, ptr as int, 4, 2) == 4,
        s.reach(m0, ptr as int, 4, 4) == 4,
        syscall::wrote(mem, m0, s, ptr, syscall::status_bytes(code)),
    ensures
        s.reach(mem, ptr as int, 4, 2) == 4,
        bits::le(Seq::new(4, |k: int| s.ubyte(mem, ptr + k)), 0, 4) == code as u32,
{
    let data = syscall::status_bytes(code);
    assert(data.take(4) =~= data);
    usercopy::law_copy_round_trip(s, m0, mem, ptr as int, data);
    let got = Seq::new(4, |k: int| s.ubyte(mem, ptr + k));
    assert(got =~= data) by {
        assert forall|k: int| 0 <= k < 4 implies #[trigger] got[k] == data[k] by {
            assert(s.ubyte(mem, ptr + k) == data[k]);
        }
    }
    lemma_status_value(code);
}

pub proof fn lemma_status_value(code: i32)
    ensures
        bits::le(syscall::status_bytes(code), 0, 4) == code as u32,
{
    let data = syscall::status_bytes(code);
    let w = code as u64;
    let b0 = bits::byte_of(w, 0);
    let b1 = bits::byte_of(w, 1);
    let b2 = bits::byte_of(w, 2);
    let b3 = bits::byte_of(w, 3);
    assert(bits::le(data, 0, 4) == b0 + 256 * (b1 + 256 * (b2 + 256 * b3))) by {
        reveal_with_fuel(bits::le, 6);
    }
    assert(b0 + 256 * (b1 + 256 * (b2 + 256 * b3)) == code as u32) by (bit_vector)
        requires
            b0 == bits::byte_of(code as u64, 0),
            b1 == bits::byte_of(code as u64, 1),
            b2 == bits::byte_of(code as u64, 2),
            b3 == bits::byte_of(code as u64, 3),
    ;
}

/// The child that a fork has returned can be waited for by the pid that was returned,
/// and by a wait for any.
pub proof fn law_forked_child_can_be_awaited(k: Kernel, k0: Kernel, frame: TrapFrame, r: i64)
    requires
        k0.wf(),
        k0.sched.cpu.current is Some,
        k.wf(),
        syscall::fork_done(k, k0, frame, r),
        syscall::fork_fits(k0),
    ensures
        syscall::any_wanted(k.caller().inner.children@, r),
        syscall::any_wanted(k.caller().inner.children@, -1i64),
        scheduler::parent_pid(k.sched.tasks@, k.sched.tasks@.len() - 1) == k0.caller().pid.0,
{
    let pid = k0.pids.upcoming();
    let i = scheduler::index(k0.sched.tasks@, k0.sched.cpu.current->0);
    scheduler::lemma_index(k.sched.tasks@, i);
    let kids = k.caller().inner.children@;
    assert(k.caller() == k.sched.tasks@[i]);
    let a = kids.len() - 1;
    assert(kids[a] == pid);
    assert(syscall::wanted(r, kids[a]));
    assert(syscall::wanted(-1i64, kids[a]));
    assert(scheduler::known(k.sched.tasks@, k.sched.tasks@[i].pid.0));
}

/// When a process exits before its children, they are reparented to init, which can
/// wait for them, and they report no parent.
pub proof fn law_orphans_go_to_init(u: Seq<Task>, tasks: Seq<Task>, pid: u64, c: u64)
    requires
        scheduler::distinct(tasks),
        family::kin(tasks),
        scheduler::known(tasks, pid),
        family::hands_over(tasks, pid),
        family::alike(u, tasks),
        family::handed(u, tasks, pid),
        family::children_of(tasks, pid).contains(c),
    ensures
        family::children_of(u, family::INIT).contains(c),
        scheduler::known(u, c),
        scheduler::parent_pid(u, scheduler::index(u, c)) == 0,
        family::children_of(u, pid) == Seq::<u64>::empty(),
{
    family::lemma_alike(u, tasks);
    let kids = family::children_of(tasks, pid);
    let n = scheduler::index(tasks, family::INIT);
    let p = scheduler::index(tasks, pid);
    assert(family::handed_at(u, tasks, pid, kids, n));
    assert(family::handed_at(u, tasks, pid, kids, p));
    let a = choose|a: int| 0 <= a < kids.len() && kids[a] == c;
    assert(u[n].inner.children@[tasks[n].inner.children@.len() + a] == c);
    assert(family::child_ok(tasks, p, a));
    let j = scheduler::index(tasks, c);
    assert(family::handed_at(u, tasks, pid, kids, j));
}

/// A process that has exited stays as a zombie that holds its exit code, for its parent
/// to collect.
pub proof fn law_zombie_keeps_its_status(k: Kernel, k0: Kernel, code: i32, ctx: TaskContext, r: Outcome)
    requires
        k0.wf(),
        k0.sched.cpu.current is Some,
        k.wf(),
        r == Outcome::Exited,
        syscall::exit_done(k, k0, code, ctx, r),
    ensures
        ({
            let pid = k0.sched.cpu.current->0;
            let t = k.sched.tasks@[scheduler::index(k.sched.tasks@, pid)];
            &&& scheduler::known(k.sched.tasks@, pid)
            &&& t.inner.state == TaskState::Zombie
            &&& t.inner.exit_code == code
            &&& t.frames() == k0.caller().inner.kstack.footprint()
        }),
{
    syscall::lemma_exited(k.sched, k0.sched, code, ctx);
    let i = scheduler::index(k0.sched.tasks@, k0.sched.cpu.current->0);
    scheduler::lemma_index(k.sched.tasks@, i);
    let t = k.sched.tasks@[i];
    assert(t.frames() =~= t.inner.kstack.footprint());
}

/// A process that has exited costs nothing but its kernel stack: the frames of its
/// address space are free at once.
pub proof fn law_exit_releases_memory(k: Kernel, k0: Kernel, code: i32, ctx: TaskContext, r: Outcome, f: int)
    requires
        k0.wf(),
        k0.sched.cpu.current is Some,
        syscall::exit_done(k, k0, code, ctx, r),
        k0.caller().user_frames().contains(f),
    ensures
        !k.mem.used(f),
        k.mem.free() == k0.mem.free() + k0.caller().user_frames().len(),
{
}

/// A fork that fails takes no memory: there is as much free as before, and every frame
/// in use holds what it held.
pub proof fn law_failed_fork_costs_nothing(k: Kernel, k0: Kernel, frame: TrapFrame, r: i64, f: int)
    requires
        k0.wf(),
        k0.sched.cpu.current is Some,
        syscall::fork_done(k, k0, frame, r),
        !syscall::fork_fits(k0),
        k0.mem.used(f),
    ensures
        r < 0,
        k.sched == k0.sched,
        k.mem.free() == k0.mem.free(),
        k.mem.used(f),
        k.mem.same_frame(k0.mem, f),
{
}

} // verus!
