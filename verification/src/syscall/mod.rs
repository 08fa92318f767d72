//! System call dispatch.
//!
//! User pointers are never dereferenced directly. Each one is translated through
//! the page table and copied via the linear map, which turns a bad pointer into an
//! error return instead of a kernel page fault, and enforces that the user could
//! have done the access itself.
//!
//! `sepc` is advanced by 4 before dispatch. The `ecall` instruction leaves it
//! pointing *at* the `ecall`, so returning without advancing would re-execute the
//! syscall forever. Doing it up front rather than after means `fork`, whose child
//! resumes from a copy of this frame, does not need to remember to.
//!
//! A call that has to wait parks the caller, and is made again once the caller
//! runs.

use vstd::prelude::*;

pub mod interface;
pub mod laws;
pub mod nr;

use crate::arch::{self, Hart};
use crate::bits;
use crate::config::{TIMER_FREQ, USER_MAX_ADDR};
use crate::drivers::uart::{self, Uart};
use crate::kernel::{self, Kernel};
use crate::loader;
use crate::mm::addr::VirtAddr;
use crate::mm::frame::Memory;
use crate::mm::space::{self, AddressSpace};
use crate::sync::wait::{self, Step};
use crate::programs;
use crate::task::args;
use crate::task::family;
use crate::task::image;
use crate::task::process;
use crate::task::queue;
use crate::task::scheduler::{self, Row, Runnable, Scheduler, StackOverflow};
use crate::task::{Task, TaskContext, TaskInner, TaskState};
use crate::timer;
use crate::trap::TrapFrame;

verus! {

/// Longest path or argument string a syscall will copy in, with its terminator.
pub const MAX_STR: usize = 256;

/// Largest single read or write.
pub const MAX_IO: u64 = 64 * 1024;

/// Most arguments `exec` will accept.
pub const MAX_ARGS: u64 = 32;

/// How a system call ended.
pub enum Outcome {
    /// Return the value to the caller.
    Return(i64),
    /// Transmit the bytes, and return their number to the caller.
    Write(Vec<u8>),
    /// Print the task table, and return 0 to the caller.
    Table(Vec<Row>),
    /// Report an unknown call, and return `ENOSYS` to the caller.
    Unknown(u64),
    /// The caller runs another program now: its trap frame is a new one, and no
    /// value is returned.
    Started,
    /// The caller gave up the hart. Once it runs again, restore interrupts if the
    /// flag says so, and return 0.
    Yielded(bool),
    /// The caller is parked. Once it runs again, restore interrupts if the flag
    /// says so, let it leave the queue with [`Kernel::resume`], and make the call
    /// again.
    Parked(bool),
    /// The caller has exited.
    Exited,
    /// The caller's kernel stack has overflowed: a bug, report it and stop.
    Overflow(StackOverflow),
}

impl Outcome {
    /// The value for the caller's `a0`, if the call returns one.
    pub open spec fn spec_value(&self) -> Option<i64> {
        match *self {
            Outcome::Return(v) => Some(v),
            Outcome::Write(b) => Some(b@.len() as i64),
            Outcome::Table(_) => Some(0),
            Outcome::Unknown(_) => Some(nr::ENOSYS),
            Outcome::Started => None,
            Outcome::Yielded(_) => Some(0),
            Outcome::Parked(_) => None,
            Outcome::Exited => None,
            Outcome::Overflow(_) => None,
        }
    }

    /// The value for the caller's `a0`, if the call returns one: a write returns the
    /// number of its bytes, an unknown call `ENOSYS`. A call that starts a program,
    /// parks the caller or ends it returns none.
    pub fn value(&self) -> (r: Option<i64>)
        ensures
            r == self.spec_value(),
    {
        match self {
            Outcome::Return(v) => Some(*v),
            Outcome::Write(b) => Some(
                #[verifier::truncate]
                (b.len() as i64),
            ),
            Outcome::Table(_) => Some(0),
            Outcome::Unknown(_) => Some(nr::ENOSYS),
            Outcome::Started => None,
            Outcome::Yielded(_) => Some(0),
            Outcome::Parked(_) => None,
            Outcome::Exited => None,
            Outcome::Overflow(_) => None,
        }
    }
}

/// An outcome as that of a blocking step.
pub open spec fn step_of(r: Outcome) -> Result<Step, StackOverflow> {
    match r {
        Outcome::Parked(was) => Ok(Step::Parked(was)),
        Outcome::Overflow(e) => Err(e),
        _ => Ok(Step::Done),
    }
}

/// A step that did not complete, as the outcome of a call.
fn parked(step: Result<Step, StackOverflow>) -> (r: Outcome)
    requires
        step != Ok::<Step, StackOverflow>(Step::Done),
    ensures
        step_of(r) == step,
{
    match step {
        Ok(Step::Parked(was)) => Outcome::Parked(was),
        Ok(Step::Done) => Outcome::Parked(false),
        Err(e) => Outcome::Overflow(e),
    }
}

/// The caller's place in the task table.
fn caller_index(k: &Kernel) -> (i: usize)
    requires
        k.wf(),
        k.sched.cpu.current is Some,
    ensures
        i < k.sched.tasks@.len(),
        i == scheduler::index(k.sched.tasks@, k.sched.cpu.current->0),
        k.sched.tasks@[i as int] == k.caller(),
        k.caller().pid.0 == k.sched.cpu.current->0,
        k.caller().inner.state == TaskState::Running,
        k.caller().sound(k.mem, k.space),
        k.caller().inner.kstack.valid(k.mem),
{
    let pid: u64 = match scheduler::current(&k.sched) {
        Some(pid) => pid,
        None => 0,
    };
    match k.sched.find(pid) {
        Some(i) => {
            assert(k.sched.tasks@[i as int].sound(k.mem, k.space));
            i
        },
        None => {
            assert(false);
            0
        },
    }
}

/// Can `len` bytes at `ptr` be a buffer for reading or writing?
pub open spec fn buffer_in_range(ptr: u64, len: u64) -> bool {
    len <= MAX_IO && ptr + len <= USER_MAX_ADDR
}

/// Can `t` read the `len` bytes at `ptr`, and may it ask for them?
pub open spec fn readable(t: Task, mem: Memory, ptr: u64, len: u64) -> bool {
    &&& buffer_in_range(ptr, len)
    &&& t.inner.space matches Some(s) && s.reach(mem, ptr as int, len as int, 2) == len
}

/// The `len` bytes at `ptr`, as `t` sees them.
pub open spec fn bytes_at(t: Task, mem: Memory, ptr: u64, len: u64) -> Seq<u8> {
    Seq::new(len as nat, |j: int| t.inner.space->0.ubyte(mem, ptr + j))
}

/// `len` zero bytes.
fn zeroes(len: usize) -> (r: Vec<u8>)
    ensures
        r@.len() == len,
{
    let mut buf: Vec<u8> = Vec::new();
    while buf.len() < len
        invariant
            buf@.len() <= len,
        decreases len - buf@.len(),
    {
        buf.push(0);
    }
    buf
}

/// Copy a user buffer into the kernel, rejecting anything out of range.
pub fn read_user_buf(k: &Kernel, ptr: u64, len: u64) -> (r: Option<Vec<u8>>)
    requires
        k.wf(),
        k.sched.cpu.current is Some,
    ensures
        r is Some <==> readable(k.caller(), k.mem, ptr, len),
        r matches Some(b) ==> b@ == bytes_at(k.caller(), k.mem, ptr, len),
{
    if len > MAX_IO {
        return None;
    }
    match ptr.checked_add(len) {
        Some(end) => {
            if end > USER_MAX_ADDR {
                return None;
            }
        },
        None => {
            return None;
        },
    }
    let i: usize = caller_index(k);
    match &k.sched.tasks[i].inner.space {
        Some(space) => {
            let mut buf: Vec<u8> = zeroes(len as usize);
            match space.copy_from_user(&k.mem, VirtAddr(ptr), &mut buf) {
                Some(_) => {
                    assert(buf@ =~= bytes_at(k.caller(), k.mem, ptr, len));
                    Some(buf)
                },
                None => None,
            }
        },
        None => None,
    }
}

/// How a write ends.
pub open spec fn write_done(k: Kernel, fd: u64, ptr: u64, len: u64, r: Outcome) -> bool {
    if fd != nr::STDOUT && fd != nr::STDERR {
        r == Outcome::Return(nr::EBADF)
    } else if !readable(k.caller(), k.mem, ptr, len) {
        r == Outcome::Return(nr::EFAULT)
    } else {
        r matches Outcome::Write(b) && b@ == bytes_at(k.caller(), k.mem, ptr, len)
    }
}

/// Write to the console. The bytes go out as they are: a program's output is not
/// the kernel's to reinterpret.
pub fn sys_write(k: &Kernel, fd: u64, ptr: u64, len: u64) -> (r: Outcome)
    requires
        k.wf(),
        k.sched.cpu.current is Some,
    ensures
        write_done(*k, fd, ptr, len, r),
{
    if fd != nr::STDOUT && fd != nr::STDERR {
        return Outcome::Return(nr::EBADF);
    }
    match read_user_buf(k, ptr, len) {
        Some(buf) => Outcome::Write(buf),
        None => Outcome::Return(nr::EFAULT),
    }
}

/// The memory after a copy of `data` to `va` in space `s`: as much of it as the user
/// could have written, up to the first byte that it could not.
pub open spec fn wrote(mem: Memory, before: Memory, s: AddressSpace, va: u64, data: Seq<u8>) -> bool {
    &&& mem.allocator() == before.allocator()
    &&& mem.same_but(before, space::frames_of(s.regions()))
    &&& space::unmoved(mem, before, s.root())
    &&& s.stored(mem, before, va as int, data.take(s.reach(before, va as int, data.len() as int, 4)))
}

/// A task's own pages were written: nobody else notices.
proof fn lemma_written(tasks: Seq<Task>, i: int, m0: Memory, mem: Memory, kernel: AddressSpace)
    requires
        m0.wf(),
        mem.wf(),
        kernel.wf(m0),
        kernel.supervisor(m0),
        family::backed(tasks, m0, kernel),
        0 <= i < tasks.len(),
        tasks[i].inner.space is Some,
        mem.allocator() == m0.allocator(),
        mem.same_but(m0, space::frames_of(tasks[i].inner.space->0.regions())),
        tasks[i].inner.space->0.wf(mem),
        space::unmoved(mem, m0, tasks[i].inner.space->0.root()),
    ensures
        family::backed(tasks, mem, kernel),
        kernel.wf(mem),
        kernel.supervisor(mem),
{
    let t = tasks[i];
    let touched = space::frames_of(t.inner.space->0.regions());
    assert(t.sound(m0, kernel));
    assert(touched.subset_of(t.frames()));
    family::lemma_apart_from_kernel(t, m0, kernel);
    assert(mem.keeps(m0, touched));
    process::lemma_survives(kernel, m0, mem, touched);
    assert forall|j: int| 0 <= j < tasks.len() implies (#[trigger] tasks[j]).sound(mem, kernel) by {
        assert(tasks[j].sound(m0, kernel));
        if j != i {
            assert(tasks[i].frames().disjoint(tasks[j].frames()));
            tasks[j].lemma_kept(m0, mem, kernel, touched);
        } else {
            let s = t.inner.space->0;
            t.inner.kstack.lemma_valid(m0);
            t.inner.kstack.lemma_still_valid(m0, mem);
            s.lemma_still_shares(s, m0, mem, kernel);
        }
    }
}

/// The caller stopped running and was neither ended nor changed otherwise.
proof fn lemma_stopped(k: Kernel, k0: Kernel, state: TaskState, ctx: TaskContext)
    requires
        k0.wf(),
        k0.sched.cpu.current is Some,
        state == TaskState::Blocked || state == TaskState::Ready,
        k.sched.wf(),
        k.sched.left(k0.sched, state, ctx),
        k.mem == k0.mem,
        k.space == k0.space,
        k.pids == k0.pids,
        k.uart.rx == k0.uart.rx,
        k.hart.satp == k0.hart.satp,
    ensures
        readers_kept(k, k0) ==> k.wf(),
{
    let u = k.sched.tasks@;
    let tasks = k0.sched.tasks@;
    let i = scheduler::index(tasks, k0.sched.cpu.current->0);
    let inner = scheduler::parked(tasks[i].inner, state, ctx);
    family::lemma_rescheduled(u, tasks, i, inner, k.mem, k.space);
    assert forall|j: int| 0 <= j < tasks.len() implies #[trigger] kernel::census_at(u, tasks, None, j) by {}
    kernel::lemma_census(u, tasks, None, k0.uart.readers@, k.pids.upcoming());
    kernel::lemma_grounded(k, k0);
    if readers_kept(k, k0) {
        assert(u[i].pid.0 == k0.sched.cpu.current->0);
        lemma_readers(u, k.uart.readers@, k0.uart.readers@, k0.sched.cpu.current->0);
    }
}

/// Those who wait for input are those who did, and perhaps the caller.
spec fn readers_kept(k: Kernel, k0: Kernel) -> bool {
    k.uart.readers@ == k0.uart.readers@ || (k.uart.readers@ == k0.uart.readers@.push(k0.sched.cpu.current->0)
        && !k0.uart.readers@.contains(k0.sched.cpu.current->0))
}

proof fn lemma_readers(tasks: Seq<Task>, after: Seq<u64>, before: Seq<u64>, pid: u64)
    requires
        kernel::readers_ok(before, tasks),
        kernel::lives(tasks, pid),
        after == before || (after == before.push(pid) && !before.contains(pid)),
    ensures
        kernel::readers_ok(after, tasks),
{
    if after != before {
        assert forall|a: int, b: int| 0 <= a < after.len() && 0 <= b < after.len() && a != b implies after[a]
            != after[b] by {
            if a == before.len() {
                assert(before.contains(before[b]));
            } else if b == before.len() {
                assert(before.contains(before[a]));
            }
        }
        assert forall|a: int| 0 <= a < after.len() implies kernel::lives(tasks, #[trigger] after[a]) by {
            if a < before.len() {
                assert(after[a] == before[a]);
            }
        }
    }
}

/// The smaller of two numbers.
pub open spec fn smaller(a: int, b: int) -> int {
    if a < b {
        a
    } else {
        b
    }
}

/// Take up to `len` bytes of input.
fn take_input(uart: &mut Uart, len: u64) -> (r: Vec<u8>)
    requires
        old(uart).rx.wf(),
        len <= MAX_IO,
    ensures
        final(uart).rx.wf(),
        final(uart).ready == old(uart).ready,
        final(uart).readers == old(uart).readers,
        ({
            let n = smaller(len as int, old(uart).rx@.len() as int);
            &&& r@ == old(uart).rx@.take(n)
            &&& final(uart).rx@ == old(uart).rx@.skip(n)
        }),
{
    let ghost all = uart.rx@;
    let mut buf: Vec<u8> = Vec::new();
    assert(all.skip(0) =~= all);
    while buf.len() < len as usize
        invariant
            uart.rx.wf(),
            uart.ready == old(uart).ready,
            uart.readers == old(uart).readers,
            all == old(uart).rx@,
            len <= MAX_IO,
            buf@.len() <= len,
            buf@.len() <= all.len(),
            buf@ == all.take(buf@.len() as int),
            uart.rx@ == all.skip(buf@.len() as int),
        decreases len - buf@.len(),
    {
        let ghost n = buf@.len() as int;
        match uart::read_byte(uart) {
            Some(b) => {
                buf.push(b);
                assert(all.skip(n)[0] == all[n]);
                assert(buf@ =~= all.take(n + 1));
                assert(all.skip(n).skip(1) =~= all.skip(n + 1));
            },
            None => {
                return buf;
            },
        }
    }
    buf
}

/// How a read ends: it fails, it parks the caller because nothing is buffered, or it
/// hands over what is.
pub open spec fn read_done(k: Kernel, k0: Kernel, fd: u64, ptr: u64, len: u64, ctx: TaskContext, r: Outcome) -> bool {
    if fd != nr::STDIN {
        r == Outcome::Return(nr::EBADF) && k == k0
    } else if len == 0 {
        r == Outcome::Return(0) && k == k0
    } else if !buffer_in_range(ptr, len) {
        r == Outcome::Return(nr::EFAULT) && k == k0
    } else if k0.uart.rx@.len() == 0 {
        &&& k.mem == k0.mem
        &&& k.pids == k0.pids
        &&& k.uart.rx == k0.uart.rx
        &&& k.uart.readers@ == k0.uart.readers@.push(k0.sched.cpu.current->0)
        &&& wait::parks(
            k.sched,
            k0.sched,
            k0.mem,
            k.hart,
            k0.hart,
            ctx,
            step_of(r),
        )
    } else {
        let n = smaller(len as int, k0.uart.rx@.len() as int);
        let data = k0.uart.rx@.take(n);
        &&& k.sched == k0.sched
        &&& k.pids == k0.pids
        &&& k.hart == k0.hart
        &&& k.uart.readers == k0.uart.readers
        &&& k.uart.rx@ == k0.uart.rx@.skip(n)
        &&& match k0.caller().inner.space {
            Some(s) => {
                &&& wrote(k.mem, k0.mem, s, ptr, data)
                &&& r == Outcome::Return(
                    if s.reach(k0.mem, ptr as int, n, 4) == n {
                        n as i64
                    } else {
                        nr::EFAULT
                    },
                )
            },
            None => r == Outcome::Return(nr::EFAULT) && k.mem == k0.mem,
        }
    }
}

/// Read from the console.
///
/// Blocks until at least one byte is available, then takes what is buffered.
/// Returning short is correct for a character device and is what makes a
/// line-at-a-time shell possible. Bytes that cannot be stored are lost.
#[verifier::rlimit(40)]
pub fn sys_read(k: &mut Kernel, fd: u64, ptr: u64, len: u64, ctx: TaskContext) -> (r: Outcome)
    requires
        old(k).wf(),
        old(k).awake(),
    ensures
        final(k).wf(),
        final(k).same_board(*old(k)),
        read_done(*final(k), *old(k), fd, ptr, len, ctx, r),
{
    let ghost k0 = *k;
    if fd != nr::STDIN {
        return Outcome::Return(nr::EBADF);
    }
    if len == 0 {
        return Outcome::Return(0);
    }
    if len > MAX_IO {
        return Outcome::Return(nr::EFAULT);
    }
    match ptr.checked_add(len) {
        Some(end) => {
            if end > USER_MAX_ADDR {
                return Outcome::Return(nr::EFAULT);
            }
        },
        None => {
            return Outcome::Return(nr::EFAULT);
        },
    }
    let i: usize = caller_index(k);
    let ready: bool = uart::has_input(&k.uart);
    let step = k.uart.readers.wait_until(ready, &mut k.sched, &k.mem, &mut k.hart, ctx);
    if !ready {
        proof {
            if step is Ok {
                lemma_stopped(*k, k0, TaskState::Blocked, ctx);
            } else {
                assert(k.sched.tasks@[i as int].pid.0 == k0.sched.cpu.current->0);
                lemma_readers(
                    k.sched.tasks@,
                    k.uart.readers@,
                    k0.uart.readers@,
                    k0.sched.cpu.current->0,
                );
            }
        }
        return parked(step);
    }
    let buf: Vec<u8> = take_input(&mut k.uart, len);
    match &k.sched.tasks[i].inner.space {
        Some(space) => {
            let done = space.copy_to_user(&mut k.mem, VirtAddr(ptr), buf.as_slice());
            proof {
                lemma_written(k.sched.tasks@, i as int, k0.mem, k.mem, k.space);
            }
            match done {
                Some(_) => Outcome::Return(buf.len() as i64),
                None => Outcome::Return(nr::EFAULT),
            }
        },
        None => Outcome::Return(nr::EFAULT),
    }
}

/// The parent's process id.
pub fn sys_getppid(k: &Kernel) -> (r: i64)
    requires
        k.wf(),
        k.sched.cpu.current is Some,
    ensures
        r == scheduler::parent_pid(
            k.sched.tasks@,
            scheduler::index(k.sched.tasks@, k.sched.cpu.current->0),
        ) as i64,
{
    let i: usize = caller_index(k);
    scheduler::parent_of(&k.sched, i) as i64
}

/// The caller has a new child `c`, and nothing else about it has changed.
pub open spec fn with_child(t: Task, t0: Task, c: u64) -> bool {
    &&& t == (Task { inner: TaskInner { children: t.inner.children, ..t0.inner }, ..t0 })
    &&& t.inner.children@ == t0.inner.children@.push(c)
}

/// Are there frames for a copy of the caller?
pub open spec fn fork_fits(k: Kernel) -> bool {
    process::fork_left(k.caller(), k.mem.free()) matches Some(left) && process::stack_left(
        k.mem,
        k.mem.free() - left,
    )
}

/// The kernel after the caller has forked: the child is a copy of it that is ready
/// to run, and a child of it.
pub open spec fn has_forked(k: Kernel, k0: Kernel, frame: TrapFrame) -> bool {
    let tasks = k0.sched.tasks@;
    let i = scheduler::index(tasks, k0.sched.cpu.current->0);
    let pid = k0.pids.upcoming();
    let child = k.sched.tasks@.last();
    &&& k.sched.tasks@ == tasks.update(i, k.sched.tasks@[i]).push(child)
    &&& with_child(k.sched.tasks@[i], k0.caller(), pid)
    &&& child.pid.0 == pid
    &&& process::is_child(child, k.mem, k0.caller(), k0.mem, k0.space, k0.hart, k0.entries, frame)
    &&& k.sched.queue.levels() == queue::pushed(k0.sched.queue.levels(), 0, pid)
    &&& k.sched.queue.created() == k0.sched.queue.created() + 1
    &&& k.sched.cpu == k0.sched.cpu
    &&& k.mem.took(k0.mem, child.frames())
    &&& k.pids.upcoming() == pid + 1
}

/// How a fork ends: in a child, or, for want of frames, with everything as it was.
pub open spec fn fork_done(k: Kernel, k0: Kernel, frame: TrapFrame, r: i64) -> bool {
    &&& k.hart == k0.hart
    &&& k.uart == k0.uart
    &&& if fork_fits(k0) {
        r == k0.pids.upcoming() as i64 && has_forked(k, k0, frame)
    } else {
        &&& r == nr::ENOMEM
        &&& k.sched == k0.sched
        &&& k.pids == k0.pids
        &&& k.mem.took(k0.mem, Set::empty())
    }
}

/// Duplicate the calling process.
///
/// The child gets a copy of the parent's address space and a copy of this trap
/// frame with `a0` forced to zero, which is how the two halves of a fork tell
/// themselves apart on return.
#[verifier::rlimit(40)]
pub fn sys_fork(k: &mut Kernel, frame: &TrapFrame) -> (r: i64)
    requires
        old(k).wf(),
        old(k).sched.cpu.current is Some,
        old(k).pids.upcoming() < u64::MAX,
        old(k).sched.queue.created() < u64::MAX,
    ensures
        final(k).wf(),
        final(k).same_board(*old(k)),
        fork_done(*final(k), *old(k), *frame, r),
{
    let ghost k0 = *k;
    let i: usize = caller_index(k);
    let made = Task::fork_from(
        &k.sched.tasks[i],
        &mut k.mem,
        &mut k.pids,
        &k.space,
        &k.hart,
        &k.entries,
        frame,
    );
    match made {
        None => {
            proof {
                kernel::lemma_grounded(*k, k0);
                family::lemma_backed_kept(k.sched.tasks@, k0.mem, k.mem, k.space, Set::empty());
            }
            nr::ENOMEM
        },
        Some(child) => {
            let pid: u64 = child.pid.0;
            let ghost m1 = k.mem;
            let ghost tasks = k0.sched.tasks@;
            let ghost readers = k.uart.readers@;
            proof {
                family::lemma_numbered(tasks, pid);
                assert(family::numbered_at(tasks, pid, i as int));
            }
            k.sched.tasks[i].inner.children.push(pid);
            let ghost mid = k.sched.tasks@;
            let ghost inner = mid[i as int].inner;
            proof {
                assert(mid =~= scheduler::with_inner(tasks, i as int, inner));
                assert forall|j: int| 0 <= j < tasks.len() implies #[trigger] family::alike_at(mid, tasks, j) by {}
                family::lemma_alike(mid, tasks);
                family::lemma_alike_wf(k.sched, k0.sched);
            }
            let ghost t = child;
            scheduler::enroll(&mut k.sched, child);
            proof {
                let u = k.sched.tasks@;
                assert(u == mid.push(t));
                family::lemma_kin_fork(tasks, i as int, inner, t, pid);
                family::lemma_same_holdings(mid, tasks, k0.mem, k.space);
                family::lemma_backed_join(mid, t, k0.mem, m1, k.space);
                assert forall|j: int| 0 <= j < u.len() implies #[trigger] family::numbered_at(
                    u,
                    k.pids.upcoming(),
                    j,
                ) by {
                    assert(family::numbered_at(tasks, pid, i as int));
                    if j < tasks.len() {
                        assert(family::numbered_at(tasks, pid, j));
                    }
                }
                assert forall|j: int| 0 <= j < u.len() implies kernel::heap_ok(#[trigger] u[j]) by {
                    assert(kernel::heap_ok(tasks[i as int]));
                    if j < tasks.len() {
                        assert(kernel::heap_ok(tasks[j]));
                    }
                }
                assert forall|a: int| 0 <= a < readers.len() implies kernel::lives(u, #[trigger] readers[a]) by {
                    assert(kernel::lives(tasks, readers[a]));
                    let j = choose|j: int|
                        0 <= j < tasks.len() && (#[trigger] tasks[j]).pid.0 == readers[a] && tasks[j].inner.state
                            != TaskState::Zombie;
                    assert(u[j].pid.0 == readers[a] && u[j].inner.state == tasks[j].inner.state);
                }
                assert(u.last() == t);
                assert(u =~= tasks.update(i as int, u[i as int]).push(t));
                kernel::lemma_grounded(*k, k0);
            }
            pid as i64
        },
    }
}

/// The strings that the argument vector at `argv` names from slot `i` on, as space
/// `s` shows it: up to its null pointer, or to the most arguments allowed. `None`
/// where a slot or a string cannot be read.
pub open spec fn user_args(s: AddressSpace, mem: Memory, argv: int, i: int) -> Option<Seq<Seq<u8>>>
    decreases MAX_ARGS - i,
{
    let slot = argv + 8 * i;
    if i >= MAX_ARGS {
        Some(Seq::empty())
    } else if s.reach(mem, slot, 8, 2) != 8 {
        None
    } else if s.uword(mem, slot) == 0 {
        Some(Seq::empty())
    } else {
        match s.cstr(mem, s.uword(mem, slot), MAX_STR as int) {
            None => None,
            Some(first) => prefixed(seq![first], user_args(s, mem, argv, i + 1)),
        }
    }
}

/// `rest` after `first`, if there is a rest.
pub open spec fn prefixed(first: Seq<Seq<u8>>, rest: Option<Seq<Seq<u8>>>) -> Option<Seq<Seq<u8>>> {
    match rest {
        None => None,
        Some(rest) => Some(first + rest),
    }
}

/// Strings by their bytes.
pub open spec fn strings_of(a: Seq<Vec<u8>>) -> Seq<Seq<u8>> {
    Seq::new(a.len(), |i: int| a[i]@)
}

/// The arguments of a call of `exec`: no vector at all is an empty one.
pub open spec fn exec_args(s: AddressSpace, mem: Memory, argv: u64) -> Option<Seq<Seq<u8>>> {
    if argv == 0 {
        Some(Seq::empty())
    } else {
        user_args(s, mem, argv as int, 0)
    }
}

/// A pointer out of user memory.
fn read_pointer(s: &AddressSpace, mem: &Memory, va: u64) -> (r: Option<u64>)
    requires
        mem.wf(),
        s.wf(*mem),
        s.is_user(),
    ensures
        r is Some <==> s.reach(*mem, va as int, 8, 2) == 8,
        r matches Some(p) ==> p == s.uword(*mem, va as int),
{
    let mut slot: Vec<u8> = zeroes(8);
    match s.copy_from_user(mem, VirtAddr(va), &mut slot) {
        None => None,
        Some(_) => {
            assert(slot@ =~= Seq::new(8, |k: int| s.ubyte(*mem, va + k)));
            Some(bits::read_le(slot.as_slice(), 0, 8))
        },
    }
}

/// A string shorter than the limit has fewer bytes than that.
proof fn lemma_cstr_len(s: AddressSpace, mem: Memory, va: int, max: int)
    ensures
        s.cstr(mem, va, max) matches Some(c) ==> c.len() < max,
    decreases max,
{
    if max > 0 {
        lemma_cstr_len(s, mem, va + 1, max - 1);
    }
}

/// Read the argument vector.
fn read_args(s: &AddressSpace, mem: &Memory, argv: u64) -> (r: Option<Vec<Vec<u8>>>)
    requires
        mem.wf(),
        s.wf(*mem),
        s.is_user(),
    ensures
        match exec_args(*s, *mem, argv) {
            None => r is None,
            Some(a) => r matches Some(v) && strings_of(v@) == a,
        },
        r matches Some(v) ==> v@.len() <= MAX_ARGS && forall|i: int|
            0 <= i < v@.len() ==> (#[trigger] v@[i])@.len() < MAX_STR,
{
    let mut a: Vec<Vec<u8>> = Vec::new();
    if argv == 0 {
        assert(strings_of(a@) =~= Seq::empty());
        return Some(a);
    }
    let mut i: u64 = 0;
    proof {
        let rest = user_args(*s, *mem, argv as int, 0);
        assert(strings_of(a@) =~= Seq::empty());
        if rest is Some {
            assert(strings_of(a@) + rest->0 =~= rest->0);
        }
    }
    while i < MAX_ARGS
        invariant
            mem.wf(),
            s.wf(*mem),
            s.is_user(),
            argv != 0,
            i <= MAX_ARGS,
            a@.len() == i,
            user_args(*s, *mem, argv as int, 0) == prefixed(
                strings_of(a@),
                user_args(*s, *mem, argv as int, i as int),
            ),
            forall|j: int| 0 <= j < a@.len() ==> (#[trigger] a@[j])@.len() < MAX_STR,
        decreases MAX_ARGS - i,
    {
        let ghost rest = user_args(*s, *mem, argv as int, i as int);
        let slot: u64 = match argv.checked_add(i * 8) {
            Some(slot) => slot,
            None => {
                assert(!s.access(*mem, argv + 8 * i, 2));
                assert(s.reach(*mem, argv + 8 * i, 8, 2) == 0);
                return None;
            },
        };
        let p: u64 = match read_pointer(s, mem, slot) {
            Some(p) => p,
            None => {
                return None;
            },
        };
        if p == 0 {
            assert(strings_of(a@) + Seq::<Seq<u8>>::empty() =~= strings_of(a@));
            return Some(a);
        }
        match s.read_cstr(mem, VirtAddr(p), MAX_STR) {
            Some(text) => {
                let ghost before = a@;
                proof {
                    lemma_cstr_len(*s, *mem, p as int, MAX_STR as int);
                }
                let ghost t = text;
                a.push(text);
                proof {
                    let more = user_args(*s, *mem, argv as int, i + 1);
                    assert(rest == prefixed(seq![t@], more));
                    assert(strings_of(a@) =~= strings_of(before) + seq![t@]);
                    if more is Some {
                        assert(strings_of(before) + (seq![t@] + more->0) =~= strings_of(a@) + more->0);
                    }
                }
            },
            None => {
                return None;
            },
        }
        i = i + 1;
    }
    assert(strings_of(a@) + Seq::<Seq<u8>>::empty() =~= strings_of(a@));
    Some(a)
}

/// The arguments fit in a word.
proof fn lemma_room(a: Seq<Vec<u8>>, n: int)
    requires
        0 <= n <= a.len(),
        forall|i: int| 0 <= i < a.len() ==> (#[trigger] a[i])@.len() < MAX_STR,
    ensures
        0 <= args::room(a, n) <= n * 264,
    decreases n,
{
    if n > 0 {
        lemma_room(a, n - 1);
        assert(a[n - 1]@.len() < MAX_STR);
    }
}

/// What `exec` of `image` with arguments `a` does to the caller: it runs the new
/// program, or nothing about it has changed.
pub open spec fn execs(k: Kernel, k0: Kernel, path: Seq<u8>, image: Seq<u8>, a: Seq<Vec<u8>>, r: i64) -> bool {
    &&& k.pids == k0.pids
    &&& k.uart == k0.uart
    &&& match image::exec_result(image, a, k0.mem.free()) {
        Ok(o) => {
            let i = scheduler::index(k0.sched.tasks@, k0.sched.cpu.current->0);
            &&& r == 0
            &&& k.sched.tasks@ == k0.sched.tasks@.update(i, k.caller())
            &&& k.sched.queue == k0.sched.queue
            &&& k.sched.cpu == k0.sched.cpu
            &&& process::replaced(k.caller(), k.mem, k0.caller(), k0.space, k0.hart, path, image, a, o)
            &&& k.mem.keeps(k0.mem, k0.caller().user_frames())
            &&& k.mem.free() == o.free + k0.caller().user_frames().len()
            &&& k.hart.satp == process::home(k.caller(), k0.space)
            &&& k.hart == (Hart { satp: k.hart.satp, ..k0.hart })
        },
        Err(_) => {
            &&& r == nr::ENOMEM
            &&& k.sched.tasks@ == k0.sched.tasks@
            &&& k.sched.queue == k0.sched.queue
            &&& k.sched.cpu == k0.sched.cpu
            &&& k.hart == k0.hart
            &&& k.mem.took(k0.mem, Set::empty())
        },
    }
}

/// How an exec ends: a pointer is bad, there is no such program, or what
/// [`execs`] says.
pub open spec fn exec_done(k: Kernel, k0: Kernel, path_ptr: u64, argv_ptr: u64, r: i64) -> bool {
    match k0.caller().inner.space {
        None => r == nr::EFAULT && k == k0,
        Some(s) => match (
            s.cstr(k0.mem, path_ptr as int, MAX_STR as int),
            exec_args(s, k0.mem, argv_ptr),
        ) {
            (Some(path), Some(args)) => match programs::found(k0.programs@, path) {
                None => r == nr::ENOENT && k == k0,
                Some(image) => exists|a: Seq<Vec<u8>>|
                    strings_of(a) == args && #[trigger] execs(k, k0, path, image, a, r),
            },
            _ => r == nr::EFAULT && k == k0,
        },
    }
}

/// Replace the current image.
///
/// The path and the arguments are read out of the *old* space before it is torn
/// down: every pointer becomes meaningless the moment exec succeeds.
#[verifier::rlimit(60)]
pub fn sys_exec(k: &mut Kernel, path_ptr: u64, argv_ptr: u64) -> (r: i64)
    requires
        old(k).wf(),
        old(k).sched.cpu.current is Some,
    ensures
        final(k).wf(),
        final(k).same_board(*old(k)),
        exec_done(*final(k), *old(k), path_ptr, argv_ptr, r),
{
    let ghost k0 = *k;
    let i: usize = caller_index(k);
    let (path, a): (Vec<u8>, Vec<Vec<u8>>) = match &k.sched.tasks[i].inner.space {
        None => {
            return nr::EFAULT;
        },
        Some(space) => {
            let path: Vec<u8> = match space.read_cstr(&k.mem, VirtAddr(path_ptr), MAX_STR) {
                Some(path) => path,
                None => {
                    return nr::EFAULT;
                },
            };
            match read_args(space, &k.mem, argv_ptr) {
                Some(a) => (path, a),
                None => {
                    return nr::EFAULT;
                },
            }
        },
    };
    proof {
        lemma_room(a@, a@.len() as int);
    }
    let image: &[u8] = match programs::find(k.programs.as_slice(), path.as_slice()) {
        Some(image) => image,
        None => {
            return nr::ENOENT;
        },
    };
    let ghost img = image@;
    let done = process::exec_current(
        &mut k.sched.tasks[i],
        &mut k.mem,
        &k.space,
        &mut k.hart,
        path.as_slice(),
        image,
        &a,
    );
    let ghost tasks = k0.sched.tasks@;
    let ghost u = k.sched.tasks@;
    let ghost t = u[i as int];
    proof {
        assert(u =~= tasks.update(i as int, t));
    }
    match done {
        Ok(_) => {
            proof {
                let o = image::exec_result(img, a@, k0.mem.free())->Ok_0;
                loader::lemma_brk_page(img, k0.mem.free());
                family::lemma_backed_changed(tasks, i as int, t, k0.mem, k.mem, k.space);
                assert forall|j: int| 0 <= j < tasks.len() implies #[trigger] family::same_place_at(u, tasks, j) by {}
                family::lemma_same_place(k.sched, k0.sched);
                assert forall|j: int| 0 <= j < tasks.len() implies #[trigger] family::same_kin_at(u, tasks, j) by {}
                assert forall|j: int| 0 <= j < tasks.len() implies #[trigger] family::exit_queue_ok(u, j) by {
                    assert(family::exit_queue_ok(tasks, j));
                }
                family::lemma_kin_same(u, tasks);
                lemma_one_changed(u, tasks, i as int, k.uart.readers@, k.pids.upcoming());
                assert(k.caller() == t);
                assert(kernel::lodges(u, t.pid.0, k.hart.satp));
                assert(execs(*k, k0, path@, img, a@, 0));
            }
            0
        },
        Err(_) => {
            proof {
                assert(u =~= tasks);
                assert forall|j: int| 0 <= j < tasks.len() implies #[trigger] family::same_place_at(u, tasks, j) by {}
                family::lemma_same_place(k.sched, k0.sched);
                family::lemma_backed_kept(tasks, k0.mem, k.mem, k.space, Set::empty());
                kernel::lemma_grounded(*k, k0);
                assert(execs(*k, k0, path@, img, a@, nr::ENOMEM));
            }
            nr::ENOMEM
        },
    }
}

/// One task has another heap.
proof fn lemma_one_changed(u: Seq<Task>, tasks: Seq<Task>, i: int, readers: Seq<u64>, next: u64)
    requires
        kernel::heaps_ok(tasks),
        family::numbered(tasks, next),
        kernel::readers_ok(readers, tasks),
        0 <= i < tasks.len(),
        u == tasks.update(i, u[i]),
        u[i].pid == tasks[i].pid,
        u[i].inner.state == tasks[i].inner.state,
        u[i].inner.parent == tasks[i].inner.parent,
        kernel::heap_ok(u[i]),
    ensures
        kernel::heaps_ok(u),
        family::numbered(u, next),
        kernel::readers_ok(readers, u),
{
    assert forall|j: int| 0 <= j < u.len() implies kernel::heap_ok(#[trigger] u[j]) by {
        if j != i {
            assert(kernel::heap_ok(tasks[j]));
        }
    }
    assert forall|j: int| 0 <= j < u.len() implies #[trigger] family::numbered_at(u, next, j) by {
        assert(family::numbered_at(tasks, next, j));
    }
    assert forall|a: int| 0 <= a < readers.len() implies kernel::lives(u, #[trigger] readers[a]) by {
        assert(kernel::lives(tasks, readers[a]));
        let j = choose|j: int|
            0 <= j < tasks.len() && (#[trigger] tasks[j]).pid.0 == readers[a] && tasks[j].inner.state
                != TaskState::Zombie;
        assert(u[j].pid.0 == readers[a] && u[j].inner.state == tasks[j].inner.state);
    }
}

/// How a move of the break ends.
pub open spec fn sbrk_done(k: Kernel, k0: Kernel, delta: i64, r: i64) -> bool {
    let i = scheduler::index(k0.sched.tasks@, k0.sched.cpu.current->0);
    let moves = process::brk_moves(k0.caller(), delta as int, k0.mem.free());
    &&& r == (if moves {
        k0.caller().inner.brk as i64
    } else {
        nr::ENOMEM
    })
    &&& k.sched.tasks@ == k0.sched.tasks@.update(i, k.caller())
    &&& k.sched.queue == k0.sched.queue
    &&& k.sched.cpu == k0.sched.cpu
    &&& process::same_but_heap(k.caller(), k0.caller())
    &&& process::brk_done(k.caller(), k.mem, k0.caller(), k0.mem, k0.space, delta as int, moves)
    &&& k.pids == k0.pids
    &&& k.hart == k0.hart
    &&& k.uart == k0.uart
    &&& k.mem.keeps(k0.mem, k0.caller().user_frames())
}

/// Move the program break.
#[verifier::rlimit(40)]
pub fn sys_sbrk(k: &mut Kernel, delta: i64) -> (r: i64)
    requires
        old(k).wf(),
        old(k).sched.cpu.current is Some,
    ensures
        final(k).wf(),
        final(k).same_board(*old(k)),
        sbrk_done(*final(k), *old(k), delta, r),
{
    let ghost k0 = *k;
    let i: usize = caller_index(k);
    assert(kernel::heap_ok(k.sched.tasks@[i as int]));
    let done = process::adjust_brk(&mut k.sched.tasks[i], &mut k.mem, &k.space, delta);
    proof {
        let tasks = k0.sched.tasks@;
        let u = k.sched.tasks@;
        let t = u[i as int];
        assert(u =~= tasks.update(i as int, t));
        assert forall|j: int| 0 <= j < tasks.len() implies #[trigger] family::same_place_at(u, tasks, j) by {}
        family::lemma_same_place(k.sched, k0.sched);
        assert(k.caller() == t);
        family::lemma_backed_changed(tasks, i as int, t, k0.mem, k.mem, k.space);
        assert forall|j: int| 0 <= j < tasks.len() implies #[trigger] family::same_kin_at(u, tasks, j) by {}
        assert forall|j: int| 0 <= j < tasks.len() implies #[trigger] family::exit_queue_ok(u, j) by {
            assert(family::exit_queue_ok(tasks, j));
        }
        family::lemma_kin_same(u, tasks);
        lemma_one_changed(u, tasks, i as int, k.uart.readers@, k.pids.upcoming());
        kernel::lemma_grounded(*k, k0);
    }
    match done {
        Some(old_brk) => old_brk as i64,
        None => nr::ENOMEM,
    }
}

/// Dump the task table to the console.
pub fn sys_ps(k: &Kernel) -> (r: Vec<Row>)
    requires
        k.wf(),
    ensures
        r@.len() == k.sched.tasks@.len(),
        forall|i: int| 0 <= i < r@.len() ==> scheduler::row_of(#[trigger] r@[i], k.sched.tasks@, i),
{
    scheduler::dump_tasks(&k.sched, &k.mem, &k.space)
}

/// How an exit ends: the caller no longer runs, the hart is in the kernel's address
/// space, and the frames of the caller's are free.
pub open spec fn exit_done(k: Kernel, k0: Kernel, code: i32, ctx: TaskContext, r: Outcome) -> bool {
    &&& k.mem.gave(k0.mem, k0.caller().user_frames())
    &&& k.pids == k0.pids
    &&& k.uart == k0.uart
    &&& k.hart.satp == k0.space.spec_token()
    &&& if k0.caller().inner.kstack.intact(k0.mem) {
        &&& r == Outcome::Exited
        &&& scheduler::exited(k.sched, k0.sched, code, ctx)
        &&& k.sched.queue.created() == k0.sched.queue.created()
        &&& k.hart == (Hart {
            sstatus: arch::with_enable(k0.hart.sstatus, false),
            satp: k.hart.satp,
            ..k0.hart
        })
    } else {
        &&& r == Outcome::Overflow(StackOverflow { pid: k0.sched.cpu.current->0 })
        &&& k.hart == (Hart { satp: k.hart.satp, ..k0.hart })
    }
}

/// What an exit keeps of the other tasks, and what it leaves of the caller.
pub proof fn lemma_exited(s: Scheduler, s0: Scheduler, code: i32, ctx: TaskContext)
    requires
        s0.wf(),
        s0.cpu.current is Some,
        scheduler::exited(s, s0, code, ctx),
    ensures
        kernel::census(s.tasks@, s0.tasks@, s0.cpu.current),
        ({
            let t = s.tasks@[scheduler::index(s0.tasks@, s0.cpu.current->0)];
            &&& t.pid == s0.running().pid
            &&& t.inner.state == TaskState::Zombie
            &&& t.inner.exit_code == code
            &&& t.inner.space is None
            &&& t.inner.kstack == s0.running().inner.kstack
        }),
{
    let pid = s0.cpu.current->0;
    let tasks = s0.tasks@;
    let i = scheduler::index(tasks, pid);
    let gone = Runnable {
        tasks: scheduler::with_inner(tasks, i, scheduler::finished(tasks[i].inner, code)),
        levels: s0.queue.levels(),
    };
    let mid = choose|mid: Runnable|
        {
            &&& #[trigger] family::departed(mid, gone, pid)
            &&& s.tasks@ == scheduler::with_inner(
                mid.tasks,
                i,
                scheduler::parked(mid.tasks[i].inner, TaskState::Zombie, ctx),
            )
            &&& s.queue.levels() == mid.levels
        };
    let list = family::wake_list(gone.tasks, pid);
    scheduler::lemma_with_inner(tasks, i, scheduler::finished(tasks[i].inner, code));
    kernel::lemma_stirred(gone, list);
    let v = scheduler::after_wakes(gone, list);
    assert(kernel::stirred_at(v.tasks, gone.tasks, i));
    assert(family::alike_at(mid.tasks, v.tasks, i));
    assert forall|j: int| 0 <= j < tasks.len() implies #[trigger] kernel::census_at(s.tasks@, tasks, Some(pid), j) by {
        assert(kernel::stirred_at(v.tasks, gone.tasks, j));
        assert(family::alike_at(mid.tasks, v.tasks, j));
        if family::hands_over(gone.tasks, pid) {
            assert(family::handed_at(mid.tasks, gone.tasks, pid, family::children_of(gone.tasks, pid), j));
        } else {
            assert(family::same_kin_at(mid.tasks, gone.tasks, j));
        }
    }
}

/// Terminate the caller.
pub fn sys_exit(k: &mut Kernel, code: i32, ctx: TaskContext) -> (r: Outcome)
    requires
        old(k).wf(),
        old(k).awake(),
    ensures
        r !is Overflow ==> final(k).wf(),
        final(k).same_board(*old(k)),
        exit_done(*final(k), *old(k), code, ctx, r),
{
    let ghost k0 = *k;
    match scheduler::exit_current(&mut k.sched, &mut k.mem, &k.space, &mut k.hart, code, ctx) {
        Ok(_) => {
            proof {
                lemma_exited(k.sched, k0.sched, code, ctx);
                kernel::lemma_census(
                    k.sched.tasks@,
                    k0.sched.tasks@,
                    k0.sched.cpu.current,
                    k.uart.readers@,
                    k.pids.upcoming(),
                );
            }
            Outcome::Exited
        },
        Err(e) => Outcome::Overflow(e),
    }
}

/// Does a wait for `want` mean task `pid`? A negative number means any.
pub open spec fn wanted(want: i64, pid: u64) -> bool {
    want < 0 || pid as i64 == want
}

/// The first child from `a` on that is wanted and has exited, or the number of
/// children.
pub open spec fn first_exited(tasks: Seq<Task>, kids: Seq<u64>, want: i64, a: int) -> int
    decreases kids.len() - a,
{
    if a >= kids.len() {
        kids.len() as int
    } else if wanted(want, kids[a]) && tasks[scheduler::index(tasks, kids[a])].inner.state == TaskState::Zombie {
        a
    } else {
        first_exited(tasks, kids, want, a + 1)
    }
}

/// Could a child ever satisfy the request?
pub open spec fn any_wanted(kids: Seq<u64>, want: i64) -> bool {
    exists|a: int| 0 <= a < kids.len() && wanted(want, #[trigger] kids[a])
}

/// The bytes of an exit status in memory.
pub open spec fn status_bytes(code: i32) -> Seq<u8> {
    bits::word_bytes(code as u64).take(4)
}

/// Can `t` be told an exit status at `ptr`? A null pointer declines it; any other must
/// be one that `t` could write it to itself.
pub open spec fn can_be_told(t: Task, mem: Memory, ptr: u64) -> bool {
    ptr == 0 || (t.inner.space matches Some(s) && s.reach(mem, ptr as int, 4, 4) == 4)
}

/// The memory after the exit status `code` was handed to `t` at `ptr`, unless `t`
/// declined it.
pub open spec fn status_told(mem: Memory, m0: Memory, t: Task, ptr: u64, code: i32) -> bool {
    if ptr == 0 {
        mem == m0
    } else {
        t.inner.space matches Some(s) && wrote(mem, m0, s, ptr, status_bytes(code))
    }
}

/// The caller has collected child `z`: it is struck off the list and freed, after its
/// exit status was handed over.
pub open spec fn has_reaped(k: Kernel, k0: Kernel, status_ptr: u64, z: int) -> bool {
    let tasks = k0.sched.tasks@;
    let i = scheduler::index(tasks, k0.sched.cpu.current->0);
    let c = k0.caller().inner.children@[z];
    let code = tasks[scheduler::index(tasks, c)].inner.exit_code;
    &&& exists|mid: Seq<Task>| #[trigger] family::disowned(mid, tasks, i, z) && k.sched.tasks@ == family::swept(mid)
    &&& exists|m1: Memory|
        #[trigger] status_told(m1, k0.mem, k0.caller(), status_ptr, code) && k.mem.gave(
            m1,
            family::holdings(tasks).difference(family::holdings(k.sched.tasks@)),
        )
    &&& !scheduler::known(k.sched.tasks@, c)
    &&& kernel::lives(k.sched.tasks@, k0.caller().pid.0)
    &&& k.sched.queue == k0.sched.queue
    &&& k.sched.cpu == k0.sched.cpu
    &&& k.pids == k0.pids
    &&& k.hart == k0.hart
    &&& k.uart == k0.uart
}

/// The caller has queued for the exit of a child.
pub open spec fn awaits_child(s: Scheduler, s0: Scheduler) -> bool {
    let i = scheduler::index(s0.tasks@, s0.cpu.current->0);
    &&& s.tasks@ == s0.tasks@.update(i, s.tasks@[i])
    &&& s.tasks@[i] == (Task { child_exit: s.tasks@[i].child_exit, ..s0.tasks@[i] })
    &&& s.tasks@[i].child_exit@ == s0.tasks@[i].child_exit@.push(s0.cpu.current->0)
    &&& s.queue == s0.queue
    &&& s.cpu == s0.cpu
}

/// How a wait for a child ends: a child that has exited is collected, unless its status
/// cannot be stored where the caller asks; there is none to wait for; or the caller is
/// parked until one exits.
pub open spec fn wait_done(k: Kernel, k0: Kernel, want: i64, status_ptr: u64, ctx: TaskContext, r: Outcome) -> bool {
    let kids = k0.caller().inner.children@;
    let z = first_exited(k0.sched.tasks@, kids, want, 0);
    if z < kids.len() && !can_be_told(k0.caller(), k0.mem, status_ptr) {
        r == Outcome::Return(nr::EFAULT) && k == k0
    } else if z < kids.len() {
        r == Outcome::Return(kids[z] as i64) && has_reaped(k, k0, status_ptr, z)
    } else if !any_wanted(kids, want) {
        r == Outcome::Return(nr::ECHILD) && k == k0
    } else {
        &&& k.mem == k0.mem
        &&& k.pids == k0.pids
        &&& k.uart == k0.uart
        &&& exists|s1: Scheduler|
            #[trigger] awaits_child(s1, k0.sched) && wait::parks(
                k.sched,
                s1,
                k0.mem,
                k.hart,
                k0.hart,
                ctx,
                step_of(r),
            )
    }
}

/// Scan the caller's children for one that is wanted and has exited. Says where it is,
/// and whether any child could ever satisfy the request.
fn scan_children(k: &Kernel, i: usize, want: i64) -> (r: (Option<usize>, bool))
    requires
        k.wf(),
        i < k.sched.tasks@.len(),
    ensures
        ({
            let kids = k.sched.tasks@[i as int].inner.children@;
            let z = first_exited(k.sched.tasks@, kids, want, 0);
            &&& match r.0 {
                Some(a) => a == z && z < kids.len(),
                None => z == kids.len(),
            }
            &&& r.0 is None ==> r.1 == any_wanted(kids, want)
        }),
        r.0 matches Some(a) ==> {
            let c = k.sched.tasks@[i as int].inner.children@[a as int];
            k.sched.tasks@[scheduler::index(k.sched.tasks@, c)].inner.state == TaskState::Zombie
        },
{
    let ghost tasks = k.sched.tasks@;
    let ghost kids = tasks[i as int].inner.children@;
    let mut any: bool = false;
    let mut a: usize = 0;
    while a < k.sched.tasks[i].inner.children.len()
        invariant
            k.wf(),
            tasks == k.sched.tasks@,
            i < tasks.len(),
            kids == tasks[i as int].inner.children@,
            a <= kids.len(),
            first_exited(tasks, kids, want, 0) == first_exited(tasks, kids, want, a as int),
            any == exists|b: int| 0 <= b < a && wanted(want, #[trigger] kids[b]),
        decreases kids.len() - a,
    {
        let c: u64 = k.sched.tasks[i].inner.children[a];
        assert(family::child_ok(tasks, i as int, a as int));
        let matches: bool = want < 0 || c as i64 == want;
        if matches {
            any = true;
            match k.sched.find(c) {
                Some(j) => {
                    if k.sched.tasks[j].state() == TaskState::Zombie {
                        return (Some(a), true);
                    }
                },
                None => {
                    assert(false);
                },
            }
            assert(wanted(want, kids[a as int]));
        }
        a = a + 1;
    }
    (None, any)
}

/// Can the caller be told an exit status at `ptr`?
fn check_status_ptr(k: &Kernel, ptr: u64) -> (r: bool)
    requires
        k.wf(),
        k.sched.cpu.current is Some,
    ensures
        r == can_be_told(k.caller(), k.mem, ptr),
{
    if ptr == 0 {
        return true;
    }
    let i: usize = caller_index(k);
    match &k.sched.tasks[i].inner.space {
        Some(space) => space.writable(&k.mem, VirtAddr(ptr), 4),
        None => false,
    }
}

/// Hand the exit status `code` to the caller at `ptr`, unless that is null.
fn tell_status(k: &mut Kernel, ptr: u64, code: i32)
    requires
        old(k).wf(),
        old(k).sched.cpu.current is Some,
        can_be_told(old(k).caller(), old(k).mem, ptr),
    ensures
        final(k).wf(),
        status_told(final(k).mem, old(k).mem, old(k).caller(), ptr, code),
        *final(k) == (Kernel { mem: final(k).mem, ..*old(k) }),
{
    let ghost k0 = *k;
    let i: usize = caller_index(k);
    if ptr != 0 {
        let mut bytes: Vec<u8> = bits::to_le_bytes(
            #[verifier::truncate]
            (code as u64),
        );
        bytes.truncate(4);
        assert(bytes@ =~= status_bytes(code));
        match &k.sched.tasks[i].inner.space {
            Some(space) => {
                let stored = space.copy_to_user(&mut k.mem, VirtAddr(ptr), bytes.as_slice());
                assert(stored is Some);
                proof {
                    lemma_written(k.sched.tasks@, i as int, k0.mem, k.mem, k.space);
                }
            },
            None => {},
        }
    }
}

/// Wait for a child to exit.
///
/// A status pointer that is neither null nor one that the caller could write to fails
/// the call, and the child can still be collected.
#[verifier::rlimit(60)]
pub fn sys_waitpid(k: &mut Kernel, want: i64, status_ptr: u64, ctx: TaskContext) -> (r: Outcome)
    requires
        old(k).wf(),
        old(k).awake(),
    ensures
        final(k).wf(),
        final(k).same_board(*old(k)),
        wait_done(*final(k), *old(k), want, status_ptr, ctx, r),
{
    let ghost k0 = *k;
    let ghost tasks = k.sched.tasks@;
    let i: usize = caller_index(k);
    let (found, any) = scan_children(k, i, want);
    match found {
        Some(z) => {
            if !check_status_ptr(k, status_ptr) {
                return Outcome::Return(nr::EFAULT);
            }
            let c: u64 = k.sched.tasks[i].inner.children[z];
            assert(family::child_ok(tasks, i as int, z as int));
            let j: usize = match k.sched.find(c) {
                Some(j) => j,
                None => {
                    assert(false);
                    0
                },
            };
            let code: i32 = k.sched.tasks[j].exit_code();
            k.sched.tasks[i].inner.children.remove(z);
            k.sched.tasks[j].inner.parent = None;
            let ghost mid = k.sched.tasks@;
            proof {
                assert forall|l: int| 0 <= l < tasks.len() implies #[trigger] family::disowned_at(
                    mid,
                    tasks,
                    i as int,
                    z as int,
                    l,
                ) by {
                    if tasks[l].pid.0 == c {
                        assert(l == j);
                    }
                }
                family::lemma_disowned(mid, tasks, i as int, z as int);
                family::lemma_alike(mid, tasks);
                family::lemma_alike_wf(k.sched, k0.sched);
                family::lemma_same_holdings(mid, tasks, k.mem, k.space);
                assert forall|l: int| 0 <= l < tasks.len() implies #[trigger] kernel::census_at(mid, tasks, None, l) by {
                    assert(family::disowned_at(mid, tasks, i as int, z as int, l));
                }
                kernel::lemma_census(mid, tasks, None, k.uart.readers@, k.pids.upcoming());
            }
            assert(k.caller().inner.space == k0.caller().inner.space);
            tell_status(k, status_ptr, code);
            let ghost m1 = k.mem;
            family::sweep(&mut k.sched, &mut k.mem, &k.space);
            proof {
                assert(status_told(m1, k0.mem, k0.caller(), status_ptr, code));
                kernel::lemma_swept(mid, k.uart.readers@, k.pids.upcoming());
                assert(mid[j as int].pid.0 == c);
                assert(family::unowned(mid, j as int));
                family::lemma_swept_gone(mid, j as int);
                assert(kernel::lives(mid, mid[i as int].pid.0)) by {
                    assert(mid[i as int].inner.state == TaskState::Running);
                }
                assert(family::disowned(mid, tasks, i as int, z as int));
                kernel::lemma_swept_some(mid);
                lemma_still_grounded(*k, k0, mid, i as int);
            }
            Outcome::Return(c as i64)
        },
        None => {
            if !any {
                return Outcome::Return(nr::ECHILD);
            }
            let pid: u64 = k.sched.tasks[i].pid.0;
            k.sched.tasks[i].child_exit.enqueue(pid);
            let ghost k1 = *k;
            proof {
                let u = k.sched.tasks@;
                assert forall|l: int| 0 <= l < tasks.len() implies #[trigger] family::alike_at(u, tasks, l) by {}
                family::lemma_alike(u, tasks);
                family::lemma_alike_wf(k.sched, k0.sched);
                family::lemma_same_holdings(u, tasks, k.mem, k.space);
                assert(u[i as int].child_exit@ =~= seq![pid]);
                assert forall|l: int| 0 <= l < tasks.len() implies #[trigger] family::exit_queue_ok(u, l) by {
                    assert(family::exit_queue_ok(tasks, l));
                }
                assert forall|l: int| 0 <= l < tasks.len() implies #[trigger] family::same_kin_at(u, tasks, l) by {}
                family::lemma_kin_same(u, tasks);
                assert forall|l: int| 0 <= l < tasks.len() implies #[trigger] kernel::census_at(u, tasks, None, l) by {}
                kernel::lemma_census(u, tasks, None, k.uart.readers@, k.pids.upcoming());
                assert(u =~= tasks.update(i as int, u[i as int]));
                assert(awaits_child(k1.sched, k0.sched));
                assert(k1.sched.running() == u[i as int]);
                kernel::lemma_grounded(k1, k0);
            }
            match scheduler::block_current(&mut k.sched, &k.mem, &mut k.hart, ctx) {
                Ok(was) => {
                    proof {
                        lemma_stopped(*k, k1, TaskState::Blocked, ctx);
                    }
                    Outcome::Parked(was)
                },
                Err(e) => Outcome::Overflow(e),
            }
        },
    }
}

/// The hart stays in a space that is there while others are freed: the caller is not
/// among them.
proof fn lemma_still_grounded(k: Kernel, k0: Kernel, mid: Seq<Task>, i: int)
    requires
        k0.wf(),
        k0.sched.cpu.current is Some,
        k.space == k0.space,
        k.hart == k0.hart,
        k.sched.cpu == k0.sched.cpu,
        i == scheduler::index(k0.sched.tasks@, k0.sched.cpu.current->0),
        mid.len() == k0.sched.tasks@.len(),
        mid[i].pid == k0.sched.tasks@[i].pid,
        mid[i].inner.space == k0.sched.tasks@[i].inner.space,
        k.sched.tasks@.contains(mid[i]),
    ensures
        k.grounded(),
{
    let tasks = k0.sched.tasks@;
    let p = k0.sched.cpu.current->0;
    if k0.hart.satp != k0.space.spec_token() {
        let j = choose|j: int|
            0 <= j < tasks.len() && (#[trigger] tasks[j]).pid.0 == p && (tasks[j].inner.space matches Some(s)
                && k0.hart.satp == s.spec_token());
        scheduler::lemma_index(tasks, j);
        let l = choose|l: int| 0 <= l < k.sched.tasks@.len() && k.sched.tasks@[l] == mid[i];
        assert(k.sched.tasks@[l].pid.0 == p);
    }
}

/// How giving up the hart ends.
pub open spec fn yield_done(k: Kernel, k0: Kernel, ctx: TaskContext, r: Outcome) -> bool {
    &&& k.mem == k0.mem
    &&& k.pids == k0.pids
    &&& k.uart == k0.uart
    &&& if k0.caller().inner.kstack.intact(k0.mem) {
        &&& r == Outcome::Yielded(arch::enabled(k0.hart.sstatus))
        &&& k.sched.left(k0.sched, TaskState::Ready, ctx)
        &&& k.hart == (Hart { sstatus: arch::with_enable(k0.hart.sstatus, false), ..k0.hart })
    } else {
        &&& r == Outcome::Overflow(StackOverflow { pid: k0.sched.cpu.current->0 })
        &&& k.sched == k0.sched
        &&& k.hart == k0.hart
    }
}

/// Give up the rest of the quantum.
pub fn sys_yield(k: &mut Kernel, ctx: TaskContext) -> (r: Outcome)
    requires
        old(k).wf(),
        old(k).sched.cpu.current is Some,
    ensures
        final(k).wf(),
        final(k).same_board(*old(k)),
        yield_done(*final(k), *old(k), ctx, r),
{
    let ghost k0 = *k;
    let i: usize = caller_index(k);
    match scheduler::yield_now(&mut k.sched, &k.mem, &mut k.hart, ctx) {
        Ok(was) => {
            proof {
                lemma_stopped(*k, k0, TaskState::Ready, ctx);
            }
            Outcome::Yielded(was)
        },
        Err(e) => Outcome::Overflow(e),
    }
}

/// How the system call that `frame` asks for ends, at time `now`.
pub open spec fn call_done(
    k: Kernel,
    k0: Kernel,
    frame: TrapFrame,
    now: u64,
    ctx: TaskContext,
    r: Outcome,
) -> bool {
    let id = frame.x@[17];
    let a0 = frame.x@[10];
    let a1 = frame.x@[11];
    let a2 = frame.x@[12];
    if id == nr::SYS_EXIT {
        exit_done(k, k0, a0 as i32, ctx, r)
    } else if id == nr::SYS_WRITE {
        k == k0 && write_done(k0, a0, a1, a2, r)
    } else if id == nr::SYS_READ {
        read_done(k, k0, a0, a1, a2, ctx, r)
    } else if id == nr::SYS_YIELD {
        yield_done(k, k0, ctx, r)
    } else if id == nr::SYS_GETPID {
        k == k0 && r == Outcome::Return(k0.sched.cpu.current->0 as i64)
    } else if id == nr::SYS_GETPPID {
        k == k0 && r == Outcome::Return(
            scheduler::parent_pid(
                k0.sched.tasks@,
                scheduler::index(k0.sched.tasks@, k0.sched.cpu.current->0),
            ) as i64,
        )
    } else if id == nr::SYS_FORK {
        r matches Outcome::Return(v) && fork_done(k, k0, frame, v)
    } else if id == nr::SYS_EXEC {
        match r {
            Outcome::Started => exec_done(k, k0, a0, a1, 0),
            Outcome::Return(v) => v != 0 && exec_done(k, k0, a0, a1, v),
            _ => false,
        }
    } else if id == nr::SYS_WAITPID {
        wait_done(k, k0, a0 as i64, a1, ctx, r)
    } else if id == nr::SYS_SBRK {
        r matches Outcome::Return(v) && sbrk_done(k, k0, a0 as i64, v)
    } else if id == nr::SYS_UPTIME {
        k == k0 && r == Outcome::Return((now * 1000 / TIMER_FREQ as int) as i64)
    } else if id == nr::SYS_PS {
        &&& k == k0
        &&& r matches Outcome::Table(rows) && rows@.len() == k0.sched.tasks@.len() && forall|i: int|
            0 <= i < rows@.len() ==> scheduler::row_of(#[trigger] rows@[i], k0.sched.tasks@, i)
    } else {
        k == k0 && r == Outcome::Unknown(id)
    }
}

/// Dispatch one system call of the running task, whose trap frame is `frame`, at time
/// `now`. `ctx` is the context to come back to if the caller stops running.
pub fn dispatch(k: &mut Kernel, frame: &TrapFrame, now: u64, ctx: TaskContext) -> (r: Outcome)
    requires
        old(k).wf(),
        old(k).awake(),
        old(k).pids.upcoming() < u64::MAX,
        old(k).sched.queue.created() < u64::MAX,
        now * 1000 <= u64::MAX,
    ensures
        r !is Overflow ==> final(k).wf(),
        final(k).same_board(*old(k)),
        call_done(*final(k), *old(k), *frame, now, ctx, r),
{
    let id: u64 = frame.syscall_id();
    let a0: u64 = frame.arg(0);
    let a1: u64 = frame.arg(1);
    let a2: u64 = frame.arg(2);
    if id == nr::SYS_EXIT {
        sys_exit(
            k,
            #[verifier::truncate]
            (a0 as i32),
            ctx,
        )
    } else if id == nr::SYS_WRITE {
        sys_write(k, a0, a1, a2)
    } else if id == nr::SYS_READ {
        sys_read(k, a0, a1, a2, ctx)
    } else if id == nr::SYS_YIELD {
        sys_yield(k, ctx)
    } else if id == nr::SYS_GETPID {
        Outcome::Return(
            #[verifier::truncate]
            (scheduler::current_task(&k.sched).pid.0 as i64),
        )
    } else if id == nr::SYS_GETPPID {
        Outcome::Return(sys_getppid(k))
    } else if id == nr::SYS_FORK {
        Outcome::Return(sys_fork(k, frame))
    } else if id == nr::SYS_EXEC {
        let v: i64 = sys_exec(k, a0, a1);
        if v == 0 {
            Outcome::Started
        } else {
            Outcome::Return(v)
        }
    } else if id == nr::SYS_WAITPID {
        sys_waitpid(
            k,
            #[verifier::truncate]
            (a0 as i64),
            a1,
            ctx,
        )
    } else if id == nr::SYS_SBRK {
        Outcome::Return(
            sys_sbrk(
                k,
                #[verifier::truncate]
                (a0 as i64),
            ),
        )
    } else if id == nr::SYS_UPTIME {
        Outcome::Return(timer::uptime_ms(now) as i64)
    } else if id == nr::SYS_PS {
        Outcome::Table(sys_ps(k))
    } else {
        Outcome::Unknown(id)
    }
}

} // verus!
