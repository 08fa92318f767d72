//! User processes: creation, `fork`, `exec`, and the program break.
//!
//! A user task is a kernel task with three extra things: an address space, a trap
//! frame, and a parent/child relationship so `wait` has something to wait for.

use vstd::prelude::*;
use crate::arch::Hart;
use crate::bits;
use crate::config::{KERNEL_STACK_SIZE, PAGE_SIZE, USER_HEAP_BASE, USER_MAX_ADDR, USER_STACK_TOP};
use crate::loader::Outcome;
use crate::mm::addr::{self, VirtAddr};
use crate::mm::buddy;
use crate::mm::duplicate;
use crate::mm::frame::{self, Memory};
use crate::mm::page_table::{self, MapError, PteFlags};
use crate::mm::space::{self, AddressSpace, Backing, Region};
use crate::sync::WaitQueue;
use crate::task::args;
use crate::task::image::{self, ExecError, UserImage, USER_RW};
use crate::task::{copy_bytes, KernelStack, Pids, Task, TaskContext, TaskInner, TaskState};
use crate::trap::context;
use crate::trap::TrapFrame;

verus! {

/// Where a new task starts.
pub struct Entries {
    /// Address of the trampoline that the first switch into a task returns to.
    pub trampoline: u64,
    /// Address of the function that enters user mode, which is what a user task
    /// runs.
    pub user_mode: u64,
}

/// The larger of two numbers.
pub open spec fn larger(a: int, b: int) -> int {
    if a > b {
        a
    } else {
        b
    }
}

/// The trap frame of a program that has not run yet: registers are zero but for
/// the stack pointer and the two arguments of `main`.
pub open spec fn launches(
    f: TrapFrame,
    o: Outcome,
    a: Seq<Vec<u8>>,
    kernel_sp: int,
    kernel: AddressSpace,
    hart: Hart,
) -> bool {
    let argv = args::argv_at(a, USER_STACK_TOP as int);
    &&& forall|i: int|
        0 <= i < 32 ==> #[trigger] f.x@[i] == (if i == 2 || i == 11 {
            argv
        } else if i == 10 {
            a.len() as int
        } else {
            0
        })
    &&& f.sstatus == context::entry_status(hart.sstatus)
    &&& f.sepc == o.entry
    &&& f.kernel_sp == kernel_sp
    &&& f.kernel_satp == kernel.spec_token()
    &&& f.kernel_trap == 0
    &&& f.kernel_hartid == hart.id
}

/// The trap frame that a program starts from.
fn launch_frame(img: &UserImage, kernel_sp: u64, kernel_satp: u64, hart: &Hart) -> (f: TrapFrame)
    ensures
        forall|i: int|
            0 <= i < 32 ==> #[trigger] f.x@[i] == (if i == 2 {
                img.sp
            } else if i == 10 {
                img.argc
            } else if i == 11 {
                img.argv
            } else {
                0
            }),
        f.sstatus == context::entry_status(hart.sstatus),
        f.sepc == img.entry,
        f.kernel_sp == kernel_sp,
        f.kernel_satp == kernel_satp,
        f.kernel_trap == 0,
        f.kernel_hartid == hart.id,
{
    let mut frame: TrapFrame = TrapFrame::new_user(img.entry, img.sp, kernel_sp, kernel_satp, hart.sstatus);
    frame.kernel_hartid = hart.id;
    // main(argc, argv) -- the user runtime forwards a0/a1 straight through.
    frame.set_arg(0, img.argc);
    frame.set_arg(1, img.argv);
    frame
}

/// Is there a run of frames for a kernel stack once `n` single frames were taken?
pub open spec fn stack_left(mem: Memory, n: int) -> bool {
    buddy::donor(frame::drawn(mem.lists(), n), 3) <= 10
}

/// `t` is a user process that has not run yet, of the program `image` with
/// arguments `a`.
pub open spec fn newborn(
    t: Task,
    mem: Memory,
    kernel: AddressSpace,
    hart: Hart,
    entries: Entries,
    image: Seq<u8>,
    a: Seq<Vec<u8>>,
    o: Outcome,
) -> bool {
    let top = t.inner.kstack.low() + KERNEL_STACK_SIZE;
    let heap = larger(o.brk, USER_HEAP_BASE as int);
    &&& t.entry == entries.user_mode
    &&& t.child_exit@ == Seq::<u64>::empty()
    &&& t.inner.unscheduled()
    &&& t.inner.ctx.starts(entries.trampoline, top as u64)
    &&& t.inner.frame matches Some(f) && launches(f, o, a, top, kernel, hart)
    &&& t.inner.space matches Some(s) && image::starts_as(s, mem, image, a) && image::stacked(s)
    &&& t.inner.brk == heap
    &&& t.inner.heap_top == heap
    &&& t.inner.kstack.intact(mem)
}

impl Task {
    /// Create a user process from an ELF image. `None`, and nothing taken, if the
    /// image is bad or memory runs out.
    #[verifier::rlimit(40)]
    pub fn new_user(
        mem: &mut Memory,
        pids: &mut Pids,
        kernel: &AddressSpace,
        hart: &Hart,
        entries: &Entries,
        name: &[u8],
        image: &[u8],
        a: &Vec<Vec<u8>>,
    ) -> (r: Option<Task>)
        requires
            old(mem).wf(),
            kernel.wf(*old(mem)),
            kernel.supervisor(*old(mem)),
            old(pids).upcoming() < u64::MAX,
            image::args_room(a@) <= USER_STACK_TOP,
        ensures
            final(mem).wf(),
            kernel.wf(*final(mem)),
            kernel.supervisor(*final(mem)),
            match image::exec_result(image@, a@, old(mem).free()) {
                Ok(o) => {
                    &&& r is Some <==> stack_left(*old(mem), old(mem).free() - o.free)
                    &&& r matches Some(t) ==> {
                        &&& newborn(t, *final(mem), *kernel, *hart, *entries, image@, a@, o)
                        &&& t.name@ == name@
                        &&& t.inner.parent is None
                        &&& t.pid.0 == old(pids).upcoming()
                        &&& t.sound(*final(mem), *kernel)
                        &&& final(mem).took(*old(mem), t.frames())
                        &&& final(pids).upcoming() == old(pids).upcoming() + 1
                    }
                },
                Err(_) => r is None,
            },
            r is None ==> final(mem).took(*old(mem), Set::empty()) && *final(pids) == *old(pids),
    {
        let ghost m0 = *mem;
        let img: UserImage = match image::build(mem, kernel, image, a) {
            Ok(img) => img,
            Err(_) => {
                proof {
                    mem.lemma_took_grew(m0, Set::empty());
                }
                return None;
            },
        };
        let ghost m1 = *mem;
        let ghost s = img.space;
        proof {
            m1.lemma_took_grew(m0, s.footprint());
            kernel.lemma_live(m0);
            reveal(Memory::drew);
        }
        let kstack: KernelStack = match KernelStack::new(mem) {
            Some(kstack) => kstack,
            None => {
                img.space.release(mem);
                proof {
                    s.lemma_built_released(*mem, m1, m0, *kernel);
                    mem.lemma_took_grew(m0, Set::empty());
                    kernel.lemma_outlives(m0, *mem, Set::empty());
                }
                return None;
            },
        };
        let ghost k = kstack;
        proof {
            mem.lemma_took_run(m1, k.ppn(), 3);
            mem.lemma_took_twice(m1, m0, s.footprint(), k.footprint());
            lemma_survives(s, m1, *mem, Set::empty());
            lemma_survives(*kernel, m1, *mem, Set::empty());
            s.lemma_still_shares(s, m1, *mem, *kernel);
        }
        let kernel_sp: u64 = kstack.top(mem);
        let kernel_satp: u64 = kernel.token(mem);
        let frame: TrapFrame = launch_frame(&img, kernel_sp, kernel_satp, hart);
        let heap: u64 = if img.brk > USER_HEAP_BASE {
            img.brk
        } else {
            USER_HEAP_BASE
        };
        let task = Task {
            pid: pids.alloc_pid(),
            name: copy_bytes(name),
            entry: entries.user_mode,
            child_exit: WaitQueue::new(),
            inner: TaskInner {
                state: TaskState::Ready,
                ctx: TaskContext::new(entries.trampoline, kernel_sp),
                kstack,
                level: 0,
                ticks: 0,
                needs_resched: false,
                wakeup_pending: false,
                exit_code: 0,
                space: Some(img.space),
                frame: Some(frame),
                brk: heap,
                heap_top: heap,
                parent: None,
                children: Vec::new(),
            },
        };
        proof {
            assert(task.frames() =~= s.footprint().union(k.footprint()));
            lemma_shows_kept(s, m1, *mem, Set::empty(), image@, a@);
        }
        Some(task)
    }
}

/// A space outlives what keeps its frames.
pub proof fn lemma_survives(s: AddressSpace, m0: Memory, mem: Memory, gone: Set<int>)
    requires
        m0.wf(),
        s.wf(m0),
        mem.keeps(m0, gone),
        gone.disjoint(s.support()),
    ensures
        s.wf(mem),
        s.supervisor(m0) ==> s.supervisor(mem),
        space::unmoved(mem, m0, s.root()),
{
    s.lemma_live(m0);
    assert forall|p: int| #[trigger] s.support().contains(p) implies mem.owns(p, 0) && mem.same_frame(m0, p) by {
        assert(m0.owns(p, 0));
        assert(m0.used(p));
    }
    assert forall|p: int| #[trigger] s.spec_table().tables().contains(p) implies mem.same_frame(m0, p) by {
        assert(s.support().contains(p));
    }
    s.lemma_undisturbed(m0, mem);
    if s.supervisor(m0) {
        assert forall|w: int| 0 <= w implies (#[trigger] page_table::walk(mem, s.root(), w) matches Some((l, x))
            ==> x & 16 != 16) by {
            assert(page_table::walk(m0, s.root(), w) == page_table::walk(mem, s.root(), w));
        }
    }
}

/// What user code sees of its space outlives what keeps its frames.
pub proof fn lemma_view_kept(s: AddressSpace, m0: Memory, mem: Memory, gone: Set<int>, x: int, need: u64)
    requires
        m0.wf(),
        s.wf(m0),
        s.is_user(),
        mem.keeps(m0, gone),
        gone.disjoint(s.support()),
    ensures
        s.access(mem, x, need) == s.access(m0, x, need),
        s.access(m0, x, 0) ==> s.ubyte(mem, x) == s.ubyte(m0, x),
{
    lemma_survives(s, m0, mem, gone);
    if 0 <= x {
        assert(page_table::walk(mem, s.root(), x / 4096) == page_table::walk(m0, s.root(), x / 4096));
        if s.access(m0, x, 0) {
            let i = s.lemma_user_page(m0, x);
            let p = page_table::entry_ppn(s.page_entry(m0, x)->0);
            assert(s.footprint().contains(p));
            assert(s.support().contains(p));
            assert(mem.same_frame(m0, p));
            assert(mem.word(p, (x % 4096) / 8) == m0.word(p, (x % 4096) / 8));
        }
    }
}

proof fn lemma_shows_kept(s: AddressSpace, m0: Memory, mem: Memory, gone: Set<int>, image: Seq<u8>, a: Seq<Vec<u8>>)
    requires
        m0.wf(),
        s.wf(m0),
        s.is_user(),
        mem.keeps(m0, gone),
        gone.disjoint(s.support()),
        image::starts_as(s, m0, image, a),
    ensures
        image::starts_as(s, mem, image, a),
{
    assert forall|x: int| 0 <= x < USER_MAX_ADDR implies image::shows(
        s,
        mem,
        x,
        #[trigger] image::bare(image, x),
        image::program_byte(image, a, x),
    ) by {
        assert(image::shows(s, m0, x, image::bare(image, x), image::program_byte(image, a, x)));
        lemma_view_kept(s, m0, mem, gone, x, 0);
        lemma_view_kept(s, m0, mem, gone, x, 2);
        lemma_view_kept(s, m0, mem, gone, x, 4);
        lemma_view_kept(s, m0, mem, gone, x, 8);
    }
}

/// The frame of a forked child: the one the parent trapped with, but for where
/// the kernel is, and for `a0`, which is zero.
pub open spec fn forked(f: TrapFrame, parent: TrapFrame, kernel_sp: int, kernel: AddressSpace, hart: Hart) -> bool {
    &&& f.x@ == parent.x@.update(10, 0)
    &&& f.sstatus == parent.sstatus
    &&& f.sepc == parent.sepc
    &&& f.kernel_sp == kernel_sp
    &&& f.kernel_satp == kernel.spec_token()
    &&& f.kernel_trap == parent.kernel_trap
    &&& f.kernel_hartid == hart.id
}

/// Frames left once the space of `t` was copied out of `free` frames, if it has
/// one and they are enough.
pub open spec fn fork_left(t: Task, free: int) -> Option<int> {
    match t.inner.space {
        Some(s) => match duplicate::copied(s.regions(), free) {
            Some((_, left)) => Some(left),
            None => None,
        },
        None => None,
    }
}

/// `t` is a child that was forked from `parent`, which trapped with `frame`.
pub open spec fn is_child(
    t: Task,
    mem: Memory,
    parent: Task,
    before: Memory,
    kernel: AddressSpace,
    hart: Hart,
    entries: Entries,
    frame: TrapFrame,
) -> bool {
    let top = t.inner.kstack.low() + KERNEL_STACK_SIZE;
    &&& t.name@ == parent.name@
    &&& t.entry == entries.user_mode
    &&& t.child_exit@ == Seq::<u64>::empty()
    &&& t.inner.unscheduled()
    &&& t.inner.ctx.starts(entries.trampoline, top as u64)
    &&& t.inner.frame matches Some(f) && forked(f, frame, top, kernel, hart)
    &&& t.inner.space matches Some(c) && parent.inner.space matches Some(s) && c.mirrors(
        mem,
        s,
        before,
        s.regions().len() as int,
    )
    &&& t.inner.brk == parent.inner.brk
    &&& t.inner.heap_top == parent.inner.heap_top
    &&& t.inner.parent == Some(parent.pid.0)
    &&& t.inner.kstack.intact(mem)
}

impl Task {
    /// Duplicate `parent` into a new process. `None`, and nothing taken, if it has
    /// no address space or memory runs out.
    ///
    /// The child's frame is a copy of the one the parent trapped with, except that
    /// `a0` is zeroed -- that difference is the entire mechanism by which the two
    /// halves of a fork discover which one they are.
    #[verifier::rlimit(40)]
    pub fn fork_from(
        parent: &Task,
        mem: &mut Memory,
        pids: &mut Pids,
        kernel: &AddressSpace,
        hart: &Hart,
        entries: &Entries,
        frame: &TrapFrame,
    ) -> (r: Option<Task>)
        requires
            old(mem).wf(),
            kernel.wf(*old(mem)),
            kernel.supervisor(*old(mem)),
            parent.sound(*old(mem), *kernel),
            old(pids).upcoming() < u64::MAX,
        ensures
            final(mem).wf(),
            kernel.wf(*final(mem)),
            kernel.supervisor(*final(mem)),
            r is Some <==> (fork_left(*parent, old(mem).free()) matches Some(left) && stack_left(
                *old(mem),
                old(mem).free() - left,
            )),
            match r {
                Some(t) => {
                    &&& is_child(t, *final(mem), *parent, *old(mem), *kernel, *hart, *entries, *frame)
                    &&& t.pid.0 == old(pids).upcoming()
                    &&& t.sound(*final(mem), *kernel)
                    &&& final(mem).took(*old(mem), t.frames())
                    &&& final(pids).upcoming() == old(pids).upcoming() + 1
                },
                None => final(mem).took(*old(mem), Set::empty()) && *final(pids) == *old(pids),
            },
    {
        let ghost m0 = *mem;
        proof {
            m0.lemma_grew_none(m0);
        }
        let duplicated: Option<AddressSpace> = match &parent.inner.space {
            Some(space) => space.duplicate(mem, kernel),
            None => None,
        };
        let space: AddressSpace = match duplicated {
            Some(space) => space,
            None => {
                proof {
                    mem.lemma_took_grew(m0, Set::empty());
                }
                return None;
            },
        };
        let ghost m1 = *mem;
        let ghost s = space;
        proof {
            m1.lemma_took_grew(m0, s.footprint());
            kernel.lemma_live(m0);
            reveal(Memory::drew);
        }
        let kstack: KernelStack = match KernelStack::new(mem) {
            Some(kstack) => kstack,
            None => {
                space.release(mem);
                proof {
                    mem.lemma_gave_shrank(m1, s.footprint());
                    mem.lemma_took_gave(m1, m0, s.footprint());
                    lemma_survives(*kernel, m0, *mem, Set::empty());
                }
                return None;
            },
        };
        let ghost k = kstack;
        proof {
            mem.lemma_took_run(m1, k.ppn(), 3);
            mem.lemma_took_twice(m1, m0, s.footprint(), k.footprint());
            lemma_survives(s, m1, *mem, Set::empty());
            lemma_survives(*kernel, m1, *mem, Set::empty());
            s.lemma_still_shares(s, m1, *mem, *kernel);
        }
        let kernel_sp: u64 = kstack.top(mem);
        let mut child_frame: TrapFrame = *frame;
        child_frame.kernel_sp = kernel_sp;
        child_frame.kernel_satp = kernel.token(mem);
        child_frame.kernel_hartid = hart.id;
        child_frame.set_return(0);
        let task = Task {
            pid: pids.alloc_pid(),
            name: copy_bytes(parent.name.as_slice()),
            entry: entries.user_mode,
            child_exit: WaitQueue::new(),
            inner: TaskInner {
                state: TaskState::Ready,
                ctx: TaskContext::new(entries.trampoline, kernel_sp),
                kstack,
                level: 0,
                ticks: 0,
                needs_resched: false,
                wakeup_pending: false,
                exit_code: 0,
                space: Some(space),
                frame: Some(child_frame),
                brk: parent.inner.brk,
                heap_top: parent.inner.heap_top,
                parent: Some(parent.pid.0),
                children: Vec::new(),
            },
        };
        proof {
            assert(task.frames() =~= s.footprint().union(k.footprint()));
            let p = parent.inner.space->0;
            assert(s.mirrors(*mem, p, m0, p.regions().len() as int)) by {
                lemma_mirrors_kept(s, p, *mem, m1, m0);
            }
        }
        Some(task)
    }
}

/// A copy stays one as long as nobody touches its frames.
proof fn lemma_mirrors_kept(s: AddressSpace, p: AddressSpace, mem: Memory, m1: Memory, m0: Memory)
    requires
        m1.wf(),
        s.wf(m1),
        mem.keeps(m1, Set::empty()),
        s.mirrors(m1, p, m0, p.regions().len() as int),
    ensures
        s.mirrors(mem, p, m0, p.regions().len() as int),
{
    let n = p.regions().len() as int;
    assert forall|k: int, j: int, i: int|
        0 <= k < n && 0 <= j < s.regions()[k].frames().len() && 0 <= i < 512 implies #[trigger] mem.word(
        s.regions()[k].frames()[j],
        i,
    ) == m0.word(p.regions()[k].frames()[j], i) by {
        let q = s.regions()[k].frames()[j];
        assert(s.region_ok(m1, k));
        s.regions()[k].lemma_owned(m1);
        m1.lemma_owns_frame(q);
        assert(mem.same_frame(m1, q));
        assert(m1.word(q, i) == m0.word(p.regions()[k].frames()[j], i));
    }
}

/// `t` is `t0` with its program replaced.
pub open spec fn replaced(
    t: Task,
    mem: Memory,
    t0: Task,
    kernel: AddressSpace,
    hart: Hart,
    name: Seq<u8>,
    image: Seq<u8>,
    a: Seq<Vec<u8>>,
    o: Outcome,
) -> bool {
    let heap = larger(o.brk, USER_HEAP_BASE as int);
    &&& t.pid == t0.pid
    &&& t.name@ == name
    &&& t.entry == t0.entry
    &&& t.child_exit == t0.child_exit
    &&& t.inner.state == t0.inner.state
    &&& t.inner.ctx == t0.inner.ctx
    &&& t.inner.kstack == t0.inner.kstack
    &&& t.inner.level == t0.inner.level
    &&& t.inner.ticks == t0.inner.ticks
    &&& t.inner.needs_resched == t0.inner.needs_resched
    &&& t.inner.wakeup_pending == t0.inner.wakeup_pending
    &&& t.inner.exit_code == t0.inner.exit_code
    &&& t.inner.parent == t0.inner.parent
    &&& t.inner.children == t0.inner.children
    &&& t.inner.brk == heap
    &&& t.inner.heap_top == heap
    &&& t.inner.frame matches Some(f) && launches(
        f,
        o,
        a,
        t0.inner.kstack.low() + KERNEL_STACK_SIZE,
        kernel,
        hart,
    )
    &&& t.inner.space matches Some(s) && image::starts_as(s, mem, image, a) && image::stacked(s)
}

/// Replace `task`'s image with `image`, keeping its pid and its place in the
/// process tree. If that fails the task is as it was, and nothing was taken.
///
/// On success the old address space is gone, with every frame it owned --
/// including the stack the caller's user-mode registers point into. The new space is
/// installed before the old one goes, so that at no point does the hart run in an
/// address space that has been freed.
#[verifier::rlimit(40)]
pub fn exec_current(
    task: &mut Task,
    mem: &mut Memory,
    kernel: &AddressSpace,
    hart: &mut Hart,
    name: &[u8],
    image: &[u8],
    a: &Vec<Vec<u8>>,
) -> (r: Result<(), ExecError>)
    requires
        old(mem).wf(),
        kernel.wf(*old(mem)),
        kernel.supervisor(*old(mem)),
        old(task).sound(*old(mem), *kernel),
        image::args_room(a@) <= USER_STACK_TOP,
    ensures
        final(mem).wf(),
        kernel.wf(*final(mem)),
        kernel.supervisor(*final(mem)),
        final(task).sound(*final(mem), *kernel),
        match image::exec_result(image@, a@, old(mem).free()) {
            Ok(o) => {
                &&& r is Ok
                &&& replaced(*final(task), *final(mem), *old(task), *kernel, *old(hart), name@, image@, a@, o)
                &&& final(hart).satp == home(*final(task), *kernel)
                &&& *final(hart) == (Hart { satp: final(hart).satp, ..*old(hart) })
                &&& final(mem).keeps(*old(mem), old(task).user_frames())
                &&& final(mem).free() == o.free + old(task).user_frames().len()
                &&& forall|f: int| #[trigger] final(task).user_frames().contains(f) ==> !old(mem).used(f)
                &&& forall|f: int|
                    #[trigger] final(mem).used(f) <==> (old(mem).used(f) && !old(task).user_frames().contains(f))
                        || final(task).user_frames().contains(f)
            },
            Err(e) => {
                &&& r is Err
                &&& r->Err_0 == e
                &&& *final(task) == *old(task)
                &&& *final(hart) == *old(hart)
                &&& final(mem).took(*old(mem), Set::empty())
            },
        },
{
    let ghost m0 = *mem;
    let ghost t0 = *task;
    proof {
        t0.lemma_sound(m0, *kernel);
        assert(kernel.support().disjoint(Set::<int>::empty()));
    }
    let img: UserImage = match image::build(mem, kernel, image, a) {
        Ok(img) => img,
        Err(e) => {
            proof {
                mem.lemma_took_grew(m0, Set::empty());
                t0.lemma_kept(m0, *mem, *kernel, Set::empty());
            }
            return Err(e);
        },
    };
    let ghost m1 = *mem;
    let ghost s = img.space;
    proof {
        m1.lemma_took_grew(m0, s.footprint());
        kernel.lemma_live(m0);
        t0.lemma_kept(m0, m1, *kernel, Set::empty());
        t0.lemma_sound(m1, *kernel);
        assert forall|f: int| s.footprint().contains(f) implies !t0.frames().contains(f) by {
            if t0.frames().contains(f) {
                assert(m0.used(f));
            }
        }
    }
    let kernel_sp: u64 = task.inner.kstack.top(mem);
    let kernel_satp: u64 = kernel.token(mem);
    let frame: TrapFrame = launch_frame(&img, kernel_sp, kernel_satp, hart);
    let heap: u64 = if img.brk > USER_HEAP_BASE {
        img.brk
    } else {
        USER_HEAP_BASE
    };
    // The process keeps its pid and its place in the tree, but it is a different
    // program now and `ps` should say so.
    task.name = copy_bytes(name);
    task.inner.brk = heap;
    task.inner.heap_top = heap;
    task.inner.frame = Some(frame);
    let old: Option<AddressSpace> = task.inner.space.take();
    hart.satp = img.space.token(mem);
    task.inner.space = Some(img.space);
    proof {
        kernel.lemma_live(m1);
        assert forall|f: int| #[trigger] t0.user_frames().contains(f) implies m0.used(f) by {
            assert(t0.frames().contains(f));
        }
    }
    if let Some(old) = old {
        old.release(mem);
        proof {
            mem.lemma_gave_shrank(m1, t0.user_frames());
        }
    } else {
        proof {
            m1.lemma_grew_none(m1);
        }
    }
    proof {
        let gone = t0.user_frames();
        let m2 = *mem;
        assert(m2.gave(m1, gone));
        lemma_survives(s, m1, m2, gone);
        lemma_survives(*kernel, m1, m2, gone);
        s.lemma_still_shares(s, m1, m2, *kernel);
        lemma_shows_kept(s, m1, m2, gone, image@, a@);
        m2.lemma_keeps_twice(m1, m0, Set::empty(), gone);
        assert(Set::<int>::empty().union(gone) =~= gone);
        let k = t0.inner.kstack;
        k.lemma_valid(m1);
        assert(k.footprint().contains(k.ppn())) by {
            buddy::lemma_sizes();
        }
        assert(m2.owns(k.ppn(), 3));
        k.lemma_still_valid(m1, m2);
        assert forall|f: int| #[trigger] m2.used(f) <==> (m0.used(f) && !gone.contains(f)) || s.footprint().contains(
            f,
        ) by {
            assert(m1.used(f) <==> m0.used(f) || s.footprint().contains(f));
        }
    }
    Ok(())
}

/// The region that moving the break of `t` to `new` adds to its heap.
pub open spec fn heap_pages(t: Task, new: int) -> (int, int) {
    (t.inner.heap_top as int / 4096, addr::page_ceil(new) / 4096)
}

/// Does moving the break of `t` by `delta` stay inside the heap's range?
pub open spec fn brk_in_range(t: Task, delta: int) -> bool {
    USER_HEAP_BASE <= t.inner.brk + delta < USER_MAX_ADDR
}

/// What mapping the pages for the break at `new` comes to.
pub open spec fn brk_plan(t: Task, new: int, free: int) -> space::Plan {
    space::install(
        t.inner.space->0.leaves(),
        Backing::Framed,
        heap_pages(t, new).0,
        heap_pages(t, new).1,
        free,
    )
}

/// Can the break of `t` be moved by `delta`, with `free` frames to hand?
pub open spec fn brk_moves(t: Task, delta: int, free: int) -> bool {
    let new = t.inner.brk + delta;
    delta == 0 || (brk_in_range(t, delta) && (new <= t.inner.heap_top || (t.inner.space is Some && brk_plan(
        t,
        new,
        free,
    ).result is Ok)))
}

/// `t` is `t0` with a break, an end of the heap, and an address space of its own.
pub open spec fn same_but_heap(t: Task, t0: Task) -> bool {
    t == (Task {
        inner: TaskInner {
            brk: t.inner.brk,
            heap_top: t.inner.heap_top,
            space: t.inner.space,
            ..t0.inner
        },
        ..t0
    })
}

/// Memory from `from` to `to` was added to `s`: it may be read and written, and it
/// is zero.
pub open spec fn fresh_heap(s: AddressSpace, mem: Memory, from: int, to: int) -> bool {
    forall|x: int|
        from <= x < to ==> #[trigger] s.access(mem, x, 2) && s.access(mem, x, 4) && !s.access(mem, x, 8)
            && s.ubyte(mem, x) == 0
}

/// The space of `t` is that of `t0` with memory added: what user code could access
/// it still can, and it finds there what it left.
pub open spec fn grown(t: Task, mem: Memory, t0: Task, m0: Memory) -> bool {
    &&& t.inner.space matches Some(s) && t0.inner.space matches Some(s0) && {
        &&& s.root() == s0.root()
        &&& s.regions().drop_last() == s0.regions()
        &&& forall|x: int, need: u64| s0.access(m0, x, need) ==> #[trigger] s.access(mem, x, need)
        &&& forall|x: int| s0.access(m0, x, 0) ==> #[trigger] s.ubyte(mem, x) == s0.ubyte(m0, x)
    }
    &&& mem.free() == brk_plan(t0, t.inner.heap_top as int, m0.free()).free
}

/// The space of `t` has the regions of that of `t0`, and user code can access what it
/// could and finds there what it left.
pub open spec fn unchanged(t: Task, mem: Memory, t0: Task, m0: Memory) -> bool {
    t.inner.space matches Some(s) && t0.inner.space matches Some(s0) && {
        &&& s.root() == s0.root()
        &&& s.regions() == s0.regions()
        &&& space::unmoved(mem, m0, s0.root())
        &&& forall|x: int, need: u64| #[trigger] s.access(mem, x, need) == s0.access(m0, x, need)
        &&& forall|x: int| s0.access(m0, x, 0) ==> #[trigger] s.ubyte(mem, x) == s0.ubyte(m0, x)
    }
}

/// A region that is pushed leaves alone what is not the space's.
proof fn lemma_pushed_keeps(
    s: AddressSpace,
    mem: Memory,
    s0: AddressSpace,
    m0: Memory,
    g: Region,
    res: Result<(), MapError>,
)
    requires
        m0.wf(),
        s0.wf(m0),
        s.pushed(mem, s0, m0, g, res),
    ensures
        mem.keeps(m0, s0.footprint()),
{
    let added = s.footprint().difference(s0.footprint());
    assert forall|f: int| m0.used(f) && !s0.footprint().contains(f) implies #[trigger] mem.same_frame(m0, f) by {
        assert(mem.used(f));
        assert(!s0.spec_table().own().contains(f));
    }
}

/// The regions of a space do not overlap.
proof fn lemma_regions_apart(s: AddressSpace, mem: Memory, i: int, j: int, w: int)
    requires
        mem.wf(),
        s.wf(mem),
        s.is_user(),
        0 <= i < s.regions().len(),
        0 <= j < s.regions().len(),
        i != j,
        0 <= w,
        s.in_region(w, i),
    ensures
        !s.in_region(w, j),
{
    if s.in_region(w, j) {
        reveal(AddressSpace::sound);
        let a = s.regions()[i];
        let b = s.regions()[j];
        assert(s.backed(mem, w, i) && s.backed(mem, w, j));
        assert(s.region_ok(mem, i) && s.region_ok(mem, j));
        let oa = space::offset(w, a.first());
        let ob = space::offset(w, b.first());
        space::lemma_offset(w, a.first());
        space::lemma_offset(w, b.first());
        a.lemma_owned(mem);
        b.lemma_owned(mem);
        mem.lemma_owns_frame(a.frames()[oa]);
        mem.lemma_owns_frame(b.frames()[ob]);
        page_table::lemma_installed(a.spec_perm());
        page_table::lemma_installed(b.spec_perm());
        assert(a.frames()[oa] == b.frames()[ob]);
        assert(a.frames().to_set().contains(a.frames()[oa]));
        assert(b.frames().to_set().contains(b.frames()[ob]));
    }
}

/// Pages that were mapped before a region was pushed are mapped as they were.
proof fn lemma_old_page(
    s: AddressSpace,
    mem: Memory,
    s0: AddressSpace,
    m0: Memory,
    g: Region,
    res: Result<(), MapError>,
    x: int,
)
    requires
        m0.wf(),
        mem.wf(),
        s0.wf(m0),
        s0.is_user(),
        s.is_user(),
        res is Ok,
        s.pushed(mem, s0, m0, g, res),
        s.regions().last().placed(mem, m0, s0.root(), s.regions().last().frames()),
        s0.access(m0, x, 0),
    ensures
        s.page_entry(mem, x) == s0.page_entry(m0, x),
        s.ubyte(mem, x) == s0.ubyte(m0, x),
{
    let w = x / 4096;
    let n = s0.regions().len() as int;
    let l = s.regions()[n];
    assert(s.regions().last() == l);
    let i = s0.lemma_user_page(m0, x);
    assert(s.regions()[i] == s.regions().drop_last()[i]);
    assert(s.regions()[i] == s0.regions()[i]);
    s0.lemma_full(m0, i);
    assert(s.in_region(w, i));
    lemma_regions_apart(s, mem, i, n, w);
    s.lemma_full(mem, n);
    assert(page_table::walk(mem, s.root(), w) == page_table::walk(m0, s0.root(), w));
    let p = page_table::entry_ppn(s0.page_entry(m0, x)->0);
    assert(s0.region_ok(m0, i));
    assert(s0.regions()[i].frames().to_set().contains(p));
    assert(mem.used(p));
    assert(mem.same_frame(m0, p));
    assert(mem.word(p, (x % 4096) / 8) == m0.word(p, (x % 4096) / 8));
}

/// The heap grew.
#[verifier::rlimit(40)]
proof fn lemma_grown(t: Task, mem: Memory, t0: Task, m0: Memory, kernel: AddressSpace, g: Region, res: Result<(), MapError>)
    requires
        m0.wf(),
        mem.wf(),
        kernel.wf(m0),
        t0.sound(m0, kernel),
        t0.inner.space is Some,
        t.inner.space is Some,
        t.inner.kstack == t0.inner.kstack,
        t0.inner.heap_top % PAGE_SIZE == 0,
        t0.inner.heap_top < t.inner.heap_top <= USER_MAX_ADDR,
        t.inner.heap_top % PAGE_SIZE == 0,
        g.wf(),
        g.lower(),
        g.spec_backing() == Backing::Framed,
        g.spec_start() == t0.inner.heap_top,
        g.spec_end() == t.inner.heap_top,
        g.spec_perm() == USER_RW,
        res is Ok,
        t.inner.space->0.pushed(mem, t0.inner.space->0, m0, g, res),
        t.inner.space->0.regions().last().placed(
            mem,
            m0,
            t0.inner.space->0.root(),
            t.inner.space->0.regions().last().frames(),
        ),
    ensures
        t.sound(mem, kernel),
        grown(t, mem, t0, m0),
        fresh_heap(t.inner.space->0, mem, t0.inner.heap_top as int, t.inner.heap_top as int),
{
    let s = t.inner.space->0;
    let s0 = t0.inner.space->0;
    let n = s0.regions().len() as int;
    let l = s.regions()[n];
    assert(s.regions().last() == l);
    assert(l.same_range(g));
    assert forall|k: int| 0 <= k < s.regions().len() implies (#[trigger] s.regions()[k]).lower()
        && s.regions()[k].spec_backing() == Backing::Framed by {
        if k < n {
            assert(s.regions()[k] == s.regions().drop_last()[k]);
            assert(s0.regions()[k].lower());
        }
    }
    kernel.lemma_live(m0);
    s0.lemma_live(m0);
    lemma_pushed_keeps(s, mem, s0, m0, g, res);
    let k = t.inner.kstack;
    t0.lemma_sound(m0, kernel);
    k.lemma_valid(m0);
    assert(k.footprint().contains(k.ppn())) by {
        buddy::lemma_sizes();
    }
    assert(!s0.footprint().contains(k.ppn()));
    assert(mem.owns(k.ppn(), 3));
    k.lemma_still_valid(m0, mem);
    assert forall|p: int| s.footprint().contains(p) implies !kernel.support().contains(p) by {
        if !s0.footprint().contains(p) {
            assert(s.footprint().difference(s0.footprint()).contains(p));
            assert(!m0.used(p));
        }
    }
    lemma_survives(kernel, m0, mem, s0.footprint());
    s.lemma_push_shares(mem, s0, m0, kernel, g, res);
    assert forall|x: int, need: u64| s0.access(m0, x, need) implies #[trigger] s.access(mem, x, need) by {
        s0.lemma_any_access(m0, x, need);
        lemma_old_page(s, mem, s0, m0, g, res, x);
    }
    assert forall|x: int| s0.access(m0, x, 0) implies #[trigger] s.ubyte(mem, x) == s0.ubyte(m0, x) by {
        lemma_old_page(s, mem, s0, m0, g, res, x);
    }
    assert forall|x: int| t0.inner.heap_top <= x < t.inner.heap_top implies #[trigger] s.access(mem, x, 2) && s.access(
        mem,
        x,
        4,
    ) && !s.access(mem, x, 8) && s.ubyte(mem, x) == 0 by {
        s.lemma_in_region(mem, n, x);
        page_table::lemma_flag_bits(USER_RW);
        let h = x / 4096 - l.first();
        assert(mem.zeroed(l.frames()[h]));
        assert(mem.word(l.frames()[h], (x % 4096) / 8) == 0);
        bits::lemma_byte_update(0, 0, ((x % 4096) % 8) as u64, 0);
    }
}

/// A heap that could not be extended.
proof fn lemma_refused(t: Task, mem: Memory, t0: Task, m0: Memory, kernel: AddressSpace, g: Region, res: Result<(), MapError>)
    requires
        m0.wf(),
        mem.wf(),
        kernel.wf(m0),
        t0.sound(m0, kernel),
        t0.inner.space is Some,
        t.inner.space is Some,
        t.inner.kstack == t0.inner.kstack,
        res is Err,
        t.inner.space->0.pushed(mem, t0.inner.space->0, m0, g, res),
    ensures
        t.sound(mem, kernel),
        unchanged(t, mem, t0, m0),
{
    let s0 = t0.inner.space->0;
    let s = t.inner.space->0;
    let added = s.footprint().difference(s0.footprint());
    t0.lemma_sound(m0, kernel);
    kernel.lemma_live(m0);
    s0.lemma_live(m0);
    lemma_pushed_keeps(s, mem, s0, m0, g, res);
    let k = t.inner.kstack;
    k.lemma_valid(m0);
    assert(k.footprint().contains(k.ppn())) by {
        buddy::lemma_sizes();
    }
    assert(!s0.footprint().contains(k.ppn()));
    assert(mem.owns(k.ppn(), 3));
    k.lemma_still_valid(m0, mem);
    assert forall|f: int| s.footprint().contains(f) implies !kernel.support().contains(f) by {
        if !s0.footprint().contains(f) {
            assert(added.contains(f));
            assert(!m0.used(f));
        }
    }
    lemma_survives(kernel, m0, mem, s0.footprint());
    s.lemma_still_shares(s0, m0, mem, kernel);
    assert forall|x: int, need: u64| #[trigger] s.access(mem, x, need) == s0.access(m0, x, need) by {
        assert(page_table::walk(mem, s0.root(), x / 4096) == page_table::walk(m0, s0.root(), x / 4096) || x < 0);
    }
    assert forall|x: int| s0.access(m0, x, 0) implies #[trigger] s.ubyte(mem, x) == s0.ubyte(m0, x) by {
        let i = s0.lemma_user_page(m0, x);
        s0.lemma_full(m0, i);
        assert(page_table::walk(mem, s0.root(), x / 4096) == page_table::walk(m0, s0.root(), x / 4096));
        let p = page_table::entry_ppn(s0.page_entry(m0, x)->0);
        assert(s0.region_ok(m0, i));
        assert(s0.regions()[i].frames().to_set().contains(p));
        assert(mem.used(p));
        assert(mem.same_frame(m0, p));
        assert(mem.word(p, (x % 4096) / 8) == m0.word(p, (x % 4096) / 8));
    }
}

/// The task and the memory after a move of the break by `delta`, which succeeded if
/// `moved`: growth is backed by fresh zeroed pages, and all else stays.
pub open spec fn brk_done(
    t: Task,
    mem: Memory,
    t0: Task,
    m0: Memory,
    kernel: AddressSpace,
    delta: int,
    moved: bool,
) -> bool {
    let new = t0.inner.brk + delta;
    let grows = delta != 0 && brk_in_range(t0, delta) && new > t0.inner.heap_top;
    &&& t.sound(mem, kernel)
    &&& !moved ==> t.inner.brk == t0.inner.brk && t.inner.heap_top == t0.inner.heap_top && (t0.inner.space is Some
        ==> unchanged(t, mem, t0, m0))
    &&& moved ==> t.inner.brk == new
    &&& moved && grows ==> {
        &&& t.inner.heap_top == addr::page_ceil(new)
        &&& grown(t, mem, t0, m0)
        &&& t.inner.space matches Some(s) && fresh_heap(
            s,
            mem,
            t0.inner.heap_top as int,
            addr::page_ceil(new),
        )
    }
    &&& !grows ==> mem == m0 && t.inner.space == t0.inner.space
    &&& moved && !grows ==> t.inner.heap_top == t0.inner.heap_top
}

/// Move `task`'s program break by `delta`, returning the previous break. `None` if
/// it cannot be moved there.
///
/// Growth is backed immediately rather than lazily. If memory runs out on the way,
/// the pages that were mapped are removed and their frames given back; all that stays
/// is interior tables.
#[verifier::rlimit(40)]
pub fn adjust_brk(task: &mut Task, mem: &mut Memory, kernel: &AddressSpace, delta: i64) -> (r: Option<u64>)
    requires
        old(mem).wf(),
        kernel.wf(*old(mem)),
        kernel.supervisor(*old(mem)),
        old(task).sound(*old(mem), *kernel),
        old(task).inner.heap_top % PAGE_SIZE == 0,
        old(task).inner.heap_top <= USER_MAX_ADDR,
    ensures
        final(mem).wf(),
        kernel.wf(*final(mem)),
        kernel.supervisor(*final(mem)),
        final(task).inner.heap_top % PAGE_SIZE == 0,
        final(task).inner.heap_top <= USER_MAX_ADDR,
        same_but_heap(*final(task), *old(task)),
        r is Some <==> brk_moves(*old(task), delta as int, old(mem).free()),
        r matches Some(b) ==> b == old(task).inner.brk,
        final(mem).keeps(*old(mem), old(task).user_frames()),
        forall|f: int|
            #[trigger] final(task).user_frames().contains(f) ==> old(task).user_frames().contains(f)
                || !old(mem).used(f),
        final(task).sound(*final(mem), *kernel),
        brk_done(*final(task), *final(mem), *old(task), *old(mem), *kernel, delta as int, r is Some),
{
    let ghost m0 = *mem;
    let ghost t0 = *task;
    let old_brk: u64 = task.inner.brk;
    if delta == 0 {
        return Some(old_brk);
    }
    let new: u64 = if delta > 0 {
        match old_brk.checked_add(delta as u64) {
            Some(new) => new,
            None => {
                return None;
            },
        }
    } else {
        let down: u64 = if delta == i64::MIN {
            0x8000_0000_0000_0000
        } else {
            (-delta) as u64
        };
        match old_brk.checked_sub(down) {
            Some(new) => new,
            None => {
                return None;
            },
        }
    };
    if !(USER_HEAP_BASE <= new && new < USER_MAX_ADDR) {
        return None;
    }
    if new > task.inner.heap_top {
        // Extend the heap region to cover the new break.
        let from: VirtAddr = VirtAddr(task.inner.heap_top);
        let to: VirtAddr = VirtAddr(new).align_up();
        let mut space: AddressSpace = match task.inner.space.take() {
            Some(space) => space,
            None => {
                return None;
            },
        };
        let region: Region = Region::new(from, to, Backing::Framed, PteFlags(USER_RW));
        let ghost s0 = space;
        let ghost g = region;
        let res = space.push(mem, region);
        let ghost s1 = space;
        let ghost m1 = *mem;
        task.inner.space = Some(space);
        proof {
            kernel.lemma_live(m0);
            s0.lemma_live(m0);
            lemma_pushed_keeps(s1, m1, s0, m0, g, res);
            assert(t0.user_frames() == s0.footprint());
            assert forall|f: int| #[trigger] s1.footprint().contains(f) implies s0.footprint().contains(f)
                || !m0.used(f) by {
                if !s0.footprint().contains(f) {
                    assert(s1.footprint().difference(s0.footprint()).contains(f));
                }
            }
            lemma_survives(*kernel, m0, m1, s0.footprint());
        }
        if res.is_err() {
            proof {
                lemma_refused(*task, m1, t0, m0, *kernel, g, res);
            }
            return None;
        }
        task.inner.heap_top = to.0;
        proof {
            lemma_grown(*task, m1, t0, m0, *kernel, g, res);
        }
    }
    task.inner.brk = new;
    Some(old_brk)
}

/// The token of the address space that `task` should run in: its own, or the kernel's.
pub open spec fn home(task: Task, kernel: AddressSpace) -> int {
    match task.inner.space {
        Some(s) => s.spec_token(),
        None => kernel.spec_token(),
    }
}

/// The address space the task should run in, or the kernel's.
pub fn space_token(task: &Task, mem: &Memory, kernel: &AddressSpace) -> (r: u64)
    requires
        mem.wf(),
        kernel.wf(*mem),
        task.sound(*mem, *kernel),
    ensures
        r == home(*task, *kernel),
{
    match &task.inner.space {
        Some(space) => space.token(mem),
        None => kernel.token(mem),
    }
}

/// `task`'s trap frame, for the user return path. Only a user task has one.
pub fn frame_ptr(task: &mut Task) -> (r: &mut TrapFrame)
    requires
        old(task).inner.frame is Some,
    ensures
        *r == old(task).inner.frame->0,
        *final(task) == (Task {
            inner: TaskInner { frame: Some(*final(r)), ..old(task).inner },
            ..*old(task)
        }),
{
    task.inner.frame.as_mut().unwrap()
}

/// At the moment of a fork the child's memory is the parent's, address by address.
pub proof fn law_child_sees_what_parent_saw(
    t: Task,
    mem: Memory,
    parent: Task,
    before: Memory,
    kernel: AddressSpace,
    hart: Hart,
    entries: Entries,
    frame: TrapFrame,
    x: int,
    need: u64,
)
    requires
        before.wf(),
        mem.wf(),
        parent.sound(before, kernel),
        t.sound(mem, kernel),
        is_child(t, mem, parent, before, kernel, hart, entries, frame),
        need < 1024,
    ensures
        t.inner.space->0.access(mem, x, need) == parent.inner.space->0.access(before, x, need),
        parent.inner.space->0.access(before, x, need) ==> t.inner.space->0.ubyte(mem, x)
            == parent.inner.space->0.ubyte(before, x),
{
    duplicate::law_duplicate_is_equal(parent.inner.space->0, t.inner.space->0, before, mem, x, need);
}

/// The two halves of a fork resume at the same place with the same registers, but
/// for `a0`, which is zero in the child.
pub proof fn law_fork_differs_in_a0(
    f: TrapFrame,
    parent: TrapFrame,
    kernel_sp: int,
    kernel: AddressSpace,
    hart: Hart,
    i: int,
)
    requires
        forked(f, parent, kernel_sp, kernel, hart),
        0 <= i < 32,
    ensures
        f.sepc == parent.sepc,
        f.sstatus == parent.sstatus,
        f.x@[i] == (if i == 10 {
            0
        } else {
            parent.x@[i]
        }),
{
}

/// A new program starts at its entry point with `argc` and `argv` in `a0` and
/// `a1`, a 16-byte aligned stack, and every argument where `argv` says.
pub proof fn law_program_finds_its_arguments(
    s: AddressSpace,
    mem: Memory,
    f: TrapFrame,
    o: Outcome,
    image: Seq<u8>,
    a: Seq<Vec<u8>>,
    kernel_sp: int,
    kernel: AddressSpace,
    hart: Hart,
    i: int,
    max: int,
)
    requires
        image::args_room(a) <= USER_STACK_TOP,
        image::args_fit(image, a),
        image::starts_as(s, mem, image, a),
        launches(f, o, a, kernel_sp, kernel, hart),
        0 <= i < a.len() < u64::MAX,
        a[i]@.len() < max,
        forall|k: int| 0 <= k < a[i]@.len() ==> a[i]@[k] != 0,
        forall|x: int|
            args::argv_at(a, USER_STACK_TOP as int) <= x < USER_STACK_TOP && #[trigger] s.access(mem, x, 4)
                ==> s.access(mem, x, 2) && s.access(mem, x, 0),
    ensures
        f.sepc == o.entry,
        f.x@[10] == a.len(),
        f.x@[2] % 16 == 0,
        s.cstr(mem, s.uword(mem, f.x@[11] + 8 * i), max) == Some(a[i]@),
        s.uword(mem, f.x@[11] + 8 * a.len()) == 0,
{
    let sp = USER_STACK_TOP as int;
    assert forall|x: int| 0 <= x < USER_MAX_ADDR implies s.access(mem, x, 4) == #[trigger] image::writable(image, x) by {
        image::lemma_writable(s, mem, image, x, image::program_byte(image, a, x));
    }
    image::lemma_fits(s, mem, image, a);
    args::lemma_layout(a, sp);
    assert(args::overlaid(s, mem, mem, |x: int| args::vector(a, sp, a.len() as int + 1, x))) by {
        assert forall|x: int|
            #![trigger s.ubyte(mem, x)]
            0 <= x < USER_MAX_ADDR && s.access(mem, x, 0) implies s.ubyte(mem, x) == (match args::vector(
            a,
            sp,
            a.len() as int + 1,
            x,
        ) {
            Some(b) => b,
            None => s.ubyte(mem, x),
        }) by {
            assert(image::shows(s, mem, x, image::bare(image, x), image::program_byte(image, a, x)));
        }
    }
    args::law_arguments_arrive(s, mem, mem, a, sp, i, max);
}

/// The heap of a new program starts above the program, and nowhere below its base.
pub proof fn law_heap_is_above_the_program(
    t: Task,
    mem: Memory,
    t0: Task,
    kernel: AddressSpace,
    hart: Hart,
    entries: Entries,
    image: Seq<u8>,
    name: Seq<u8>,
    a: Seq<Vec<u8>>,
    o: Outcome,
)
    requires
        newborn(t, mem, kernel, hart, entries, image, a, o) || replaced(t, mem, t0, kernel, hart, name, image, a, o),
    ensures
        t.inner.brk >= o.brk,
        t.inner.brk >= 0x1000_0000,
        t.inner.brk == o.brk || t.inner.brk == 0x1000_0000,
        t.inner.heap_top == t.inner.brk,
        t.inner.frame matches Some(f) && f.sepc == o.entry && f.x@[10] == a.len() && f.x@[11] == f.x@[2] && context::user_status(
            f.sstatus,
        ),
{
    context::lemma_entry_status(hart.sstatus, 8);
}

/// Every user task finds its way back into the kernel: its frame has the top of its own
/// kernel stack, the kernel's space and the hart, and before it first runs it is about to
/// enter from the top of that stack.
pub proof fn law_traps_lead_to_the_own_stack(
    t: Task,
    mem: Memory,
    t0: Task,
    m0: Memory,
    kernel: AddressSpace,
    hart: Hart,
    entries: Entries,
    image: Seq<u8>,
    name: Seq<u8>,
    a: Seq<Vec<u8>>,
    o: Outcome,
    frame: TrapFrame,
)
    requires
        ({
            ||| newborn(t, mem, kernel, hart, entries, image, a, o)
            ||| replaced(t, mem, t0, kernel, hart, name, image, a, o) && t.inner.kstack == t0.inner.kstack
            ||| is_child(t, mem, t0, m0, kernel, hart, entries, frame)
        }),
    ensures
        t.inner.frame matches Some(f) && f.kernel_sp == t.inner.kstack.low() + 0x8000 && f.kernel_satp
            == 0x8000_0000_0000_0000 + kernel.root() && f.kernel_hartid == hart.id,
        newborn(t, mem, kernel, hart, entries, image, a, o) || is_child(t, mem, t0, m0, kernel, hart, entries, frame)
            ==> {
            &&& t.inner.ctx.ra == entries.trampoline
            &&& t.inner.ctx.sp == (t.inner.kstack.low() + 0x8000) as u64
            &&& t.entry == entries.user_mode
            &&& t.inner.state == TaskState::Ready
            &&& t.inner.level == 0
            &&& t.inner.ticks == 0
            &&& !t.inner.wakeup_pending
            &&& t.inner.children@.len() == 0
            &&& t.child_exit@.len() == 0
        },
{
}

} // verus!
