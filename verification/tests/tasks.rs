//! Locks, wait queues, tasks and their scheduling.

use alexos::arch::{self, Hart};
use alexos::config::{DRAM_BASE, DRAM_SIZE, KERNEL_PHYS_BASE, KERNEL_STACK_SIZE, PAGE_SIZE, VIRT_OFFSET};
use alexos::mm;
use alexos::mm::addr::PhysPageNum;
use alexos::mm::dram::Dram;
use alexos::mm::frame::Memory;
use alexos::mm::kernel::{init_kernel_space, KernelLayout};
use alexos::mm::space::AddressSpace;
use alexos::sync::wait::{Mutex, Semaphore, Step, WaitQueue};
use alexos::sync::{Once, SpinLock};
use alexos::task::scheduler::{self, Dispatch, Scheduler};
use alexos::task::{Pids, Task, TaskContext, TaskState};
use alexos::timer;

struct Machine {
    mem: Memory,
    kernel: AddressSpace,
    sched: Scheduler,
    pids: Pids,
    hart: Hart,
}

fn machine() -> Machine {
    let mut mem = Memory::new(Dram::new(PhysPageNum(DRAM_BASE / PAGE_SIZE), DRAM_SIZE / PAGE_SIZE));
    mm::init(&mut mem, VIRT_OFFSET + 0x802c_2000);
    let v = VIRT_OFFSET + KERNEL_PHYS_BASE;
    let layout = KernelLayout {
        text_start: v,
        text_end: v + 0x2_0000,
        rodata_start: v + 0x2_0000,
        rodata_end: v + 0x3_0000,
        data_start: v + 0x3_0000,
        data_end: v + 0x3_1000,
        bss_start: v + 0x3_1000,
        bss_end: v + 0x4_0000,
        kernel_end: v + 0xc_2000,
    };
    let kernel = init_kernel_space(&mut mem, &layout).expect("kernel space");
    Machine { mem, kernel, sched: Scheduler::new(), pids: Pids::new(), hart: hart() }
}

fn hart() -> Hart {
    let mut h = Hart { id: 0, sstatus: 0, sie: 0, sip: 0, satp: 0 };
    arch::intr_enable(&mut h);
    h
}

impl Machine {
    fn spawn(&mut self, name: &[u8]) -> u64 {
        scheduler::spawn(&mut self.sched, &mut self.mem, &self.kernel, &mut self.pids, name, 0x1234, 0x5678)
            .expect("spawn failed")
            .0
    }

    fn run(&mut self) -> Option<u64> {
        match scheduler::run(&mut self.sched, &mut self.mem, &self.kernel) {
            Dispatch::Task(pid, _) => {
                arch::intr_enable(&mut self.hart);
                Some(pid)
            }
            Dispatch::Idle => None,
        }
    }

    fn yield_now(&mut self) {
        let was = scheduler::yield_now(&mut self.sched, &self.mem, &mut self.hart, TaskContext::zeroed());
        assert_eq!(was, Ok(true));
    }

    fn state(&self, pid: u64) -> TaskState {
        self.sched.tasks[self.sched.find(pid).unwrap()].state()
    }

    fn level(&self, pid: u64) -> usize {
        self.sched.tasks[self.sched.find(pid).unwrap()].inner.level
    }
}

#[test]
fn spinlock_guards_data() {
    let mut h = hart();
    let mut lock = SpinLock::new(41);
    let guard = lock.lock(&mut h);
    let next = *lock.get(&guard) + 1;
    lock.set(&guard, next);
    assert!(lock.try_lock(&mut h).is_none());
    assert_eq!(*lock.get(&guard), 42);
    lock.unlock(guard, &mut h);
    let guard = lock.lock(&mut h);
    assert_eq!(*lock.get(&guard), 42);
    lock.unlock(guard, &mut h);
    *lock.get_mut() += 1;
    assert!(lock.try_lock(&mut h).is_some());
    assert_eq!(lock.into_inner(), 43);
    assert_eq!(SpinLock::<u32>::default().into_inner(), 0);
    assert!(WaitQueue::default().is_empty());
}

#[test]
fn spinlock_restores_interrupt_state() {
    let mut h = hart();
    assert!(arch::intr_enabled(&h));
    let mut lock = SpinLock::new(());
    let guard = lock.lock(&mut h);
    assert!(!arch::intr_enabled(&h));
    lock.unlock(guard, &mut h);
    assert!(arch::intr_enabled(&h), "guard failed to restore interrupts");
    // Nested: the inner lock must not unmask them.
    let mut inner = SpinLock::new(());
    let a = lock.lock(&mut h);
    let b = inner.lock(&mut h);
    inner.unlock(b, &mut h);
    assert!(!arch::intr_enabled(&h));
    lock.unlock(a, &mut h);
    assert!(arch::intr_enabled(&h));
}

#[test]
fn once_is_written_once() {
    let mut cell: Once<u64> = Once::new();
    assert!(!cell.is_initialized());
    cell.init(7);
    assert!(cell.is_initialized());
    assert_eq!(cell.get(), 7);
    let empty: Once<u64> = Once::default();
    assert!(!empty.is_initialized());
}

#[test]
fn semaphore_counts_permits() {
    let mut m = machine();
    m.spawn(b"ktest");
    m.run();
    let ctx = TaskContext::zeroed();
    let mut sem = Semaphore::new(2);
    assert_eq!(sem.available(), 2);
    assert_eq!(sem.acquire(&mut m.sched, &m.mem, &mut m.hart, ctx), Ok(Step::Done));
    assert_eq!(sem.acquire(&mut m.sched, &m.mem, &mut m.hart, ctx), Ok(Step::Done));
    assert_eq!(sem.available(), 0);
    sem.release(&mut m.sched);
    assert_eq!(sem.available(), 1);
    assert_eq!(sem.acquire(&mut m.sched, &m.mem, &mut m.hart, ctx), Ok(Step::Done));
    assert_eq!(sem.available(), 0);
}

#[test]
fn semaphore_parks_and_wakes() {
    let mut m = machine();
    let a = m.spawn(b"a");
    let b = m.spawn(b"b");
    let ctx = TaskContext::zeroed();
    let mut sem = Semaphore::new(0);
    assert_eq!(m.run(), Some(a));
    assert_eq!(sem.acquire(&mut m.sched, &m.mem, &mut m.hart, ctx), Ok(Step::Parked(true)));
    assert_eq!(m.state(a), TaskState::Blocked);
    assert_eq!(m.run(), Some(b));
    sem.release(&mut m.sched);
    assert_eq!(m.state(a), TaskState::Ready);
    m.yield_now();
    assert_eq!(m.run(), Some(a));
    sem.resume(a);
    assert_eq!(sem.acquire(&mut m.sched, &m.mem, &mut m.hart, ctx), Ok(Step::Done));
}

#[test]
fn mutex_parks_the_second_owner() {
    let mut m = machine();
    let a = m.spawn(b"a");
    let b = m.spawn(b"b");
    let ctx = TaskContext::zeroed();
    let mut mutex = Mutex::new(1u64);
    assert_eq!(m.run(), Some(a));
    let held = match mutex.lock(&mut m.sched, &m.mem, &mut m.hart, ctx) {
        Ok((Step::Done, Some(g))) => g,
        _ => panic!("free mutex"),
    };
    mutex.set(&held, 2);
    m.yield_now();
    assert_eq!(m.run(), Some(b));
    assert!(mutex.try_lock().is_none());
    assert!(matches!(mutex.lock(&mut m.sched, &m.mem, &mut m.hart, ctx), Ok((Step::Parked(true), None))));
    assert_eq!(m.run(), Some(a));
    mutex.unlock(held, &mut m.sched);
    m.yield_now();
    assert_eq!(m.run(), Some(b));
    mutex.resume(b);
    match mutex.lock(&mut m.sched, &m.mem, &mut m.hart, ctx) {
        Ok((Step::Done, Some(g))) => assert_eq!(*mutex.get(&g), 2),
        _ => panic!("mutex was released"),
    }
}

#[test]
fn wait_queue_wakes_a_blocked_task() {
    let mut m = machine();
    let main = m.spawn(b"ktest");
    let waiter = m.spawn(b"ktest-waiter");
    let ctx = TaskContext::zeroed();
    let mut queue = WaitQueue::new();
    let mut ready = false;
    let mut done = false;

    assert_eq!(m.run(), Some(main));
    for _ in 0..64 {
        m.yield_now();
        if m.run() == Some(waiter) {
            match queue.wait_until(ready, &mut m.sched, &m.mem, &mut m.hart, ctx) {
                Ok(Step::Done) => done = true,
                Ok(Step::Parked(was)) => assert!(was),
                Err(e) => panic!("{:?}", e),
            }
            assert_eq!(m.run(), Some(main));
        }
    }
    assert!(!done, "waiter ran before being woken");
    assert_eq!(queue.len(), 1, "waiter is not on the queue");

    ready = true;
    queue.wake_all(&mut m.sched);
    assert!(queue.is_empty());
    for _ in 0..64 {
        m.yield_now();
        if m.run() == Some(waiter) {
            queue.leave(waiter);
            assert_eq!(queue.wait_until(ready, &mut m.sched, &m.mem, &mut m.hart, ctx), Ok(Step::Done));
            done = true;
            break;
        }
    }
    assert!(done, "waiter was never woken");
}

#[test]
fn wakeup_before_the_switch_is_not_lost() {
    let mut m = machine();
    let a = m.spawn(b"a");
    assert_eq!(m.run(), Some(a));
    let mut queue = WaitQueue::new();
    queue.enqueue(a);
    // The event arrives while the waiter still runs.
    queue.wake_one(&mut m.sched);
    scheduler::block_current(&mut m.sched, &m.mem, &mut m.hart, TaskContext::zeroed()).unwrap();
    assert_eq!(m.state(a), TaskState::Ready);
    assert_eq!(m.run(), Some(a));
}

#[test]
fn scheduler_preempts_a_task_that_never_yields() {
    let mut m = machine();
    let main = m.spawn(b"ktest");
    let spinner = m.spawn(b"ktest-spinner");
    let mut clock = timer::init(0);
    let mut spins = 0u64;
    let start = timer::ticks(&clock);
    m.run();
    while timer::ticks(&clock) < start + 8 {
        if scheduler::current(&m.sched) == Some(spinner) {
            spins += 1;
        }
        let now = clock.next_deadline;
        timer::on_tick(&mut clock, now);
        scheduler::on_timer_tick(&mut m.sched);
        assert!(scheduler::resched_if_needed(&mut m.sched));
        assert!(!scheduler::resched_if_needed(&mut m.sched));
        m.yield_now();
        m.run();
    }
    assert!(spins > 0, "a task that never yields was never scheduled: preemption is broken");
    assert_eq!(spins, 4);
    assert_eq!(m.level(main), 1);
}

#[test]
fn task_pids_are_unique_and_monotonic() {
    let mut m = machine();
    let before = m.mem.free_frames();
    let a = Task::new_kernel(&mut m.mem, &mut m.pids, b"ktest-a", 0, 0).expect("task a");
    let b = Task::new_kernel(&mut m.mem, &mut m.pids, b"ktest-b", 0, 0).expect("task b");
    assert!(b.pid.0 > a.pid.0, "pids must never be reused");
    let last = b.pid.0;
    a.release(&mut m.mem, &m.kernel);
    b.release(&mut m.mem, &m.kernel);
    assert_eq!(m.mem.free_frames(), before);
    let c = Task::new_kernel(&mut m.mem, &mut m.pids, b"ktest-c", 0, 0).expect("task c");
    assert!(c.pid.0 > last);
}

#[test]
fn kernel_stack_canary_is_intact() {
    let mut m = machine();
    let task = Task::new_kernel(&mut m.mem, &mut m.pids, b"ktest-stack", 0, 0).expect("task");
    let stack = &task.inner.kstack;
    assert!(stack.canary_intact(&m.mem));
    assert!(stack.top(&m.mem) > stack.bottom(&m.mem));
    assert_eq!(stack.top(&m.mem) - stack.bottom(&m.mem), KERNEL_STACK_SIZE);
    assert_eq!(stack.headroom(&m.mem, stack.bottom(&m.mem) + 100), 100);
    // Overflowing the stack overwrites the canary.
    let p = PhysPageNum((stack.bottom(&m.mem) - VIRT_OFFSET) / PAGE_SIZE);
    m.mem.write(p, 0, 0);
    assert!(!task.inner.kstack.canary_intact(&m.mem));
}

#[test]
fn overflowing_a_stack_is_reported_at_the_next_switch() {
    let mut m = machine();
    let a = m.spawn(b"a");
    m.run();
    let bottom = m.sched.tasks[0].inner.kstack.bottom(&m.mem);
    m.mem.write(PhysPageNum((bottom - VIRT_OFFSET) / PAGE_SIZE), 0, 0);
    let e = scheduler::yield_now(&mut m.sched, &m.mem, &mut m.hart, TaskContext::zeroed());
    assert_eq!(e.unwrap_err().pid, a);
}

#[test]
fn arc_task_is_freed_when_dropped() {
    let mut m = machine();
    let before = m.mem.free_frames();
    let task = Task::new_kernel(&mut m.mem, &mut m.pids, b"ktest-arc", 0, 0).expect("task");
    assert_eq!(m.mem.free_frames(), before - 8);
    task.release(&mut m.mem, &m.kernel);
    assert_eq!(m.mem.free_frames(), before, "task outlived its last reference");
}

#[test]
fn a_new_task_starts_at_the_trampoline() {
    let mut m = machine();
    let pid = m.spawn(b"t");
    let t = &m.sched.tasks[0];
    assert_eq!(t.inner.ctx.ra, 0x5678);
    assert_eq!(t.inner.ctx.sp, t.inner.kstack.top(&m.mem));
    assert_eq!(t.entry, 0x1234);
    match scheduler::run(&mut m.sched, &mut m.mem, &m.kernel) {
        Dispatch::Task(p, ctx) => assert_eq!((p, ctx.ra), (pid, 0x5678)),
        Dispatch::Idle => panic!("a task is ready"),
    }
    assert_eq!(scheduler::stats(&m.sched), (0, 1));
}

#[test]
fn compute_bound_work_sinks_and_blocking_rises() {
    let mut m = machine();
    let a = m.spawn(b"a");
    m.run();
    for k in 0..12 {
        assert_eq!(m.level(a), if k / 4 > 2 { 2 } else { k / 4 });
        scheduler::on_timer_tick(&mut m.sched);
    }
    assert_eq!(m.level(a), 2);
    scheduler::block_current(&mut m.sched, &m.mem, &mut m.hart, TaskContext::zeroed()).unwrap();
    assert_eq!(m.run(), None);
    scheduler::wake(&mut m.sched, a);
    assert_eq!(m.level(a), 1);
    assert_eq!(m.run(), Some(a));
}

#[test]
fn higher_levels_run_first() {
    let mut m = machine();
    let hog = m.spawn(b"hog");
    m.run();
    for _ in 0..4 {
        scheduler::on_timer_tick(&mut m.sched);
    }
    let quick = m.spawn(b"quick");
    m.yield_now();
    assert_eq!(m.run(), Some(quick));
    m.yield_now();
    assert_eq!(m.run(), Some(quick), "level 0 goes before level 1");
    scheduler::block_current(&mut m.sched, &m.mem, &mut m.hart, TaskContext::zeroed()).unwrap();
    assert_eq!(m.run(), Some(hog));
}

#[test]
fn an_exited_task_is_freed_once_the_hart_has_left_it() {
    let mut m = machine();
    let before = m.mem.free_frames();
    let a = m.spawn(b"a");
    m.run();
    let was = scheduler::exit_current(&mut m.sched, &mut m.mem, &m.kernel, &mut m.hart, 3, TaskContext::zeroed());
    assert_eq!(was, Ok(true));
    assert!(!arch::intr_enabled(&m.hart));
    assert_eq!(m.state(a), TaskState::Zombie);
    assert_eq!(m.mem.free_frames(), before - 8);
    assert_eq!(m.run(), None);
    assert_eq!(m.sched.tasks.len(), 0);
    assert_eq!(m.mem.free_frames(), before);
}

#[test]
fn stacks_run_out() {
    let mut m = machine();
    let mut n = 0;
    while let Some(_) = scheduler::spawn(&mut m.sched, &mut m.mem, &m.kernel, &mut m.pids, b"t", 0, 0) {
        n += 1;
        if n == 4000 {
            break;
        }
    }
    assert_eq!(n, 3967);
    assert!(m.mem.free_frames() < 8);
}

#[test]
fn the_task_table_lists_everyone() {
    let mut m = machine();
    let a = m.spawn(b"init");
    let b = m.spawn(b"sh");
    m.run();
    let rows = scheduler::dump_tasks(&m.sched, &m.mem, &m.kernel);
    assert_eq!(rows.len(), 2);
    assert_eq!((rows[0].pid, rows[0].ppid, rows[0].name.as_slice(), rows[0].state), (a, 0, &b"init"[..], TaskState::Running));
    assert_eq!((rows[1].pid, rows[1].level, rows[1].state), (b, 0, TaskState::Ready));
    assert_eq!(rows[1].headroom, KERNEL_STACK_SIZE);
}

#[test]
fn deadlines_do_not_drift() {
    let mut t = timer::init(1000);
    assert_eq!(t.next_deadline, 101_000);
    assert_eq!(timer::on_tick(&mut t, 101_500), 201_000);
    assert_eq!(timer::on_tick(&mut t, 201_900), 301_000);
    // Fallen far behind: skip forward instead of firing at once.
    assert_eq!(timer::on_tick(&mut t, 900_000), 1_000_000);
    assert_eq!(timer::ticks(&t), 3);
    assert_eq!(timer::uptime_ms(25_000_000), 2500);
    assert_eq!(timer::spin_delay_ms(5, 3), 30_005);
}
