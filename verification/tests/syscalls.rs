//! System calls, end to end on the values that the kernel keeps.

use alexos::arch::{self, Hart};
use alexos::config::{
    DRAM_BASE, DRAM_SIZE, KERNEL_PHYS_BASE, KERNEL_STACK_SIZE, PAGE_SIZE, USER_HEAP_BASE, USER_MAX_ADDR,
    USER_STACK_TOP, VIRT_OFFSET,
};
use alexos::drivers::uart;
use alexos::kernel::Kernel;
use alexos::mm;
use alexos::mm::addr::{PhysPageNum, VirtAddr};
use alexos::mm::dram::Dram;
use alexos::mm::frame::{self, Memory};
use alexos::mm::kernel::{init_kernel_space, KernelLayout};
use alexos::programs::Program;
use alexos::syscall::{self, nr, Outcome};
use alexos::task::process::{self, Entries};
use alexos::task::scheduler::{self, Dispatch};
use alexos::task::{Task, TaskContext, TaskState};
use alexos::timer;
use alexos::trap::TrapFrame;
use alexos::user::calls::{self, Request};

const TEXT: u64 = 0x1_0000;
const DATA: u64 = 0x2_0000;

/// A program with a page of text and two of data.
fn program(mark: u8) -> Vec<u8> {
    let mut f = vec![0u8; 64 + 2 * 56];
    f[0..4].copy_from_slice(&[0x7f, b'E', b'L', b'F']);
    f[4] = 2;
    f[5] = 1;
    f[16] = 2;
    f[18] = 243;
    f[24..32].copy_from_slice(&(TEXT + 4).to_le_bytes());
    f[32] = 64;
    f[54] = 56;
    f[56] = 2;
    let start = f.len() as u64;
    for (i, (at, flags, memsz)) in [(TEXT, 5u32, 16u64), (DATA, 6, 2 * PAGE_SIZE)].iter().enumerate() {
        let ph = 64 + 56 * i;
        f[ph] = 1;
        f[ph + 4..ph + 8].copy_from_slice(&flags.to_le_bytes());
        f[ph + 8..ph + 16].copy_from_slice(&(start + 16 * i as u64).to_le_bytes());
        f[ph + 16..ph + 24].copy_from_slice(&at.to_le_bytes());
        f[ph + 32] = 16;
        f[ph + 40..ph + 48].copy_from_slice(&memsz.to_le_bytes());
    }
    f.extend_from_slice(&[mark; 32]);
    f
}

fn boot() -> Kernel {
    let mut mem = Memory::new(Dram::new(PhysPageNum(DRAM_BASE / PAGE_SIZE), DRAM_SIZE / PAGE_SIZE));
    mm::init(&mut mem, VIRT_OFFSET + 0x802c_2000);
    let v = VIRT_OFFSET + KERNEL_PHYS_BASE;
    let layout = KernelLayout {
        text_start: v,
        text_end: v + 0x2_0000,
        rodata_start: v + 0x2_0000,
        rodata_end: v + 0x3_0000,
        data_start: v + 0x3_0000,
        data_end: v + 0x3_1000,
        bss_start: v + 0x3_1000,
        bss_end: v + 0x4_0000,
        kernel_end: v + 0xc_2000,
    };
    let space = init_kernel_space(&mut mem, &layout).expect("kernel space");
    let mut hart = Hart { id: 0, sstatus: 0, sie: 0, sip: 0, satp: space.token(&mem) };
    arch::intr_enable(&mut hart);
    let entries = Entries { trampoline: 0x111, user_mode: 0x222 };
    let programs = vec![
        Program { name: b"init".to_vec(), image: program(1) },
        Program { name: b"sh".to_vec(), image: program(2) },
        Program { name: b"junk".to_vec(), image: vec![0; 64] },
    ];
    Kernel::new(mem, space, hart, entries, programs)
}

fn launch(k: &mut Kernel, name: &[u8]) -> u64 {
    k.launch(name, &program(1), &vec![name.to_vec()]).expect("new process").0
}

/// A kernel that runs init.
fn running() -> Kernel {
    let mut k = boot();
    assert_eq!(launch(&mut k, b"init"), 1);
    assert_eq!(schedule(&mut k), Some(1));
    k
}

fn schedule(k: &mut Kernel) -> Option<u64> {
    match k.schedule() {
        Dispatch::Task(pid, _) => {
            arch::intr_enable(&mut k.hart);
            Some(pid)
        }
        Dispatch::Idle => None,
    }
}

fn task(k: &Kernel, pid: u64) -> &Task {
    &k.sched.tasks[k.sched.find(pid).expect("no such task")]
}

fn current(k: &Kernel) -> &Task {
    scheduler::current_task(&k.sched)
}

fn poke(k: &mut Kernel, va: u64, data: &[u8]) {
    let i = k.sched.find(scheduler::current(&k.sched).unwrap()).unwrap();
    let space = k.sched.tasks[i].inner.space.as_ref().unwrap();
    space.copy_to_user(&mut k.mem, VirtAddr(va), data).expect("poke");
}

fn peek(k: &Kernel, pid: u64, va: u64, n: usize) -> Vec<u8> {
    let mut buf = vec![0u8; n];
    let space = task(k, pid).inner.space.as_ref().unwrap();
    space.copy_from_user(&k.mem, VirtAddr(va), &mut buf).expect("peek");
    buf
}

fn frame(r: Request) -> TrapFrame {
    let mut f = TrapFrame::default();
    f.x[17] = r.id;
    f.set_arg(0, r.a0);
    f.set_arg(1, r.a1);
    f.set_arg(2, r.a2);
    f.sepc = TEXT + 8;
    f
}

fn call(k: &mut Kernel, r: Request) -> Outcome {
    syscall::dispatch(k, &frame(r), 20_000_000, TaskContext::zeroed())
}

fn returned(o: Outcome) -> i64 {
    match o {
        Outcome::Return(v) => v,
        Outcome::Write(_) => panic!("write"),
        Outcome::Table(_) => panic!("table"),
        Outcome::Unknown(_) => panic!("unknown"),
        Outcome::Started => panic!("started"),
        Outcome::Yielded(_) => panic!("yielded"),
        Outcome::Parked(_) => panic!("parked"),
        Outcome::Exited => panic!("exited"),
        Outcome::Overflow(_) => panic!("overflow"),
    }
}

#[test]
fn init_is_the_first_process() {
    let mut k = boot();
    let before = k.mem.free_frames();
    assert!(k.launch(b"junk", &[0; 64], &vec![]).is_none());
    assert_eq!(k.mem.free_frames(), before);
    assert_eq!(k.launch(b"init", &program(1), &vec![]).unwrap().0, 1);
    assert_eq!(k.spawn(b"worker", 0x333).unwrap().0, 2);
    assert_eq!(task(&k, 2).entry, 0x333);
    assert_eq!(task(&k, 1).entry, 0x222);
    assert_eq!(schedule(&mut k), Some(1));
    assert_eq!(returned(call(&mut k, calls::getpid())), 1);
    while frame::alloc_frame(&mut k.mem).is_some() {}
    assert!(k.spawn(b"worker", 0).is_none());
}

#[test]
fn a_new_process_finds_its_arguments() {
    let k = running();
    let t = current(&k);
    let f = t.inner.frame.expect("frame");
    assert_eq!(f.sepc, TEXT + 4);
    assert_eq!(f.arg(0), 1);
    let argv = f.arg(1);
    assert_eq!(argv, f.sp());
    assert_eq!(argv % 16, 0);
    let p = u64::from_le_bytes(peek(&k, 1, argv, 8).try_into().unwrap());
    assert_eq!(peek(&k, 1, p, 5), b"init\0");
    assert_eq!(peek(&k, 1, argv + 8, 8), vec![0; 8]);
    assert!(f.from_user());
    assert_eq!(f.kernel_sp, t.inner.kstack.top(&k.mem));
    assert_eq!(t.inner.brk, USER_HEAP_BASE);
    assert_eq!(process::space_token(t, &k.mem, &k.space) >> 60, 8);
}

#[test]
fn identity_and_time() {
    let mut k = running();
    assert_eq!(returned(call(&mut k, calls::getpid())), 1);
    assert_eq!(returned(call(&mut k, calls::getppid())), 0);
    assert_eq!(returned(call(&mut k, calls::uptime_ms())), 2000);
    match call(&mut k, Request { id: 99, a0: 0, a1: 0, a2: 0 }) {
        Outcome::Unknown(id) => assert_eq!(id, 99),
        _ => panic!("unknown call"),
    }
    match call(&mut k, calls::ps()) {
        Outcome::Table(rows) => {
            assert_eq!(rows.len(), 1);
            assert_eq!(rows[0].name, b"init");
            assert_eq!(rows[0].state, TaskState::Running);
        }
        _ => panic!("task table"),
    }
}

#[test]
fn writing_hands_the_bytes_over() {
    let mut k = running();
    poke(&mut k, DATA + 10, b"hello\n");
    for fd in [nr::STDOUT, nr::STDERR] {
        match call(&mut k, calls::write(fd, DATA + 10, 6)) {
            Outcome::Write(b) => assert_eq!(b, b"hello\n"),
            _ => panic!("write"),
        }
    }
    match call(&mut k, calls::write(nr::STDOUT, DATA, 0)) {
        Outcome::Write(b) => assert!(b.is_empty()),
        _ => panic!("empty write"),
    }
    assert_eq!(returned(call(&mut k, calls::write(nr::STDIN, DATA, 1))), nr::EBADF);
    assert_eq!(returned(call(&mut k, calls::write(7, DATA, 1))), nr::EBADF);
}

#[test]
fn bad_pointers_are_errors() {
    let mut k = running();
    for ptr in [0, 0x9_0000, DATA + 2 * PAGE_SIZE - 3, USER_MAX_ADDR - 2, VIRT_OFFSET + KERNEL_PHYS_BASE, u64::MAX - 1] {
        assert_eq!(returned(call(&mut k, calls::write(nr::STDOUT, ptr, 4))), nr::EFAULT);
    }
    assert_eq!(returned(call(&mut k, calls::write(nr::STDOUT, DATA, syscall::MAX_IO + 1))), nr::EFAULT);
    assert_eq!(returned(call(&mut k, calls::exec_raw(0, 0))), nr::EFAULT);
    assert_eq!(returned(call(&mut k, calls::read(nr::STDIN, VIRT_OFFSET, 4))), nr::EFAULT);
}

#[test]
fn reading_waits_for_input() {
    let mut k = running();
    assert_eq!(returned(call(&mut k, calls::read(nr::STDOUT, DATA, 4))), nr::EBADF);
    assert_eq!(returned(call(&mut k, calls::read(nr::STDIN, DATA, 0))), 0);
    match call(&mut k, calls::read(nr::STDIN, DATA, 4)) {
        Outcome::Parked(was) => assert!(was),
        _ => panic!("nothing to read"),
    }
    assert_eq!(task(&k, 1).state(), TaskState::Blocked);
    assert_eq!(k.uart.readers.len(), 1);
    assert_eq!(schedule(&mut k), None);
    // A spurious interrupt wakes nobody.
    k.on_input(0);
    assert_eq!(task(&k, 1).state(), TaskState::Blocked);
    for b in b"abcdef" {
        assert!(uart::handle_interrupt(&mut k.uart, Some(*b)));
    }
    assert!(!uart::handle_interrupt(&mut k.uart, None));
    k.on_input(6);
    assert_eq!(schedule(&mut k), Some(1));
    k.resume();
    assert_eq!(returned(call(&mut k, calls::read(nr::STDIN, DATA, 4))), 4);
    assert_eq!(peek(&k, 1, DATA, 4), b"abcd");
    // Short reads hand over what there is.
    assert_eq!(returned(call(&mut k, calls::read(nr::STDIN, DATA + 100, 50))), 2);
    assert_eq!(peek(&k, 1, DATA + 100, 2), b"ef");
    assert!(!uart::has_input(&k.uart));
}

#[test]
fn input_that_cannot_be_stored_is_lost() {
    let mut k = running();
    uart::handle_interrupt(&mut k.uart, Some(b'x'));
    assert_eq!(returned(call(&mut k, calls::read(nr::STDIN, TEXT, 1))), nr::EFAULT);
    assert!(!uart::has_input(&k.uart));
}

#[test]
fn fork_copies_and_does_not_share() {
    let mut k = running();
    poke(&mut k, DATA, &[0xaa]);
    assert_eq!(returned(call(&mut k, calls::fork())), 2);
    assert_eq!(current(&k).inner.children, vec![2]);
    let child = task(&k, 2);
    let f = child.inner.frame.unwrap();
    assert_eq!(f.arg(0), 0);
    assert_eq!(f.sepc, TEXT + 8);
    assert_eq!(f.syscall_id(), nr::SYS_FORK);
    assert_eq!(child.name, b"init");
    assert_eq!(peek(&k, 2, DATA, 1), vec![0xaa]);
    // The child scribbles; the parent must not see it.
    match call(&mut k, calls::sched_yield()) {
        Outcome::Yielded(was) => assert!(was),
        _ => panic!("yield"),
    }
    assert_eq!(schedule(&mut k), Some(2));
    assert_eq!(returned(call(&mut k, calls::getppid())), 1);
    poke(&mut k, DATA, &[0xbb]);
    assert_eq!(peek(&k, 1, DATA, 1), vec![0xaa]);
    assert_eq!(peek(&k, 2, DATA, 1), vec![0xbb]);
}

#[test]
fn waiting_collects_the_status() {
    let mut k = running();
    assert_eq!(returned(call(&mut k, calls::wait(DATA))), nr::ECHILD);
    let before = k.mem.free_frames();
    let pid = returned(call(&mut k, calls::fork()));
    assert_eq!(returned(call(&mut k, calls::waitpid(77, DATA))), nr::ECHILD);
    match call(&mut k, calls::waitpid(pid, DATA)) {
        Outcome::Parked(_) => {}
        _ => panic!("the child runs"),
    }
    assert_eq!(schedule(&mut k), Some(2));
    match call(&mut k, calls::exit(-3)) {
        Outcome::Exited => {}
        _ => panic!("exit"),
    }
    // The address space is gone at once; the kernel stack stays until collected.
    assert_eq!(k.mem.free_frames(), before - 8);
    assert_eq!(task(&k, 2).state(), TaskState::Zombie);
    assert_eq!(schedule(&mut k), Some(1));
    k.resume();
    assert_eq!(returned(call(&mut k, calls::waitpid(pid, DATA))), pid);
    assert_eq!(peek(&k, 1, DATA, 4), (-3i32).to_le_bytes().to_vec());
    assert!(k.sched.find(2).is_none());
    assert_eq!(k.mem.free_frames(), before);
    assert_eq!(returned(call(&mut k, calls::wait(0))), nr::ECHILD);
}

#[test]
fn a_status_nobody_wants_is_dropped() {
    let mut k = running();
    let pid = returned(call(&mut k, calls::fork()));
    call(&mut k, calls::sched_yield());
    assert_eq!(schedule(&mut k), Some(pid as u64));
    call(&mut k, calls::exit(1));
    assert_eq!(schedule(&mut k), Some(1));
    assert_eq!(returned(call(&mut k, calls::wait(0))), pid);
}

#[test]
fn a_bad_status_pointer_is_refused() {
    let mut k = running();
    let pid = returned(call(&mut k, calls::fork()));
    call(&mut k, calls::sched_yield());
    assert_eq!(schedule(&mut k), Some(pid as u64));
    call(&mut k, calls::exit(7));
    assert_eq!(schedule(&mut k), Some(1));
    let end = DATA + 2 * PAGE_SIZE;
    poke(&mut k, end - 2, &[0xaa; 2]);
    // Not mapped, not writable, half of it beyond the end, the kernel's, and around zero.
    for ptr in [0x9_0000, TEXT, end - 2, VIRT_OFFSET + KERNEL_PHYS_BASE, u64::MAX - 1] {
        assert_eq!(returned(call(&mut k, calls::wait(ptr))), nr::EFAULT);
    }
    assert_eq!(peek(&k, 1, end - 2, 2), vec![0xaa; 2], "nothing is stored in part");
    assert_eq!(current(&k).inner.children, vec![pid as u64]);
    assert_eq!(returned(call(&mut k, calls::wait(end - 4))), pid);
    assert_eq!(peek(&k, 1, end - 4, 4), vec![7, 0, 0, 0]);
    // Where there is nothing to collect the pointer does not matter.
    assert_eq!(returned(call(&mut k, calls::wait(0x9_0000))), nr::ECHILD);
}

#[test]
fn outcomes_have_values() {
    let mut k = running();
    assert_eq!(call(&mut k, Request { id: 12, a0: 0, a1: 0, a2: 0 }).value(), Some(nr::ENOSYS));
    assert_eq!(call(&mut k, Request { id: u64::MAX, a0: 0, a1: 0, a2: 0 }).value(), Some(-7));
    assert_eq!(call(&mut k, calls::getpid()).value(), Some(1));
    poke(&mut k, DATA, b"text");
    assert_eq!(call(&mut k, calls::write(nr::STDOUT, DATA, 4)).value(), Some(4));
    assert_eq!(call(&mut k, calls::ps()).value(), Some(0));
    assert_eq!(call(&mut k, calls::sched_yield()).value(), Some(0));
    assert_eq!(schedule(&mut k), Some(1));
    assert_eq!(call(&mut k, calls::read(nr::STDIN, DATA, 1)).value(), None);
    let mut k = running();
    assert_eq!(call(&mut k, calls::exit(0)).value(), None);
}

#[test]
fn orphans_go_to_init() {
    let mut k = running();
    assert_eq!(returned(call(&mut k, calls::fork())), 2);
    match call(&mut k, calls::wait(0)) {
        Outcome::Parked(_) => {}
        _ => panic!("init waits"),
    }
    assert_eq!(schedule(&mut k), Some(2));
    assert_eq!(returned(call(&mut k, calls::fork())), 3);
    call(&mut k, calls::exit(0));
    assert_eq!(schedule(&mut k), Some(3));
    assert_eq!(returned(call(&mut k, calls::getppid())), 0);
    assert_eq!(task(&k, 1).inner.children, vec![2, 3]);
    call(&mut k, calls::exit(9));
    assert_eq!(schedule(&mut k), Some(1));
    k.resume();
    assert_eq!(returned(call(&mut k, calls::wait(DATA))), 2);
    assert_eq!(returned(call(&mut k, calls::wait(DATA))), 3);
    assert_eq!(peek(&k, 1, DATA, 4), vec![9, 0, 0, 0]);
    assert_eq!(returned(call(&mut k, calls::wait(DATA))), nr::ECHILD);
}

#[test]
fn exec_replaces_the_image() {
    let mut k = running();
    let before = k.mem.free_frames();
    poke(&mut k, DATA, b"/sh\0-c\0exit\0");
    let mut argv = Vec::new();
    for p in [DATA, DATA + 4, DATA + 7, 0] {
        argv.extend_from_slice(&u64::to_le_bytes(p));
    }
    poke(&mut k, DATA + 64, &argv);
    match call(&mut k, calls::exec_raw(DATA, DATA + 64)) {
        Outcome::Started => {}
        o => panic!("exec returned {}", returned(o)),
    }
    let t = current(&k);
    assert_eq!(t.pid.0, 1);
    assert_eq!(t.name, b"/sh");
    let f = t.inner.frame.unwrap();
    assert_eq!((f.sepc, f.arg(0)), (TEXT + 4, 3));
    for (i, want) in [&b"/sh\0"[..], b"-c\0", b"exit\0"].iter().enumerate() {
        let p = u64::from_le_bytes(peek(&k, 1, f.arg(1) + 8 * i as u64, 8).try_into().unwrap());
        assert_eq!(&peek(&k, 1, p, want.len()), want);
    }
    assert_eq!(peek(&k, 1, TEXT, 1), vec![2]);
    assert_eq!(peek(&k, 1, DATA + 16, 16), vec![0; 16]);
    assert_eq!(k.mem.free_frames(), before);
}

#[test]
fn exec_fails_without_a_trace() {
    let mut k = running();
    let before = k.mem.free_frames();
    poke(&mut k, DATA, b"nosuch\0junk\0sh\0");
    assert_eq!(returned(call(&mut k, calls::exec_raw(DATA, 0))), nr::ENOENT);
    assert_eq!(returned(call(&mut k, calls::exec_raw(DATA + 7, 0))), nr::ENOMEM);
    assert_eq!(returned(call(&mut k, calls::exec_raw(DATA + 12, 8))), nr::EFAULT);
    assert_eq!(returned(call(&mut k, calls::exec_raw(DATA + 12, u64::MAX - 3))), nr::EFAULT);
    // A string with no terminator in reach.
    poke(&mut k, DATA + 512, &[b'a'; 300]);
    assert_eq!(returned(call(&mut k, calls::exec_raw(DATA + 512, 0))), nr::EFAULT);
    assert_eq!(current(&k).name, b"init");
    assert_eq!(k.mem.free_frames(), before);
}

#[test]
fn the_break_moves() {
    let mut k = running();
    assert_eq!(returned(call(&mut k, calls::sbrk(0))), USER_HEAP_BASE as i64);
    assert_eq!(returned(call(&mut k, calls::sbrk(5000))), USER_HEAP_BASE as i64);
    poke(&mut k, USER_HEAP_BASE + 8000, b"heap");
    assert_eq!(peek(&k, 1, USER_HEAP_BASE, 4), vec![0; 4]);
    assert_eq!(returned(call(&mut k, calls::sbrk(100))), USER_HEAP_BASE as i64 + 5000);
    assert_eq!(returned(call(&mut k, calls::sbrk(-5100))), USER_HEAP_BASE as i64 + 5100);
    assert_eq!(returned(call(&mut k, calls::sbrk(-1))), nr::ENOMEM);
    assert_eq!(returned(call(&mut k, calls::sbrk(i64::MAX))), nr::ENOMEM);
    assert_eq!(returned(call(&mut k, calls::sbrk(i64::MIN))), nr::ENOMEM);
    assert_eq!(returned(call(&mut k, calls::sbrk(0))), USER_HEAP_BASE as i64);
    assert_eq!(peek(&k, 1, USER_HEAP_BASE + 8000, 4), b"heap");
}

#[test]
fn memory_runs_out() {
    let mut k = running();
    while k.mem.free_frames() > 40 {
        let _ = frame::alloc_frame(&mut k.mem);
    }
    let before = k.mem.free_frames();
    assert_eq!(returned(call(&mut k, calls::fork())), nr::ENOMEM);
    assert_eq!(k.mem.free_frames(), before);
    poke(&mut k, DATA, b"sh\0");
    assert_eq!(returned(call(&mut k, calls::exec_raw(DATA, 0))), nr::ENOMEM);
    assert_eq!(k.mem.free_frames(), before);
    assert_eq!(k.sched.tasks.len(), 1);
    assert_eq!(returned(call(&mut k, calls::getpid())), 1);
    while k.mem.free_frames() > 1 {
        let _ = frame::alloc_frame(&mut k.mem);
    }
    assert_eq!(returned(call(&mut k, calls::sbrk(1))), nr::ENOMEM);
    assert_eq!(k.mem.free_frames(), 1);
    assert_eq!(returned(call(&mut k, calls::sbrk(0))), USER_HEAP_BASE as i64);
    assert_eq!(peek(&k, 1, DATA, 3), b"sh\0");
}

#[test]
fn a_break_that_fails_halfway_leaves_nothing_mapped() {
    let mut k = running();
    while k.mem.free_frames() > 3 {
        let _ = frame::alloc_frame(&mut k.mem);
    }
    // A table and two pages: the third page finds no frame.
    assert_eq!(returned(call(&mut k, calls::sbrk(3 * PAGE_SIZE as i64))), nr::ENOMEM);
    assert_eq!(k.mem.free_frames(), 2, "the pages went back, the table stays");
    let space = current(&k).inner.space.as_ref().unwrap();
    for page in 0..3 {
        let mut b = vec![0u8];
        assert!(space.copy_from_user(&k.mem, VirtAddr(USER_HEAP_BASE + page * PAGE_SIZE), &mut b).is_none());
    }
    assert!(space.find_region(VirtAddr(USER_HEAP_BASE)).is_none());
    assert_eq!(returned(call(&mut k, calls::sbrk(2 * PAGE_SIZE as i64))), USER_HEAP_BASE as i64);
    assert_eq!(k.mem.free_frames(), 0);
    poke(&mut k, USER_HEAP_BASE + PAGE_SIZE, b"mine");
    assert_eq!(peek(&k, 1, USER_HEAP_BASE + PAGE_SIZE, 4), b"mine");
}

#[test]
fn a_tick_takes_the_hart_away() {
    let mut k = running();
    call(&mut k, calls::fork());
    let mut clock = timer::init(1_000);
    assert_eq!(k.on_tick(&mut clock, 101_500), 201_000);
    assert_eq!(timer::ticks(&clock), 1);
    assert_eq!(current(&k).inner.ticks, 1);
    assert!(scheduler::resched_if_needed(&mut k.sched));
    assert_eq!(k.on_tick(&mut clock, 900_000), 1_000_000);
    assert_eq!(current(&k).inner.ticks, 2);
    call(&mut k, calls::sched_yield());
    assert_eq!(schedule(&mut k), Some(2));
}

#[test]
fn the_stack_lies_under_its_top() {
    let k = running();
    assert_eq!(peek(&k, 1, USER_STACK_TOP - 256 * 1024, 1), vec![0]);
    let space = current(&k).inner.space.as_ref().unwrap();
    let mut b = vec![0u8];
    assert!(space.copy_from_user(&k.mem, VirtAddr(USER_STACK_TOP), &mut b).is_none());
    assert!(space.copy_from_user(&k.mem, VirtAddr(USER_STACK_TOP - 256 * 1024 - 1), &mut b).is_none());
    let rows = scheduler::dump_tasks(&k.sched, &k.mem, &k.space);
    assert_eq!(rows[0].headroom, KERNEL_STACK_SIZE);
}

#[test]
fn pointers_beyond_the_user_half_are_bad() {
    let mut k = running();
    let alias = 0x80_0000_0000;
    let pid = returned(call(&mut k, calls::fork()));
    call(&mut k, calls::sched_yield());
    assert_eq!(schedule(&mut k), Some(pid as u64));
    call(&mut k, calls::exit(5));
    assert_eq!(schedule(&mut k), Some(1));
    assert_eq!(returned(call(&mut k, calls::wait(alias + DATA))), nr::EFAULT);
    poke(&mut k, DATA, b"sh\0");
    poke(&mut k, DATA + 16, &DATA.to_le_bytes());
    poke(&mut k, DATA + 32, &(alias + DATA).to_le_bytes());
    assert_eq!(returned(call(&mut k, calls::exec_raw(alias + DATA, 0))), nr::EFAULT);
    assert_eq!(returned(call(&mut k, calls::exec_raw(DATA, alias + DATA + 16))), nr::EFAULT);
    assert_eq!(returned(call(&mut k, calls::exec_raw(DATA, DATA + 32))), nr::EFAULT);
    assert_eq!(returned(call(&mut k, calls::write(nr::STDOUT, alias + DATA, 2))), nr::EFAULT);
    assert_eq!(peek(&k, 1, DATA, 3), b"sh\0", "nothing was stored");
    match call(&mut k, calls::exec_raw(DATA, DATA + 16)) {
        Outcome::Started => {}
        _ => panic!("the path is good"),
    }
    assert_eq!(returned(call(&mut k, calls::wait(DATA))), pid);
}

#[test]
fn the_hart_is_in_the_space_of_what_it_runs() {
    let mut k = running();
    let kernel = k.space.token(&k.mem);
    let first = process::space_token(current(&k), &k.mem, &k.space);
    assert_ne!(first, kernel);
    assert_eq!(k.hart.satp, first);
    let pid = returned(call(&mut k, calls::fork()));
    assert_eq!(k.hart.satp, first);
    // A new program has a space of its own, and the hart is in it.
    poke(&mut k, DATA, b"sh\0");
    call(&mut k, calls::exec_raw(DATA, 0));
    let second = process::space_token(current(&k), &k.mem, &k.space);
    assert_ne!(second, first);
    assert_eq!(k.hart.satp, second);
    call(&mut k, calls::sched_yield());
    assert_eq!(k.hart.satp, second, "the space of a task that only waits stays");
    assert_eq!(schedule(&mut k), Some(pid as u64));
    assert_eq!(k.hart.satp, process::space_token(current(&k), &k.mem, &k.space));
    // Not in a space that is given back.
    call(&mut k, calls::exit(0));
    assert_eq!(k.hart.satp, kernel);
    assert_eq!(schedule(&mut k), Some(1));
    assert_eq!(k.hart.satp, second);
    match call(&mut k, calls::read(nr::STDIN, DATA, 1)) {
        Outcome::Parked(_) => {}
        _ => panic!("nothing was typed"),
    }
    assert_eq!(schedule(&mut k), None);
    assert_eq!(k.hart.satp, kernel, "the idle loop waits in the kernel's space");
    k.spawn(b"worker", 0x333).expect("spawn");
    assert_eq!(schedule(&mut k), Some(3));
    assert_eq!(k.hart.satp, kernel, "a kernel task has no other");
}

#[test]
fn every_process_maps_the_kernel() {
    let mut k = running();
    call(&mut k, calls::fork());
    poke(&mut k, DATA, b"sh\0");
    call(&mut k, calls::exec_raw(DATA, 0));
    call(&mut k, calls::sbrk(3 * PAGE_SIZE as i64));
    let text = VirtAddr(VIRT_OFFSET + KERNEL_PHYS_BASE + 4);
    let seen = k.space.translate(&k.mem, text).expect("the kernel is mapped");
    for pid in [1, 2] {
        let space = task(&k, pid).inner.space.as_ref().unwrap();
        assert_eq!(space.translate(&k.mem, text), Some(seen));
    }
}
