//! The user runtime, the shell, and the registers of its calls.

use alexos::syscall::nr;
use alexos::user::calls::{self, Request};
use alexos::user::shell::{self, Command, Reaping, Side, ARGS_MAX, LINE_MAX};
use alexos::user::{read_line, Args, Edit, Line};

fn type_in(line: &mut Line, keys: &[u8]) -> Vec<Edit> {
    keys.iter().map(|&c| read_line(line, c)).collect()
}

#[test]
fn lines_are_edited() {
    let mut l = Line { text: Vec::new(), limit: 8 };
    assert_eq!(
        type_in(&mut l, b"ab\x7fc\x1b\r"),
        vec![Edit::Echo(b'a'), Edit::Echo(b'b'), Edit::Erase, Edit::Echo(b'c'), Edit::Ignore, Edit::Done]
    );
    assert_eq!(l.text, b"ac");
    let mut l = Line { text: Vec::new(), limit: 2 };
    assert_eq!(type_in(&mut l, b"\x08xyz\n"), vec![Edit::Ignore, Edit::Echo(b'x'), Edit::Echo(b'y'), Edit::Ignore, Edit::Done]);
    assert_eq!(l.text, b"xy");
}

#[test]
fn lines_are_echoed() {
    let mut l = Line { text: Vec::new(), limit: 8 };
    let shown: Vec<u8> = type_in(&mut l, b"ab\x7fc\r").iter().flat_map(|e| e.output()).collect();
    assert_eq!(l.text, b"ac");
    assert_eq!(shown, b"ab\x08 \x08c\n");
    assert_eq!(Edit::Ignore.output(), b"");
}

#[test]
fn arguments_are_handed_out() {
    let mut a = Args::new(vec![b"echo".to_vec(), b"one".to_vec()]);
    assert_eq!(a.len(), 2);
    assert!(!a.is_empty());
    assert_eq!(a.get(1), Some(&b"one"[..]));
    assert_eq!(a.get(2), None);
    assert_eq!(a.next(), Some(&b"echo"[..]));
    assert_eq!(a.next(), Some(&b"one"[..]));
    assert_eq!(a.next(), None);
    assert_eq!(a.len(), 2);
    assert!(Args::new(Vec::new()).is_empty());
}

fn split(text: &[u8]) -> ([u8; LINE_MAX], Option<Vec<usize>>) {
    let mut buf = [0xffu8; LINE_MAX];
    buf[..text.len()].copy_from_slice(text);
    let r = shell::split(&mut buf, text.len());
    (buf, r)
}

#[test]
fn lines_split_into_fields() {
    let (buf, starts) = split(b"  echo a  bc ");
    let starts = starts.unwrap();
    assert_eq!(starts, vec![2, 7, 10]);
    let words: Vec<&[u8]> = starts.iter().map(|&s| &buf[s..shell::cstr_at(&buf, s)]).collect();
    assert_eq!(words, vec![&b"echo"[..], b"a", b"bc"]);
    let (buf, starts) = split(b"echo\ta b");
    assert_eq!(starts, Some(vec![0, 5, 7]));
    assert_eq!(&buf[..9], b"echo\0a\0b\0");
    assert_eq!(split(b"\x0b\x0ca\r\nb\x08c").1, Some(vec![2, 5]));
    let (buf, starts) = split(b"ls");
    assert_eq!(starts, Some(vec![0]));
    assert_eq!(shell::cstr_at(&buf, 0), 2);
    let (buf, starts) = split(b"   ");
    assert_eq!(starts, Some(vec![]));
    assert_eq!(buf[3], 0xff, "nothing to terminate");
    let (_, starts) = split(b"");
    assert_eq!(starts, Some(vec![]));
}

#[test]
fn too_many_fields_are_refused() {
    let most = vec![b"x"; ARGS_MAX].iter().map(|w| w.to_vec()).collect::<Vec<_>>().join(&b' ');
    assert_eq!(split(&most).1.unwrap().len(), ARGS_MAX);
    let mut more = most.clone();
    more.extend_from_slice(b" y");
    assert_eq!(split(&more).1, None);
    let full = vec![b'a'; LINE_MAX];
    let (buf, starts) = split(&full);
    assert_eq!(starts, Some(vec![0]));
    assert_eq!(shell::cstr_at(&buf, 0), LINE_MAX);
}

#[test]
fn builtins_are_recognised() {
    assert_eq!(shell::command(b"exit"), Command::Exit);
    assert_eq!(shell::command(b"help"), Command::Help);
    assert_eq!(shell::command(b"uptime"), Command::Uptime);
    assert_eq!(shell::command(b"ps"), Command::Ps);
    assert_eq!(shell::command(b"exits"), Command::External);
    assert_eq!(shell::command(b""), Command::External);
}

#[test]
fn sides_of_a_fork() {
    assert_eq!(shell::side(0), Side::Child);
    assert_eq!(shell::side(5), Side::Parent(5));
    assert_eq!(shell::side(nr::ENOMEM), Side::Failed(-4));
}

#[test]
fn init_reaps_everything() {
    assert_eq!(shell::reap(2, 7), Reaping::Continue);
    assert_eq!(shell::reap(2, 2), Reaping::ShellExited);
    assert_eq!(shell::reap(2, nr::ECHILD), Reaping::Nobody);
}

#[test]
fn echo_joins_its_arguments() {
    let args = |a: &[&[u8]]| a.iter().map(|x| x.to_vec()).collect::<Vec<_>>();
    assert_eq!(shell::echo(&args(&[b"echo", b"a", b"\xff", b"c"])), b"a \xff c\n");
    assert_eq!(shell::echo(&args(&[b"echo"])), b"\n");
    assert_eq!(shell::echo(&args(&[])), b"\n");
}

#[test]
fn calls_fill_the_registers() {
    assert_eq!(calls::exit(-1), Request { id: nr::SYS_EXIT, a0: u64::MAX, a1: 0, a2: 0 });
    assert_eq!(calls::write(1, 2, 3), Request { id: nr::SYS_WRITE, a0: 1, a1: 2, a2: 3 });
    assert_eq!(calls::read(0, 2, 3), Request { id: nr::SYS_READ, a0: 0, a1: 2, a2: 3 });
    assert_eq!(calls::wait(8), calls::waitpid(-1, 8));
    assert_eq!(calls::sbrk(-16).a0, 16u64.wrapping_neg());
    assert_eq!(calls::exec(9), [9, 0]);
    assert_eq!(calls::exec_raw(9, 10).a1, 10);
    assert_eq!(
        [calls::sched_yield().id, calls::getpid().id, calls::getppid().id, calls::fork().id],
        [nr::SYS_YIELD, nr::SYS_GETPID, nr::SYS_GETPPID, nr::SYS_FORK]
    );
    assert_eq!([calls::uptime_ms().id, calls::ps().id], [nr::SYS_UPTIME, nr::SYS_PS]);
}
