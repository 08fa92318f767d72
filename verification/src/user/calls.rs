//! The registers of each system call, as a program sets them up for its `ecall`.

use vstd::prelude::*;
use crate::syscall::nr;

verus! {

/// A system call to make: the number and the arguments.
#[derive(Debug, Clone, Copy, PartialEq, Eq, Structural)]
pub struct Request {
    /// For `a7`.
    pub id: u64,
    /// For `a0`.
    pub a0: u64,
    /// For `a1`.
    pub a1: u64,
    /// For `a2`.
    pub a2: u64,
}

/// Terminate the process.
pub fn exit(code: i32) -> (r: Request)
    ensures
        r == (Request { id: nr::SYS_EXIT, a0: code as u64, a1: 0, a2: 0 }),
{
    Request {
        id: nr::SYS_EXIT,
        a0: #[verifier::truncate]
        (code as u64),
        a1: 0,
        a2: 0,
    }
}

/// Write the `len` bytes at `buf` to a file descriptor. Returns the count written.
pub fn write(fd: u64, buf: u64, len: u64) -> (r: Request)
    ensures
        r == (Request { id: nr::SYS_WRITE, a0: fd, a1: buf, a2: len }),
{
    Request { id: nr::SYS_WRITE, a0: fd, a1: buf, a2: len }
}

/// Read into the `len` bytes at `buf`. Returns the count read, which may be less than
/// requested.
pub fn read(fd: u64, buf: u64, len: u64) -> (r: Request)
    ensures
        r == (Request { id: nr::SYS_READ, a0: fd, a1: buf, a2: len }),
{
    Request { id: nr::SYS_READ, a0: fd, a1: buf, a2: len }
}

/// Give up the rest of this quantum.
pub fn sched_yield() -> (r: Request)
    ensures
        r == (Request { id: nr::SYS_YIELD, a0: 0, a1: 0, a2: 0 }),
{
    Request { id: nr::SYS_YIELD, a0: 0, a1: 0, a2: 0 }
}

/// This process's id.
pub fn getpid() -> (r: Request)
    ensures
        r == (Request { id: nr::SYS_GETPID, a0: 0, a1: 0, a2: 0 }),
{
    Request { id: nr::SYS_GETPID, a0: 0, a1: 0, a2: 0 }
}

/// The parent's process id.
pub fn getppid() -> (r: Request)
    ensures
        r == (Request { id: nr::SYS_GETPPID, a0: 0, a1: 0, a2: 0 }),
{
    Request { id: nr::SYS_GETPPID, a0: 0, a1: 0, a2: 0 }
}

/// Duplicate this process. Returns 0 in the child and the child's pid in the parent.
pub fn fork() -> (r: Request)
    ensures
        r == (Request { id: nr::SYS_FORK, a0: 0, a1: 0, a2: 0 }),
{
    Request { id: nr::SYS_FORK, a0: 0, a1: 0, a2: 0 }
}

/// Replace this image with the program that the NUL-terminated string at `path` names,
/// passing the NULL-terminated array of pointers at `argv`. Returns only on failure.
pub fn exec_raw(path: u64, argv: u64) -> (r: Request)
    ensures
        r == (Request { id: nr::SYS_EXEC, a0: path, a1: argv, a2: 0 }),
{
    Request { id: nr::SYS_EXEC, a0: path, a1: argv, a2: 0 }
}

/// The argument vector that passes nothing beyond the name at `path`.
pub fn exec(path: u64) -> (r: [u64; 2])
    ensures
        r@ == seq![path, 0],
{
    let r: [u64; 2] = [path, 0];
    assert(r@ =~= seq![path, 0]);
    r
}

/// Wait for a child to exit. Returns its pid, and stores its status at `status`.
pub fn waitpid(pid: i64, status: u64) -> (r: Request)
    ensures
        r == (Request { id: nr::SYS_WAITPID, a0: pid as u64, a1: status, a2: 0 }),
{
    Request {
        id: nr::SYS_WAITPID,
        a0: #[verifier::truncate]
        (pid as u64),
        a1: status,
        a2: 0,
    }
}

/// Wait for any child.
pub fn wait(status: u64) -> (r: Request)
    ensures
        r == (Request { id: nr::SYS_WAITPID, a0: u64::MAX, a1: status, a2: 0 }),
{
    assert((-1i64) as u64 == u64::MAX) by (bit_vector);
    waitpid(-1, status)
}

/// Move the program break. Returns the previous break.
pub fn sbrk(delta: i64) -> (r: Request)
    ensures
        r == (Request { id: nr::SYS_SBRK, a0: delta as u64, a1: 0, a2: 0 }),
{
    Request {
        id: nr::SYS_SBRK,
        a0: #[verifier::truncate]
        (delta as u64),
        a1: 0,
        a2: 0,
    }
}

/// Milliseconds since boot.
pub fn uptime_ms() -> (r: Request)
    ensures
        r == (Request { id: nr::SYS_UPTIME, a0: 0, a1: 0, a2: 0 }),
{
    Request { id: nr::SYS_UPTIME, a0: 0, a1: 0, a2: 0 }
}

/// Ask the kernel to print the task table.
pub fn ps() -> (r: Request)
    ensures
        r == (Request { id: nr::SYS_PS, a0: 0, a1: 0, a2: 0 }),
{
    Request { id: nr::SYS_PS, a0: 0, a1: 0, a2: 0 }
}

/// Signed arguments survive the registers: the kernel sees the status, the pid and the
/// distance that the program passed.
pub proof fn law_arguments_survive(code: i32, n: i64)
    ensures
        (code as u64) as i32 == code,
        (n as u64) as i64 == n,
{
    assert((code as u64) as i32 == code) by (bit_vector);
    assert((n as u64) as i64 == n) by (bit_vector);
}

} // verus!
