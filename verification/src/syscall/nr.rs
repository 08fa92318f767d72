//! The system call ABI.
//!
//! Calling convention, following the RISC-V C ABI so that a syscall costs nothing
//! to set up beyond the `ecall`:
//!
//! | register | meaning                        |
//! |----------|--------------------------------|
//! | `a7`     | syscall number                 |
//! | `a0..a5` | arguments                      |
//! | `a0`     | return value                   |
//!
//! Errors come back as small negative values; user code checks `ret < 0`.

use vstd::prelude::*;

verus! {

/// Terminate the calling process. `a0` is the exit status. Does not return.
pub const SYS_EXIT: u64 = 0;

/// Write `a2` bytes from `a1` to file descriptor `a0`.
pub const SYS_WRITE: u64 = 1;

/// Read up to `a2` bytes into `a1` from file descriptor `a0`.
pub const SYS_READ: u64 = 2;

/// Give up the rest of the current scheduling quantum.
pub const SYS_YIELD: u64 = 3;

/// Return the calling process's id.
pub const SYS_GETPID: u64 = 4;

/// Return the parent's process id.
pub const SYS_GETPPID: u64 = 5;

/// Duplicate the calling process. Returns 0 in the child, the child's pid in the
/// parent, and a negative value on failure.
pub const SYS_FORK: u64 = 6;

/// Replace the current image with the program named by the NUL-terminated path in
/// `a0`, passing the NULL-terminated argument vector in `a1`. Returns only on
/// failure.
pub const SYS_EXEC: u64 = 7;

/// Wait for a child to exit. `a0` is a pid, or -1 for any child; `a1` receives the
/// exit status if non-null. Returns the reaped pid.
pub const SYS_WAITPID: u64 = 8;

/// Move the program break by `a0` bytes and return the previous break.
pub const SYS_SBRK: u64 = 9;

/// Milliseconds since boot.
pub const SYS_UPTIME: u64 = 10;

/// Write a one-line description of every task to the console.
pub const SYS_PS: u64 = 11;

/// Standard input.
pub const STDIN: u64 = 0;

/// Standard output.
pub const STDOUT: u64 = 1;

/// Standard error.
pub const STDERR: u64 = 2;

/// Operation not permitted / bad argument.
pub const EINVAL: i64 = -1;

/// No such file or directory.
pub const ENOENT: i64 = -2;

/// Bad file descriptor.
pub const EBADF: i64 = -3;

/// Out of memory.
pub const ENOMEM: i64 = -4;

/// No child processes.
pub const ECHILD: i64 = -5;

/// Bad address: a pointer argument did not resolve in the caller's space.
pub const EFAULT: i64 = -6;

/// Function not implemented.
pub const ENOSYS: i64 = -7;

} // verus!
