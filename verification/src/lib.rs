//! The logic of a preemptive multitasking kernel for RISC-V 64: physical
//! frames, Sv39 page tables, address spaces, the kernel heap, the ELF loader,
//! tasks and their scheduling, system calls, and the device protocols.
//!
//! Nothing here touches a register or a raw address. Memory is a value of type
//! [`mm::frame::Memory`], the machine's counters and device answers arrive as
//! arguments, and what has to be done to the machine is returned.

pub mod arch;
pub mod backtrace;
pub mod bits;
pub mod config;
pub mod console;
pub mod drivers;
pub mod kernel;
pub mod loader;
pub mod mm;
pub mod programs;
pub mod sbi;
pub mod sync;
pub mod syscall;
pub mod task;
pub mod test_device;
pub mod timer;
pub mod trap;
pub mod user;
