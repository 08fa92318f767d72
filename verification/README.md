# alexos

The logic of a small preemptive multitasking kernel for RISC-V 64, written in Verus:
every function states what it does in a contract, and every contract is proved.

| module | what it holds |
|--------|---------------|
| `mm` | addresses, the buddy allocator, frames, the kernel heap, Sv39 page tables, address spaces, user copies, the kernel's own space and what it costs |
| `loader`, `programs` | ELF images and the table they are found in |
| `task` | kernel stacks, contexts, arguments, `fork`, `exec`, the program break, the feedback-queue scheduler, parents and children |
| `sync` | spin locks, wait queues, mutexes, semaphores, one-time cells |
| `kernel`, `syscall` | the kernel as a whole, and the twelve system calls |
| `trap`, `timer`, `arch` | trap causes and frames, deadlines, interrupt enables |
| `drivers`, `console`, `sbi`, `test_device`, `backtrace` | device protocols and firmware calls |
| `user` | line editing, the shell, the registers of each call |

Nothing in the library touches a register or a raw address. Memory is a value, the
machine's counters and device answers are arguments, and what has to be done to the
machine is returned. A call that has to wait is a step: it parks the caller, and is made
again once the caller runs.

What holds across functions is stated as public proof functions whose names begin with
`law_`: that allocating and freeing undo each other, that processes are isolated, that a
child sees what its parent saw, that no wakeup is lost, that a wait collects the status
that an exit left, that every process maps the kernel and none reaches it, that the hart
is never in an address space that has been freed.

`app/` is the program around the library: assembly, device registers, printing, and the
mains of the user programs. Physical memory is the library's value there too: on a
real board the tables that `satp` names would have to be laid over DRAM, and the heap
offered to Rust as its allocator, before user code could run. Elsewhere the program boots
to the idle console.
