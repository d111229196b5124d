//! The bookkeeping of a small multicore RISC-V kernel: PLIC addresses,
//! frame and pid allocation, blocking locks, the schedulers, harts,
//! processes and signals, an in-memory file system with descriptor
//! tables, contexts and system call numbers.

pub mod config;
pub mod frame;
pub mod mm;
pub mod elf;


pub mod pid;
pub mod sync;
pub mod spinlock;
pub mod sched;
pub mod proc;
pub mod sync_calls;
pub mod ramfs;
pub mod fd;
pub mod trap;
pub mod context;
pub mod syscall;
pub mod task;
