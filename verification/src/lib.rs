//! LearnOS microkernel logic: capabilities, IPC queues, process table,
//! scheduling, signals, paging, ELF loading, the embedded filesystem and
//! the state machines of the built-in user-space servers.

pub mod bitops;
pub mod block_dev;
pub mod boot;
pub mod capability;
pub mod device_manager;
pub mod elf;
pub mod filesystem;
pub mod image;
pub mod interrupt_server;
pub mod ipc;
pub mod keyboard;
pub mod paging;
pub mod process;
pub mod signal;
pub mod syscall;
pub mod tss;
pub mod user_program;
pub mod vga;
