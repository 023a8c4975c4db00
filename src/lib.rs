//! A small multitasking kernel core: process control blocks, stride
//! scheduling, per-process address spaces with `mmap`/`munmap`, and the
//! user/kernel copy protocol used by the process system calls.
pub mod abi;
pub mod config;
pub mod fs;
pub mod info;
pub mod mm;
pub mod process;
pub mod task;
