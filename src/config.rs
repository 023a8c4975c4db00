//! Kernel-wide constants.
use vstd::prelude::*;

verus! {

/// Size of a page and of a physical frame, in bytes.
pub const PAGE_SIZE: usize = 4096;

/// Number of distinct system-call numbers tracked per task.
pub const MAX_SYSCALL_NUM: usize = 500;

/// The stride numerator: a task of priority `p` advances by `BIG_STRIDE / p`.
pub const BIG_STRIDE: u64 = 1048576;

/// Smallest priority a task may be given.
pub const MIN_PRIORITY: isize = 2;

/// Priority every new task starts with.
pub const DEFAULT_PRIORITY: u64 = 16;

/// Pid of the first process, which adopts the children of exiting tasks.
pub const INITPROC_PID: usize = 0;

/// Virtual address at which an executable image is loaded.
pub const APP_BASE: usize = 0x10000;

/// Number of pages in a user stack.
pub const USER_STACK_PAGES: usize = 2;

} // verus!
