//! System call numbers and the decisions the system calls take.
pub mod fs;
pub mod process;

use vstd::prelude::*;

verus! {

/// `unlinkat`
pub const SYSCALL_UNLINKAT: usize = 35;
/// `linkat`
pub const SYSCALL_LINKAT: usize = 37;
/// `open`
pub const SYSCALL_OPEN: usize = 56;
/// `close`
pub const SYSCALL_CLOSE: usize = 57;
/// `read`
pub const SYSCALL_READ: usize = 63;
/// `write`
pub const SYSCALL_WRITE: usize = 64;
/// `fstat`
pub const SYSCALL_FSTAT: usize = 80;
/// `exit`
pub const SYSCALL_EXIT: usize = 93;
/// `yield`
pub const SYSCALL_YIELD: usize = 124;
/// `get_time`
pub const SYSCALL_GET_TIME: usize = 169;
/// `sbrk`
pub const SYSCALL_SBRK: usize = 214;
/// `munmap`
pub const SYSCALL_MUNMAP: usize = 215;
/// `mmap`
pub const SYSCALL_MMAP: usize = 222;
/// `trace`
pub const SYSCALL_TRACE: usize = 410;

} // verus!
