//! Resource, scheduling and file-system logic of a small teaching kernel:
//! the banker's algorithm, a mutex deadlock detector, a stride scheduler,
//! a round-robin task list with per-task system call counters, a
//! directory model with hard links, and the decisions the system calls
//! take before they touch hardware or user memory.
use vstd::prelude::*;

pub mod safety;
pub mod sync;
pub mod syscall;
pub mod task;
pub mod vfs;

verus! {
} // verus!
