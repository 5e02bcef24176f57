//! Process-management core of a small cooperative kernel: task control
//! blocks arranged in a process tree, a proportional-share stride scheduler,
//! and the syscalls that govern process lifecycle, virtual-memory mapping,
//! and per-task accounting.
//!
//! All kernel state lives in an explicit [`kernel::Kernel`] value that the
//! syscall entry points take by `&mut` reference; the surrounding dispatch
//! loop owns it and feeds decoded register arguments in as plain integers.

use vstd::prelude::*;

pub mod fairness;
pub mod kernel;
pub mod manager;
pub mod mem;
pub mod process;
pub mod tcb;

verus! {

/// Number of bytes in one page of user virtual memory.
pub const PAGE_SIZE: usize = 4096;

/// Number of syscall slots in each task's invocation-count table.
pub const MAX_SYSCALL_NUM: usize = 500;

/// Shared numerator of the stride scheduler: each dispatch adds
/// `BIG_STRIDE / priority` to the chosen task's stride, so higher-priority
/// tasks accumulate stride more slowly and run more often.
pub const BIG_STRIDE: usize = 0x10_0000;

/// Priority given to freshly created tasks.
pub const DEFAULT_PRIORITY: usize = 16;

/// Largest pid the kernel will allocate; keeps every pid representable as a
/// non-negative `isize` syscall result on any target.
pub const MAX_PID: usize = 0x7fff_ffff;

/// Upper end of the user address range the program break may reach.
pub const MAX_VA: usize = 0x7fff_f000;

} // verus!
