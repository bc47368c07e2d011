//! Global layout constants of the kernel.

use vstd::prelude::*;

verus! {

/// Size of one page of physical or virtual memory, in bytes.
pub const PAGE_SIZE: usize = 4096;
/// log2 of `PAGE_SIZE`.
pub const PAGE_SIZE_BITS: usize = 12;
/// Size of one kernel stack, in bytes.
pub const KERNEL_STACK_SIZE: usize = 8192;
/// Size of one user stack, in bytes.
pub const USER_STACK_SIZE: usize = 8192;
/// Virtual address of the single shared trampoline page: the top page
/// of every address space.
pub const TRAMPOLINE: usize = usize::MAX - PAGE_SIZE + 1;
/// Virtual address just below the trampoline where the trap context of
/// thread 0 is mapped; thread `t` uses the page `t` pages below it.
pub const TRAP_CONTEXT_BASE: usize = TRAMPOLINE - PAGE_SIZE;

/// Where a fresh program image's user stack begins, the page below
/// the trap contexts.
pub const USER_STACK_TOP: usize = TRAP_CONTEXT_BASE - PAGE_SIZE;
/// Highest signal number.
pub const MAX_SIG: usize = 31;

} // verus!
