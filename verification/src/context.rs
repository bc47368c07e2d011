//! Task and trap contexts: the stored continuations of the kernel.
//!
//! A task context is the callee-saved register record used by the
//! cooperative context switch; a trap context is the full register
//! snapshot saved on entry to the kernel from user mode.  Hardware
//! register values are modeled as plain words.

use vstd::prelude::*;

use crate::config::TRAMPOLINE;

verus! {

/// The return address a fresh thread starts from: the kernel's return
/// path into user mode, reached through the trampoline page.
pub const TRAP_RETURN_RA: usize = TRAMPOLINE;

/// Callee-saved registers, stack pointer and return address of a
/// suspended task.
#[derive(Clone, Copy, Debug)]
pub struct TaskContext {
    pub ra: usize,
    pub sp: usize,
    pub s: [usize; 12],
}

impl TaskContext {
    /// An all-zero context.
    pub fn zero_init() -> (r: TaskContext)
        ensures
            r.ra == 0,
            r.sp == 0,
            forall|i: int| 0 <= i < 12 ==> r.s[i] == 0,
    {
        TaskContext { ra: 0, sp: 0, s: [0; 12] }
    }

    /// A context that resumes in the trap-return path on the given
    /// kernel stack.
    pub fn goto_trap_return(kstack_ptr: usize) -> (r: TaskContext)
        ensures
            r.ra == TRAP_RETURN_RA,
            r.sp == kstack_ptr,
            forall|i: int| 0 <= i < 12 ==> r.s[i] == 0,
    {
        TaskContext { ra: TRAP_RETURN_RA, sp: kstack_ptr, s: [0; 12] }
    }
}

/// The register snapshot saved on a trap from user mode, plus the
/// kernel-entry values the trampoline needs.
#[derive(Clone, Copy, Debug)]
pub struct TrapContext {
    pub x: [usize; 32],
    pub sstatus: usize,
    pub sepc: usize,
    pub kernel_satp: usize,
    pub kernel_sp: usize,
    pub trap_handler: usize,
}

impl TrapContext {
    /// Point the user stack register at `sp`.
    pub fn set_sp(&mut self, sp: usize)
        ensures
            final(self).x[2] == sp,
            forall|i: int| 0 <= i < 32 && i != 2 ==> final(self).x[i] == old(self).x[i],
            final(self).sstatus == old(self).sstatus,
            final(self).sepc == old(self).sepc,
            final(self).kernel_satp == old(self).kernel_satp,
            final(self).kernel_sp == old(self).kernel_sp,
            final(self).trap_handler == old(self).trap_handler,
    {
        self.x[2] = sp;
    }

    /// The initial trap context of a fresh user program: entry point,
    /// user stack, and the kernel-entry values; previous privilege is
    /// user mode, modeled as a zero status word.
    pub fn app_init_context(
        entry: usize,
        sp: usize,
        kernel_satp: usize,
        kernel_sp: usize,
        trap_handler: usize,
    ) -> (r: TrapContext)
        ensures
            r.sepc == entry,
            r.x[2] == sp,
            r.sstatus == 0,
            r.kernel_satp == kernel_satp,
            r.kernel_sp == kernel_sp,
            r.trap_handler == trap_handler,
            forall|i: int| 0 <= i < 32 && i != 2 ==> r.x[i] == 0,
    {
        let mut cx = TrapContext {
            x: [0; 32],
            sstatus: 0,
            sepc: entry,
            kernel_satp,
            kernel_sp,
            trap_handler,
        };
        cx.set_sp(sp);
        cx
    }
}

} // verus!
