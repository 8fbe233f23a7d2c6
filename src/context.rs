//! Saved execution state: the kernel-side switch context of a task and the
//! user-side trap context.
use vstd::prelude::*;

verus! {

/// Bit of `sstatus` that records the privilege a trap came from (`SPP`).
pub const SSTATUS_SPP: usize = 0x100;

/// Callee-saved state of a kernel control flow, as a context switch keeps it.
#[derive(Clone, Copy)]
pub struct TaskContext {
    /// Where the switch returns to.
    pub ra: usize,
    /// Kernel stack pointer.
    pub sp: usize,
    /// Callee-saved registers `s0`..`s11`.
    pub s: [usize; 12],
}

impl TaskContext {
    /// A context of zeros, for the idle flow or one never resumed.
    pub fn zero_init() -> (r: Self)
        ensures
            r.ra == 0,
            r.sp == 0,
            forall|i: int| 0 <= i < 12 ==> r.s@[i] == 0,
    {
        TaskContext { ra: 0, sp: 0, s: [0; 12] }
    }

    /// A context that, once switched to, runs `trap_return` on the kernel
    /// stack whose top is `kstack_ptr`.
    pub fn goto_trap_return(kstack_ptr: usize, trap_return: usize) -> (r: Self)
        ensures
            r.ra == trap_return,
            r.sp == kstack_ptr,
            forall|i: int| 0 <= i < 12 ==> r.s@[i] == 0,
    {
        TaskContext { ra: trap_return, sp: kstack_ptr, s: [0; 12] }
    }
}

/// Registers and bookkeeping saved on a trap from user mode.
#[derive(Clone, Copy)]
pub struct TrapContext {
    /// General registers `x0`..`x31`.
    pub x: [usize; 32],
    /// The `sstatus` CSR.
    pub sstatus: usize,
    /// The `sepc` CSR: where user execution resumes.
    pub sepc: usize,
    /// `satp` of the kernel address space.
    pub kernel_satp: usize,
    /// Top of the task's kernel stack.
    pub kernel_sp: usize,
    /// Address of the trap handler.
    pub trap_handler: usize,
}

impl TrapContext {
    /// Sets the user stack pointer (`x2`).
    pub fn set_sp(&mut self, sp: usize)
        ensures
            final(self).x@ == old(self).x@.update(2, sp),
            final(self).sstatus == old(self).sstatus,
            final(self).sepc == old(self).sepc,
            final(self).kernel_satp == old(self).kernel_satp,
            final(self).kernel_sp == old(self).kernel_sp,
            final(self).trap_handler == old(self).trap_handler,
    {
        self.x[2] = sp;
    }

    /// The trap context a program starts from: registers zero but the stack
    /// pointer, resuming at `entry` in user mode (`SPP` cleared in the
    /// current `sstatus`).
    pub fn app_init_context(
        entry: usize,
        sp: usize,
        kernel_satp: usize,
        kernel_sp: usize,
        trap_handler: usize,
        sstatus: usize,
    ) -> (r: Self)
        ensures
            r.x@[2] == sp,
            forall|i: int| 0 <= i < 32 && i != 2 ==> r.x@[i] == 0,
            r.sstatus == sstatus & !SSTATUS_SPP,
            r.sepc == entry,
            r.kernel_satp == kernel_satp,
            r.kernel_sp == kernel_sp,
            r.trap_handler == trap_handler,
    {
        let mut cx = TrapContext {
            x: [0; 32],
            sstatus: sstatus & !SSTATUS_SPP,
            sepc: entry,
            kernel_satp,
            kernel_sp,
            trap_handler,
        };
        cx.set_sp(sp);
        cx
    }
}

} // verus!
