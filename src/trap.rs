//! The decisions of the trap handler: what a trap from user mode means for
//! the running task.
use vstd::prelude::*;
use crate::context::TrapContext;
use crate::task::Kernel;

verus! {

/// Why user execution trapped, as `scause` tells it.
#[derive(Clone, Copy, PartialEq, Eq, Structural, Debug)]
pub enum TrapCause {
    UserEnvCall,
    InstructionFault,
    InstructionPageFault,
    LoadFault,
    LoadPageFault,
    StoreFault,
    StorePageFault,
    IllegalInstruction,
    SupervisorTimer,
    Unsupported,
}

/// What the kernel does next for the trapping task.
#[derive(Clone, Copy, Debug)]
pub enum TrapAction {
    /// Run system call `id` with `args`; the task resumes past the call.
    Syscall { id: usize, args: [usize; 3] },
    /// Kill the task with this exit code.
    Exit { exit_code: i32 },
    /// Preempt the task: it yields.
    Yield,
    /// A trap the kernel does not handle.
    Fatal,
}

/// The instruction after the 4-byte one at `pc`, wrapping around.
pub open spec fn next_pc(pc: usize) -> usize {
    ((pc + 4) % (usize::MAX as int + 1)) as usize
}

/// Exit code of a task killed by a memory access fault.
pub const EXIT_FAULT: i32 = -2;
/// Exit code of a task killed by an illegal instruction.
pub const EXIT_ILLEGAL: i32 = -3;

/// Decides on a trap of the running task. A system call advances the
/// task's `sepc` past the `ecall` and hands out the call number (`x17`)
/// and arguments (`x10`..`x12`); faults kill the task with -2, illegal
/// instructions with -3; the timer preempts it.
pub fn trap_handler(kernel: &mut Kernel, cause: TrapCause) -> (r: TrapAction)
    requires
        old(kernel).wf(),
        old(kernel).current() is Some,
    ensures
        final(kernel).wf(),
        final(kernel).current() == old(kernel).current(),
        final(kernel).ready() == old(kernel).ready(),
        final(kernel).pool() == old(kernel).pool(),
        cause != TrapCause::UserEnvCall ==> final(kernel).tasks() == old(kernel).tasks(),
        ({
            let cur = old(kernel).current()->0 as int;
            let cx = old(kernel).task(cur).trap_cx;
            &&& cause == TrapCause::UserEnvCall ==> {
                &&& r is Syscall
                &&& r->id == cx.x@[17]
                &&& r->args@ == seq![cx.x@[10], cx.x@[11], cx.x@[12]]
                &&& final(kernel).has(cur)
                &&& final(kernel).task(cur).trap_cx.sepc == next_pc(cx.sepc)
                &&& final(kernel).task(cur).trap_cx.x == cx.x
            }
            &&& (cause == TrapCause::InstructionFault || cause == TrapCause::InstructionPageFault
                || cause == TrapCause::LoadFault || cause == TrapCause::LoadPageFault
                || cause == TrapCause::StoreFault || cause == TrapCause::StorePageFault)
                ==> r is Exit && r->exit_code == EXIT_FAULT
            &&& cause == TrapCause::IllegalInstruction ==> r is Exit && r->exit_code == EXIT_ILLEGAL
            &&& cause == TrapCause::SupervisorTimer ==> r is Yield
            &&& cause == TrapCause::Unsupported ==> r is Fatal
        }),
{
    match cause {
        TrapCause::UserEnvCall => {
            let cur = kernel.current_pid().unwrap();
            let mut cx = kernel.current_trap_cx();
            let ghost pc = cx.sepc;
            cx.sepc = if cx.sepc <= usize::MAX - 4 {
                cx.sepc + 4
            } else {
                cx.sepc - (usize::MAX - 3)
            };
            proof {
                let m = usize::MAX as int + 1;
                if pc <= usize::MAX - 4 {
                    vstd::arithmetic::div_mod::lemma_fundamental_div_mod_converse(pc + 4, m, 0, pc + 4);
                } else {
                    vstd::arithmetic::div_mod::lemma_fundamental_div_mod_converse(pc + 4, m, 1, pc + 4 - m);
                }
                assert(cx.sepc == next_pc(pc));
            }
            let args = [cx.x[10], cx.x[11], cx.x[12]];
            let id = cx.x[17];
            proof {
                assert(old(kernel).has(cur as int));
                assert(args@ =~= seq![cx.x@[10], cx.x@[11], cx.x@[12]]);
            }
            kernel.set_trap_cx(cur, cx);
            TrapAction::Syscall { id, args }
        },
        TrapCause::InstructionFault | TrapCause::InstructionPageFault | TrapCause::LoadFault
        | TrapCause::LoadPageFault | TrapCause::StoreFault | TrapCause::StorePageFault => {
            TrapAction::Exit { exit_code: EXIT_FAULT }
        },
        TrapCause::IllegalInstruction => TrapAction::Exit { exit_code: EXIT_ILLEGAL },
        TrapCause::SupervisorTimer => TrapAction::Yield,
        TrapCause::Unsupported => TrapAction::Fatal,
    }
}

/// Stores a system call's result in the running task's `x10`.
pub fn set_syscall_result(kernel: &mut Kernel, result: isize)
    requires
        old(kernel).wf(),
        old(kernel).current() is Some,
    ensures
        final(kernel).wf(),
        final(kernel).current() == old(kernel).current(),
        final(kernel).ready() == old(kernel).ready(),
        final(kernel).has(old(kernel).current()->0 as int),
        final(kernel).task(old(kernel).current()->0 as int).trap_cx.x@ == old(kernel).task(
            old(kernel).current()->0 as int,
        ).trap_cx.x@.update(10, result as usize),
{
    let cur = kernel.current_pid().unwrap();
    let mut cx: TrapContext = kernel.current_trap_cx();
    cx.x[10] = #[verifier::truncate] (result as usize);
    proof {
        assert(old(kernel).has(cur as int));
    }
    kernel.set_trap_cx(cur, cx);
}

} // verus!
