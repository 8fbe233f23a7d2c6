//! The process-management system calls, on the kernel state of the
//! running task.
use vstd::prelude::*;
use crate::memory_set::{image_content, is_image_space, TRAMPOLINE_VPN};
use crate::task::{elf_loadable, pid_matches, Kernel, TaskStatus, INITPROC_PID, MAX_TASKS};

verus! {

/// `exit`: the running task becomes a zombie with `exit_code`; its children
/// go to the root task. The caller then switches to the idle context.
pub fn sys_exit(kernel: &mut Kernel, exit_code: i32)
    requires
        old(kernel).wf(),
        old(kernel).current() is Some,
        old(kernel).current()->0 != INITPROC_PID,
        old(kernel).has(INITPROC_PID as int),
    ensures
        final(kernel).wf(),
        final(kernel).current() is None,
        final(kernel).has(old(kernel).current()->0 as int),
        final(kernel).task(old(kernel).current()->0 as int).task_status == TaskStatus::Zombie,
        final(kernel).task(old(kernel).current()->0 as int).exit_code == exit_code,
{
    kernel.exit_current(exit_code);
}

/// `yield`: the running task goes to the tail of the ready queue; it sees 0
/// when it next runs.
pub fn sys_yield(kernel: &mut Kernel) -> (r: isize)
    requires
        old(kernel).wf(),
        old(kernel).current() is Some,
    ensures
        final(kernel).wf(),
        r == 0,
        final(kernel).current() is None,
        final(kernel).ready() == old(kernel).ready().push(old(kernel).current()->0),
{
    kernel.suspend_current();
    0
}

/// `get_time`: the time in milliseconds that the timer read.
pub fn sys_get_timer(time_ms: usize) -> (r: isize)
    requires
        time_ms <= isize::MAX,
    ensures
        r == time_ms as isize,
{
    time_ms as isize
}

/// `getpid`: the pid of the running task.
pub fn sys_getpid(kernel: &Kernel) -> (r: isize)
    requires
        kernel.wf(),
        kernel.current() is Some,
    ensures
        r == kernel.current()->0 as isize,
{
    let p = kernel.current_pid().unwrap();
    assert(p < MAX_TASKS);
    p as isize
}

/// `fork`: the child is queued with its return-value register (`x10`)
/// zeroed, and the parent's call returns the child's pid. Returns -1 when
/// no task slot or frame is left.
pub fn sys_fork(kernel: &mut Kernel) -> (r: isize)
    requires
        old(kernel).wf(),
        old(kernel).current() is Some,
    ensures
        final(kernel).wf(),
        final(kernel).current() == old(kernel).current(),
        r == -1 || (0 <= r && r as int == old(kernel).tasks().len()),
        r == -1 ==> final(kernel).tasks() == old(kernel).tasks() && final(kernel).ready() == old(kernel).ready(),
        old(kernel).tasks().len() >= MAX_TASKS ==> r == -1,
        old(kernel).tasks().len() < MAX_TASKS && old(kernel).pool().allocator@.available() >= 9 + 3
            * crate::memory_set::pages_in(old(kernel).task(old(kernel).current()->0 as int).memory_set.area_seq())
            ==> r >= 0,
        r >= 0 ==> {
            let c = r as usize;
            let cur = old(kernel).current()->0;
            let pt = old(kernel).task(cur as int);
            let t = final(kernel).task(c as int);
            &&& final(kernel).has(c as int)
            &&& t.trap_cx.x@[10] == 0
            &&& forall|i: int| 0 <= i < 32 && i != 10 ==> t.trap_cx.x@[i] == pt.trap_cx.x@[i]
            &&& t.trap_cx.sepc == pt.trap_cx.sepc
            &&& t.parent == Some(cur)
            &&& final(kernel).task(cur as int).trap_cx == pt.trap_cx
            &&& final(kernel).task(cur as int).children@ == pt.children@.push(c)
            &&& final(kernel).ready() == old(kernel).ready().push(c)
        },
{
    let cur = kernel.current_pid().unwrap();
    proof {
        assert(old(kernel).has(cur as int));
    }
    match kernel.fork(cur) {
        Err(_) => -1,
        Ok(c) => {
            let ghost k1 = *kernel;
            proof {
                assert(!k1.ready().contains(c)) by {
                    if k1.ready().contains(c) {
                        let i = choose|i: int| 0 <= i < k1.ready().len() && k1.ready()[i] == c;
                        assert(old(kernel).ready()[i] == c);
                        assert(old(kernel).has(c as int));
                    }
                }
            }
            let mut cx = kernel.task_ref(c).unwrap().get_trap_cx();
            cx.x[10] = 0;
            kernel.set_trap_cx(c, cx);
            proof {
                assert(kernel.current() != Some(c));
            }
            kernel.add_task(c);
            proof {
                assert forall|i: int| 0 <= i < 32 && i != 10 implies kernel.task(c as int).trap_cx.x@[i] == old(kernel).task(cur as int).trap_cx.x@[i] by {}
            }
            c as isize
        },
    }
}

/// `exec`: 0 when `app`, the image found for the requested name, is loaded
/// into the running task; -1 when no image was found or it could not be
/// loaded, leaving the address space untouched.
pub fn sys_exec(kernel: &mut Kernel, app: Option<&[u8]>) -> (r: isize)
    requires
        old(kernel).wf(),
        old(kernel).current() is Some,
    ensures
        final(kernel).wf(),
        final(kernel).current() == old(kernel).current(),
        final(kernel).ready() == old(kernel).ready(),
        r == 0 || r == -1,
        app is None ==> r == -1,
        app is Some && elf_loadable(app->0@, old(kernel).pool().allocator@.available()) ==> r == 0,
        r == -1 ==> final(kernel).tasks() == old(kernel).tasks(),
        r == 0 ==> {
            let cur = old(kernel).current()->0 as int;
            let t0 = old(kernel).task(cur);
            let t = final(kernel).task(cur);
            &&& app is Some
            &&& final(kernel).has(cur)
            &&& t.pid == t0.pid
            &&& t.kernel_stack_top == t0.kernel_stack_top
            &&& t.parent == t0.parent
            &&& t.children == t0.children
            &&& t.exit_code == t0.exit_code
            &&& is_image_space(&t.memory_set, app->0@, t.base_size, t.trap_cx.sepc, old(kernel).trampoline_ppn())
            &&& image_content(&t.memory_set, &final(kernel).pool(), app->0@)
            &&& t.trap_cx.x@[2] == t.base_size
            &&& t.trap_cx.kernel_sp == t0.kernel_stack_top
            &&& forall|q: int| 0 <= q < old(kernel).tasks().len() && q != cur ==> #[trigger] final(kernel).tasks()[q] == old(kernel).tasks()[q]
        },
{
    match app {
        None => -1,
        Some(data) => {
            let cur = kernel.current_pid().unwrap();
            match kernel.exec(cur, data) {
                Ok(()) => 0,
                Err(_) => -1,
            }
        },
    }
}

/// `waitpid`: -1 when no child of the running task matches `pid` (-1
/// matches any), -2 when matching children exist but none is a zombie,
/// else the pid of the first matching zombie child, which is reaped, with
/// its exit code stored in `exit_code`.
pub fn sys_waitpid(kernel: &mut Kernel, pid: isize, exit_code: &mut i32) -> (r: isize)
    requires
        old(kernel).wf(),
        old(kernel).current() is Some,
    ensures
        final(kernel).wf(),
        ({
            let cur = old(kernel).current()->0 as int;
            let ch = old(kernel).task(cur).children@;
            &&& (forall|i: int| 0 <= i < ch.len() ==> !pid_matches(pid, #[trigger] ch[i])) ==> r == -1
            &&& ((exists|i: int| 0 <= i < ch.len() && pid_matches(pid, #[trigger] ch[i]))
                && (forall|i: int| 0 <= i < ch.len() ==> !old(kernel).zombie_match(pid, #[trigger] ch[i]))) ==> r == -2
            &&& forall|i: int| #[trigger] old(kernel).first_zombie_at(cur, pid, i) ==> r == ch[i] as isize
                && *final(exit_code) == old(kernel).task(ch[i] as int).exit_code
                && final(kernel).tasks()[ch[i] as int] is None
                && final(kernel).task(cur).children@ == ch.remove(i)
                && old(kernel).task(ch[i] as int).memory_set.frames().disjoint(final(kernel).pool().live())
                && (forall|v: usize|
                    TRAMPOLINE_VPN - 3 * ch[i] - 2 <= v < TRAMPOLINE_VPN - 3 * ch[i] ==> !#[trigger] final(kernel).kspace().mapping().contains_key(v))
        }),
        r < 0 ==> *final(exit_code) == *old(exit_code),
        r < 0 ==> *final(kernel) == *old(kernel),
{
    let (r, code) = kernel.waitpid(pid);
    if r >= 0 {
        *exit_code = code;
    }
    proof {
        let cur = old(kernel).current()->0 as int;
        let ch = old(kernel).task(cur).children@;
        assert forall|i: int| #[trigger] old(kernel).first_zombie_at(cur, pid, i) implies r >= 0 by {
            assert(old(kernel).has(ch[i] as int));
        }
        if exists|i: int| 0 <= i < ch.len() && old(kernel).zombie_match(pid, #[trigger] ch[i]) {
            let i = choose|i: int| 0 <= i < ch.len() && old(kernel).zombie_match(pid, #[trigger] ch[i]);
            crate::task::lemma_first_zombie_exists(*old(kernel), cur, pid, i);
        } else if exists|i: int| 0 <= i < ch.len() && pid_matches(pid, #[trigger] ch[i]) {
        }
    }
    r
}

} // verus!
