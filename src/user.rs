//! The user library's system-call interface: each call becomes a call
//! number and three argument registers, which the trap instruction hands
//! to the kernel.
use vstd::prelude::*;

verus! {

pub const SYSCALL_OPEN: usize = 56;
pub const SYSCALL_CLOSE: usize = 57;
pub const SYSCALL_READ: usize = 63;
pub const SYSCALL_WRITE: usize = 64;
pub const SYSCALL_EXIT: usize = 93;
pub const SYSCALL_YIELD: usize = 124;
pub const SYSCALL_GET_TIME: usize = 169;
pub const SYSCALL_GETPID: usize = 172;
pub const SYSCALL_FORK: usize = 220;
pub const SYSCALL_EXEC: usize = 221;
pub const SYSCALL_WAITPID: usize = 260;

/// A system call as the registers carry it: `a7` and `a0`..`a2`.
#[derive(Clone, Copy, Debug)]
pub struct SyscallArgs {
    pub id: usize,
    pub args: [usize; 3],
}

fn syscall(id: usize, args: [usize; 3]) -> (r: SyscallArgs)
    ensures
        r.id == id,
        r.args == args,
{
    SyscallArgs { id, args }
}

/// Opens the file whose name starts at address `path`.
pub fn sys_open(path: usize, flags: u32) -> (r: SyscallArgs)
    ensures
        r.id == SYSCALL_OPEN,
        r.args@ == seq![path, flags as usize, 0usize],
{
    let r = syscall(SYSCALL_OPEN, [path, flags as usize, 0]);
    assert(r.args@ =~= seq![path, flags as usize, 0usize]);
    r
}

pub fn sys_close(fd: usize) -> (r: SyscallArgs)
    ensures
        r.id == SYSCALL_CLOSE,
        r.args@ == seq![fd, 0usize, 0usize],
{
    let r = syscall(SYSCALL_CLOSE, [fd, 0, 0]);
    assert(r.args@ =~= seq![fd, 0usize, 0usize]);
    r
}

/// Reads into the `len` bytes at address `buffer`.
pub fn sys_read(fd: usize, buffer: usize, len: usize) -> (r: SyscallArgs)
    ensures
        r.id == SYSCALL_READ,
        r.args@ == seq![fd, buffer, len],
{
    let r = syscall(SYSCALL_READ, [fd, buffer, len]);
    assert(r.args@ =~= seq![fd, buffer, len]);
    r
}

/// Writes the `len` bytes at address `buffer`.
pub fn sys_write(fd: usize, buffer: usize, len: usize) -> (r: SyscallArgs)
    ensures
        r.id == SYSCALL_WRITE,
        r.args@ == seq![fd, buffer, len],
{
    let r = syscall(SYSCALL_WRITE, [fd, buffer, len]);
    assert(r.args@ =~= seq![fd, buffer, len]);
    r
}

/// The exit code goes in `a0`, sign-extended.
pub fn sys_exit(exit_code: i32) -> (r: SyscallArgs)
    ensures
        r.id == SYSCALL_EXIT,
        r.args@ == seq![exit_code as usize, 0usize, 0usize],
{
    let code = #[verifier::truncate] (exit_code as usize);
    let r = syscall(SYSCALL_EXIT, [code, 0, 0]);
    assert(r.args@ =~= seq![exit_code as usize, 0usize, 0usize]);
    r
}

pub fn sys_yield() -> (r: SyscallArgs)
    ensures
        r.id == SYSCALL_YIELD,
        r.args@ == seq![0usize, 0usize, 0usize],
{
    let r = syscall(SYSCALL_YIELD, [0, 0, 0]);
    assert(r.args@ =~= seq![0usize, 0usize, 0usize]);
    r
}

pub fn sys_get_time() -> (r: SyscallArgs)
    ensures
        r.id == SYSCALL_GET_TIME,
        r.args@ == seq![0usize, 0usize, 0usize],
{
    let r = syscall(SYSCALL_GET_TIME, [0, 0, 0]);
    assert(r.args@ =~= seq![0usize, 0usize, 0usize]);
    r
}

pub fn sys_getpid() -> (r: SyscallArgs)
    ensures
        r.id == SYSCALL_GETPID,
        r.args@ == seq![0usize, 0usize, 0usize],
{
    let r = syscall(SYSCALL_GETPID, [0, 0, 0]);
    assert(r.args@ =~= seq![0usize, 0usize, 0usize]);
    r
}

/// The child sees 0 returned, the parent the child's pid.
pub fn sys_fork() -> (r: SyscallArgs)
    ensures
        r.id == SYSCALL_FORK,
        r.args@ == seq![0usize, 0usize, 0usize],
{
    let r = syscall(SYSCALL_FORK, [0, 0, 0]);
    assert(r.args@ =~= seq![0usize, 0usize, 0usize]);
    r
}

/// Runs the program whose name starts at address `path`; returns only on
/// error (-1).
pub fn sys_exec(path: usize) -> (r: SyscallArgs)
    ensures
        r.id == SYSCALL_EXEC,
        r.args@ == seq![path, 0usize, 0usize],
{
    let r = syscall(SYSCALL_EXEC, [path, 0, 0]);
    assert(r.args@ =~= seq![path, 0usize, 0usize]);
    r
}

/// Waits for child `pid` (-1: any), storing its exit code at address
/// `exit_code`.
pub fn sys_waitpid(pid: isize, exit_code: usize) -> (r: SyscallArgs)
    ensures
        r.id == SYSCALL_WAITPID,
        r.args@ == seq![pid as usize, exit_code, 0usize],
{
    let p = #[verifier::truncate] (pid as usize);
    let r = syscall(SYSCALL_WAITPID, [p, exit_code, 0]);
    assert(r.args@ =~= seq![pid as usize, exit_code, 0usize]);
    r
}

/// A system call the kernel handles, decoded from its registers.
#[derive(Clone, Copy, PartialEq, Eq, Structural, Debug)]
pub enum Syscall {
    Read { fd: usize, buffer: usize, len: usize },
    Write { fd: usize, buffer: usize, len: usize },
    Exit { exit_code: i32 },
    Yield,
    GetTime,
    GetPid,
    Fork,
    Exec { path: usize },
    Waitpid { pid: isize, status_addr: usize },
}

/// Decodes a system call from its number and argument registers; `None`
/// for a number the kernel does not handle.
pub fn syscalls(syscall_id: usize, args: [usize; 3]) -> (r: Option<Syscall>)
    ensures
        syscall_id == SYSCALL_READ ==> r == Some(Syscall::Read { fd: args@[0], buffer: args@[1], len: args@[2] }),
        syscall_id == SYSCALL_WRITE ==> r == Some(Syscall::Write { fd: args@[0], buffer: args@[1], len: args@[2] }),
        syscall_id == SYSCALL_EXIT ==> r == Some(Syscall::Exit { exit_code: args@[0] as i32 }),
        syscall_id == SYSCALL_YIELD ==> r == Some(Syscall::Yield),
        syscall_id == SYSCALL_GET_TIME ==> r == Some(Syscall::GetTime),
        syscall_id == SYSCALL_GETPID ==> r == Some(Syscall::GetPid),
        syscall_id == SYSCALL_FORK ==> r == Some(Syscall::Fork),
        syscall_id == SYSCALL_EXEC ==> r == Some(Syscall::Exec { path: args@[0] }),
        syscall_id == SYSCALL_WAITPID ==> r == Some(Syscall::Waitpid { pid: args@[0] as isize, status_addr: args@[1] }),
        r is None <==> !(syscall_id == SYSCALL_READ || syscall_id == SYSCALL_WRITE || syscall_id == SYSCALL_EXIT
            || syscall_id == SYSCALL_YIELD || syscall_id == SYSCALL_GET_TIME || syscall_id == SYSCALL_GETPID
            || syscall_id == SYSCALL_FORK || syscall_id == SYSCALL_EXEC || syscall_id == SYSCALL_WAITPID),
{
    if syscall_id == SYSCALL_READ {
        Some(Syscall::Read { fd: args[0], buffer: args[1], len: args[2] })
    } else if syscall_id == SYSCALL_WRITE {
        Some(Syscall::Write { fd: args[0], buffer: args[1], len: args[2] })
    } else if syscall_id == SYSCALL_EXIT {
        Some(Syscall::Exit { exit_code: #[verifier::truncate] (args[0] as i32) })
    } else if syscall_id == SYSCALL_YIELD {
        Some(Syscall::Yield)
    } else if syscall_id == SYSCALL_GET_TIME {
        Some(Syscall::GetTime)
    } else if syscall_id == SYSCALL_GETPID {
        Some(Syscall::GetPid)
    } else if syscall_id == SYSCALL_FORK {
        Some(Syscall::Fork)
    } else if syscall_id == SYSCALL_EXEC {
        Some(Syscall::Exec { path: args[0] })
    } else if syscall_id == SYSCALL_WAITPID {
        Some(Syscall::Waitpid { pid: #[verifier::truncate] (args[0] as isize), status_addr: args[1] })
    } else {
        None
    }
}

} // verus!
