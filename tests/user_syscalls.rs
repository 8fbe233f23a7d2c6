use rcore_os::user::{
    sys_close, sys_exec, sys_exit, sys_fork, sys_get_time, sys_getpid, sys_open, sys_read, sys_waitpid,
    sys_write, sys_yield, syscalls, Syscall, SYSCALL_EXIT, SYSCALL_FORK, SYSCALL_WAITPID, SYSCALL_WRITE,
};

#[test]
fn calls_become_numbers_and_registers() {
    let w = sys_write(1, 0x1000, 12);
    assert_eq!(w.id, 64);
    assert_eq!(w.args, [1, 0x1000, 12]);
    let r = sys_read(0, 0x2000, 1);
    assert_eq!((r.id, r.args), (63, [0, 0x2000, 1]));
    let o = sys_open(0x3000, 7);
    assert_eq!((o.id, o.args), (56, [0x3000, 7, 0]));
    assert_eq!(sys_close(3).args, [3, 0, 0]);
    assert_eq!(sys_close(3).id, 57);
    assert_eq!(sys_yield().id, 124);
    assert_eq!(sys_get_time().id, 169);
    assert_eq!(sys_getpid().id, 172);
    assert_eq!(sys_fork().id, 220);
    assert_eq!((sys_exec(0x4000).id, sys_exec(0x4000).args), (221, [0x4000, 0, 0]));
}

#[test]
fn negative_arguments_are_sign_extended() {
    let e = sys_exit(-3);
    assert_eq!(e.id, 93);
    assert_eq!(e.args[0], (-3i64) as usize);
    let w = sys_waitpid(-1, 0x5000);
    assert_eq!(w.id, 260);
    assert_eq!(w.args, [usize::MAX, 0x5000, 0]);
}

#[test]
fn kernel_decodes_what_the_user_encodes() {
    assert_eq!(syscalls(SYSCALL_WRITE, [1, 2, 3]), Some(Syscall::Write { fd: 1, buffer: 2, len: 3 }));
    assert_eq!(syscalls(SYSCALL_EXIT, [(-2i64) as usize, 0, 0]), Some(Syscall::Exit { exit_code: -2 }));
    assert_eq!(syscalls(SYSCALL_FORK, [0, 0, 0]), Some(Syscall::Fork));
    assert_eq!(syscalls(SYSCALL_WAITPID, [usize::MAX, 8, 0]), Some(Syscall::Waitpid { pid: -1, status_addr: 8 }));
    assert_eq!(syscalls(56, [0, 0, 0]), None);
    assert_eq!(syscalls(1, [0, 0, 0]), None);
}
