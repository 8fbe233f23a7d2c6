use rcore_os::config::{kernel_stack_position, TRAMPOLINE};
use rcore_os::context::{TaskContext, TrapContext};
use rcore_os::manager::TaskManager;
use rcore_os::memory_set::{init, KernelLayout};
use rcore_os::syscall::{sys_exec, sys_exit, sys_fork, sys_get_timer, sys_getpid, sys_waitpid, sys_yield};
use rcore_os::task::{Kernel, TaskStatus};

fn put(v: &mut Vec<u8>, at: usize, bytes: &[u8]) {
    v[at..at + bytes.len()].copy_from_slice(bytes);
}

fn elf_image(entry: u64, vaddr: u64, code: &[u8], memsz: u64, flags: u32) -> Vec<u8> {
    let off = 120usize;
    let mut v = vec![0u8; off + code.len()];
    put(&mut v, 0, &[0x7f, b'E', b'L', b'F', 2, 1, 1, 0]);
    put(&mut v, 16, &2u16.to_le_bytes());
    put(&mut v, 18, &0xf3u16.to_le_bytes());
    put(&mut v, 20, &1u32.to_le_bytes());
    put(&mut v, 24, &entry.to_le_bytes());
    put(&mut v, 32, &64u64.to_le_bytes());
    put(&mut v, 52, &64u16.to_le_bytes());
    put(&mut v, 54, &56u16.to_le_bytes());
    put(&mut v, 56, &1u16.to_le_bytes());
    put(&mut v, 58, &64u16.to_le_bytes());
    put(&mut v, 64, &1u32.to_le_bytes());
    put(&mut v, 68, &flags.to_le_bytes());
    put(&mut v, 72, &(off as u64).to_le_bytes());
    put(&mut v, 80, &vaddr.to_le_bytes());
    put(&mut v, 88, &vaddr.to_le_bytes());
    put(&mut v, 96, &(code.len() as u64).to_le_bytes());
    put(&mut v, 104, &memsz.to_le_bytes());
    put(&mut v, 112, &0x1000u64.to_le_bytes());
    put(&mut v, off, code);
    v
}

fn program() -> Vec<u8> {
    elf_image(0x10000, 0x10000, &[0x13, 0, 0, 0, 0x73, 0, 0, 0], 0x1000, 5)
}

fn boot() -> Kernel {
    let layout = KernelLayout {
        stext: 0x80200000,
        etext: 0x80202000,
        srodata: 0x80202000,
        erodata: 0x80203000,
        sdata: 0x80203000,
        edata: 0x80204000,
        sbss_with_stack: 0x80204000,
        ebss: 0x80206000,
        ekernel: 0x80206000,
        memory_end: 0x80210000,
        strampoline_ppn: 0x80201,
    };
    let (pool, ks) = init(0x80210, 0x80210 + 1024, &layout).unwrap();
    Kernel::new(pool, ks, 0x80201, 0x1111, 0x2222, 0x122).unwrap()
}

fn boot_with_root() -> Kernel {
    let mut k = boot();
    assert_eq!(k.add_initproc(&program()), Ok(0));
    assert_eq!(k.run_next(), Some(0));
    k
}

#[test]
fn new_task_starts_at_entry_on_its_stacks() {
    let mut k = boot();
    let pid = k.new_task(&program()).unwrap();
    assert_eq!(pid, 0);
    let t = k.task_ref(0).unwrap();
    assert_eq!(t.task_status, TaskStatus::Ready);
    assert_eq!(t.kernel_stack_top, kernel_stack_position(0).1);
    assert_eq!(t.task_cx.ra, 0x2222);
    assert_eq!(t.task_cx.sp, t.kernel_stack_top);
    assert_eq!(t.trap_cx.sepc, 0x10000);
    assert_eq!(t.trap_cx.x[2], t.base_size);
    assert_eq!(t.base_size, 0x14000);
    assert_eq!(t.trap_cx.kernel_sp, t.kernel_stack_top);
    assert_eq!(t.trap_cx.trap_handler, 0x1111);
    assert_eq!(t.trap_cx.sstatus, 0x22);
    assert_eq!(t.parent, None);
    assert!(t.children.is_empty());
}

#[test]
fn fork_child_sees_zero_parent_gets_pid() {
    let mut k = boot_with_root();
    let mut cx = k.current_trap_cx();
    cx.x[10] = 77;
    cx.x[5] = 5;
    cx.sepc = 0x10004;
    k.set_trap_cx(0, cx);
    let r = sys_fork(&mut k);
    assert_eq!(r, 1);
    let child = k.task_ref(1).unwrap();
    assert_eq!(child.trap_cx.x[10], 0);
    assert_eq!(child.trap_cx.x[5], 5);
    assert_eq!(child.trap_cx.sepc, 0x10004);
    assert_eq!(child.parent, Some(0));
    assert_eq!(child.trap_cx.kernel_sp, kernel_stack_position(1).1);
    assert_eq!(child.task_status, TaskStatus::Ready);
    let parent = k.task_ref(0).unwrap();
    assert_eq!(parent.trap_cx.x[10], 77);
    assert_eq!(parent.children, vec![1]);
    assert_eq!(k.current_pid(), Some(0));
}

#[test]
fn forked_address_space_is_a_copy() {
    let mut k = boot_with_root();
    assert_eq!(sys_fork(&mut k), 1);
    let p = k.task_ref(0).unwrap();
    let c = k.task_ref(1).unwrap();
    let pp = p.memory_set.translate(0x10).unwrap().ppn();
    let cp = c.memory_set.translate(0x10).unwrap().ppn();
    assert_ne!(pp, cp);
    let mem = &k.pool_ref().memory;
    assert_eq!(mem.read_bytes(pp, 0, 4096), mem.read_bytes(cp, 0, 4096));
    assert_eq!(mem.read_bytes(cp, 0, 8), vec![0x13, 0, 0, 0, 0x73, 0, 0, 0]);
    assert_ne!(p.get_user_token(), c.get_user_token());
}

#[test]
fn exit_reparents_and_waitpid_reaps() {
    let mut k = boot_with_root();
    assert_eq!(sys_fork(&mut k), 1);
    assert_eq!(sys_yield(&mut k), 0);
    assert_eq!(k.run_next(), Some(1));
    assert_eq!(sys_fork(&mut k), 2);
    sys_exit(&mut k, 5);
    assert_eq!(k.current_pid(), None);
    let t1 = k.task_ref(1).unwrap();
    assert_eq!(t1.task_status, TaskStatus::Zombie);
    assert_eq!(t1.exit_code, 5);
    assert!(t1.children.is_empty());
    assert_eq!(k.task_ref(2).unwrap().parent, Some(0));
    assert_eq!(k.task_ref(0).unwrap().children, vec![1, 2]);

    assert_eq!(k.run_next(), Some(0));
    let mut code = 0i32;
    assert_eq!(sys_waitpid(&mut k, 42, &mut code), -1);
    assert_eq!(sys_waitpid(&mut k, 2, &mut code), -2);
    assert_eq!(code, 0);
    assert_eq!(sys_waitpid(&mut k, -1, &mut code), 1);
    assert_eq!(code, 5);
    assert!(k.task_ref(1).is_none());
    assert_eq!(k.task_ref(0).unwrap().children, vec![2]);
    assert_eq!(sys_waitpid(&mut k, -1, &mut code), -2);

    assert_eq!(sys_yield(&mut k), 0);
    assert_eq!(k.run_next(), Some(2));
    sys_exit(&mut k, -9);
    assert_eq!(k.run_next(), Some(0));
    assert_eq!(sys_waitpid(&mut k, -1, &mut code), 2);
    assert_eq!(code, -9);
    assert_eq!(sys_waitpid(&mut k, -1, &mut code), -1);
}

#[test]
fn ready_tasks_run_in_turn() {
    let mut k = boot_with_root();
    assert_eq!(sys_fork(&mut k), 1);
    assert_eq!(sys_fork(&mut k), 2);
    assert_eq!(sys_fork(&mut k), 3);
    assert_eq!(sys_yield(&mut k), 0);
    let mut order = Vec::new();
    for _ in 0..8 {
        let p = k.run_next().unwrap();
        assert_eq!(sys_getpid(&k), p as isize);
        order.push(p);
        assert_eq!(sys_yield(&mut k), 0);
    }
    assert_eq!(order, vec![1, 2, 3, 0, 1, 2, 3, 0]);
}

#[test]
fn empty_queue_dispatches_nothing() {
    let mut k = boot();
    assert_eq!(k.run_next(), None);
}

#[test]
fn exec_replaces_the_program() {
    let mut k = boot_with_root();
    let top = k.task_ref(0).unwrap().kernel_stack_top;
    assert_eq!(sys_exec(&mut k, None), -1);
    let bad = vec![0u8; 10];
    assert_eq!(sys_exec(&mut k, Some(&bad)), -1);
    assert_eq!(k.task_ref(0).unwrap().trap_cx.sepc, 0x10000);
    let other = elf_image(0x40008, 0x40000, &[1, 2, 3, 4], 0x2000, 6);
    assert_eq!(sys_exec(&mut k, Some(&other)), 0);
    let t = k.task_ref(0).unwrap();
    assert_eq!(t.pid, 0);
    assert_eq!(t.kernel_stack_top, top);
    assert_eq!(t.trap_cx.sepc, 0x40008);
    assert_eq!(t.base_size, 0x45000);
    assert!(t.memory_set.translate(0x41).unwrap().writeable());
    assert!(!t.memory_set.translate(0x10).map(|e| e.is_valid()).unwrap_or(false));
}

#[test]
fn timer_value_passes_through() {
    assert_eq!(sys_get_timer(1234), 1234);
}

#[test]
fn kernel_stacks_sit_below_the_trampoline() {
    assert_eq!(TRAMPOLINE, usize::MAX - 4095);
    assert_eq!(kernel_stack_position(0), (TRAMPOLINE - 8192, TRAMPOLINE));
    assert_eq!(kernel_stack_position(2), (TRAMPOLINE - 2 * 12288 - 8192, TRAMPOLINE - 2 * 12288));
}

#[test]
fn contexts_start_as_described() {
    let z = TaskContext::zero_init();
    assert_eq!((z.ra, z.sp, z.s), (0, 0, [0; 12]));
    let g = TaskContext::goto_trap_return(0x9000, 0x8020_1000);
    assert_eq!((g.ra, g.sp), (0x8020_1000, 0x9000));
    let cx = TrapContext::app_init_context(0x1000, 0x2000, 0x3000, 0x4000, 0x5000, 0x1f2);
    assert_eq!(cx.x[2], 0x2000);
    assert_eq!(cx.x[10], 0);
    assert_eq!(cx.sepc, 0x1000);
    assert_eq!(cx.sstatus, 0xf2);
    assert_eq!((cx.kernel_satp, cx.kernel_sp, cx.trap_handler), (0x3000, 0x4000, 0x5000));
}

#[test]
fn ready_queue_is_first_in_first_out() {
    let mut m = TaskManager::new();
    assert_eq!(m.fetch(), None);
    m.add(4);
    m.add(2);
    m.add(9);
    assert_eq!(m.len(), 3);
    assert_eq!(m.fetch(), Some(4));
    m.add(4);
    assert_eq!(m.fetch(), Some(2));
    assert_eq!(m.fetch(), Some(9));
    assert_eq!(m.fetch(), Some(4));
    assert_eq!(m.fetch(), None);
}
