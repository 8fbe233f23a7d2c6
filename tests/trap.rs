use rcore_os::memory_set::{init, translated_byte_buffer, translated_str, KernelLayout};
use rcore_os::syscall::sys_fork;
use rcore_os::task::Kernel;
use rcore_os::trap::{set_syscall_result, trap_handler, TrapAction, TrapCause, EXIT_FAULT, EXIT_ILLEGAL};

fn put(v: &mut Vec<u8>, at: usize, bytes: &[u8]) {
    v[at..at + bytes.len()].copy_from_slice(bytes);
}

fn elf_image(entry: u64, vaddr: u64, code: &[u8], memsz: u64, flags: u32) -> Vec<u8> {
    let off = 120usize;
    let mut v = vec![0u8; off + code.len()];
    put(&mut v, 0, &[0x7f, b'E', b'L', b'F', 2, 1, 1, 0]);
    put(&mut v, 16, &2u16.to_le_bytes());
    put(&mut v, 18, &0xf3u16.to_le_bytes());
    put(&mut v, 20, &1u32.to_le_bytes());
    put(&mut v, 24, &entry.to_le_bytes());
    put(&mut v, 32, &64u64.to_le_bytes());
    put(&mut v, 52, &64u16.to_le_bytes());
    put(&mut v, 54, &56u16.to_le_bytes());
    put(&mut v, 56, &1u16.to_le_bytes());
    put(&mut v, 58, &64u16.to_le_bytes());
    put(&mut v, 64, &1u32.to_le_bytes());
    put(&mut v, 68, &flags.to_le_bytes());
    put(&mut v, 72, &(off as u64).to_le_bytes());
    put(&mut v, 80, &vaddr.to_le_bytes());
    put(&mut v, 88, &vaddr.to_le_bytes());
    put(&mut v, 96, &(code.len() as u64).to_le_bytes());
    put(&mut v, 104, &memsz.to_le_bytes());
    put(&mut v, 112, &0x1000u64.to_le_bytes());
    put(&mut v, off, code);
    v
}

fn running_kernel(code: &[u8]) -> Kernel {
    let layout = KernelLayout {
        stext: 0x80200000,
        etext: 0x80202000,
        srodata: 0x80202000,
        erodata: 0x80203000,
        sdata: 0x80203000,
        edata: 0x80204000,
        sbss_with_stack: 0x80204000,
        ebss: 0x80206000,
        ekernel: 0x80206000,
        memory_end: 0x80210000,
        strampoline_ppn: 0x80201,
    };
    let (pool, ks) = init(0x80210, 0x80210 + 512, &layout).unwrap();
    let mut k = Kernel::new(pool, ks, 0x80201, 0x1111, 0x2222, 0).unwrap();
    k.add_initproc(&elf_image(0x10000, 0x10000, code, 0x2000, 7)).unwrap();
    assert_eq!(k.run_next(), Some(0));
    k
}

#[test]
fn system_call_trap_advances_past_ecall() {
    let mut k = running_kernel(&[0; 8]);
    let mut cx = k.current_trap_cx();
    cx.x[17] = 220;
    cx.x[10] = 1;
    cx.x[11] = 2;
    cx.x[12] = 3;
    k.set_trap_cx(0, cx);
    match trap_handler(&mut k, TrapCause::UserEnvCall) {
        TrapAction::Syscall { id, args } => {
            assert_eq!(id, 220);
            assert_eq!(args, [1, 2, 3]);
        }
        other => panic!("unexpected {:?}", other),
    }
    assert_eq!(k.current_trap_cx().sepc, 0x10004);
    set_syscall_result(&mut k, -1);
    assert_eq!(k.current_trap_cx().x[10], usize::MAX);
    assert_eq!(k.current_trap_cx().x[11], 2);
}

#[test]
fn faults_kill_and_timer_preempts() {
    let mut k = running_kernel(&[0; 8]);
    for cause in [TrapCause::LoadPageFault, TrapCause::StoreFault, TrapCause::InstructionPageFault] {
        match trap_handler(&mut k, cause) {
            TrapAction::Exit { exit_code } => assert_eq!(exit_code, EXIT_FAULT),
            other => panic!("unexpected {:?}", other),
        }
    }
    match trap_handler(&mut k, TrapCause::IllegalInstruction) {
        TrapAction::Exit { exit_code } => assert_eq!(exit_code, EXIT_ILLEGAL),
        other => panic!("unexpected {:?}", other),
    }
    assert!(matches!(trap_handler(&mut k, TrapCause::SupervisorTimer), TrapAction::Yield));
    assert!(matches!(trap_handler(&mut k, TrapCause::Unsupported), TrapAction::Fatal));
    assert_eq!(k.current_trap_cx().sepc, 0x10000);
}

#[test]
fn user_strings_and_buffers_are_read_through_the_page_table() {
    let mut code = vec![0u8; 4100];
    code[4090..4100].copy_from_slice(b"initproc\0x");
    let k = running_kernel(&code);
    let ms = &k.task_ref(0).unwrap().memory_set;
    let pool = k.pool_ref();
    // the string crosses from the first page into the second
    assert_eq!(translated_str(ms, pool, 0x10000 + 4090).unwrap(), b"initproc".to_vec());
    assert_eq!(translated_byte_buffer(ms, pool, 0x10000 + 4094, 4).unwrap(), b"proc".to_vec());
    assert_eq!(translated_byte_buffer(ms, pool, 0x10000, 0).unwrap(), Vec::<u8>::new());
    assert!(translated_byte_buffer(ms, pool, 0x30000, 1).is_none());
    assert!(translated_str(ms, pool, 0x30000).is_none());
}

#[test]
fn exit_code_is_written_into_user_memory() {
    let mut k = running_kernel(&[0; 8]);
    assert!(k.write_user_bytes(0, 0x10100, &(-7i32).to_le_bytes()));
    let ms = &k.task_ref(0).unwrap().memory_set;
    assert_eq!(translated_byte_buffer(ms, k.pool_ref(), 0x10100, 4).unwrap(), (-7i32).to_le_bytes().to_vec());
    // across a page boundary, or unmapped: nothing is written
    assert!(!k.write_user_bytes(0, 0x10ffe, &[1, 2, 3, 4]));
    assert!(!k.write_user_bytes(0, 0x30000, &[1]));
    assert_eq!(sys_fork(&mut k), 1);
    assert!(k.write_user_bytes(1, 0x10100, &[9]));
    let parent = &k.task_ref(0).unwrap().memory_set;
    assert_eq!(translated_byte_buffer(parent, k.pool_ref(), 0x10100, 1).unwrap(), vec![0xf9]);
}
