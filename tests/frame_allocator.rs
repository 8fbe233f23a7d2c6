use rcore_os::frame_allocator::StackFrameAllocator;
use rcore_os::phys_memory::FramePool;

#[test]
fn alloc_hands_out_frames_in_order_then_runs_out() {
    let mut a = StackFrameAllocator::new();
    a.init(10, 13);
    assert_eq!(a.alloc_frame(), Some(10));
    assert_eq!(a.alloc_frame(), Some(11));
    assert_eq!(a.alloc_frame(), Some(12));
    assert_eq!(a.alloc_frame(), None);
}

#[test]
fn freed_frames_are_reused_last_freed_first() {
    let mut a = StackFrameAllocator::new();
    a.init(0, 4);
    for _ in 0..4 {
        a.alloc_frame().unwrap();
    }
    a.dealloc_frame(1);
    a.dealloc_frame(3);
    assert_eq!(a.alloc_frame(), Some(3));
    assert_eq!(a.alloc_frame(), Some(1));
    assert_eq!(a.alloc_frame(), None);
}

#[test]
fn live_frames_are_distinct_and_freed_ones_come_back() {
    let mut a = StackFrameAllocator::new();
    a.init(100, 108);
    let mut live: Vec<usize> = Vec::new();
    for _ in 0..8 {
        let f = a.alloc_frame().unwrap();
        assert!(!live.contains(&f));
        live.push(f);
    }
    assert_eq!(a.alloc_frame(), None);
    let freed = vec![live[2], live[5], live[7]];
    for f in &freed {
        a.dealloc_frame(*f);
        live.retain(|x| x != f);
    }
    for _ in 0..freed.len() {
        let f = a.alloc_frame().unwrap();
        assert!(!live.contains(&f));
        assert!(freed.contains(&f));
        live.push(f);
    }
    assert_eq!(a.alloc_frame(), None);
}

#[test]
fn empty_allocator_has_nothing() {
    let mut a = StackFrameAllocator::new();
    assert_eq!(a.alloc_frame(), None);
}

#[test]
fn pool_zero_fills_reused_frames() {
    let mut pool = FramePool::new(50, 52);
    let f = pool.frame_alloc().unwrap();
    pool.memory.write_bytes(f, 10, &[1, 2, 3], 0, 3);
    assert_eq!(pool.memory.read_byte(f, 11), 2);
    pool.frame_dealloc(f);
    let g = pool.frame_alloc().unwrap();
    assert_eq!(g, f);
    assert_eq!(pool.memory.read_bytes(g, 0, 4096), vec![0u8; 4096]);
}
