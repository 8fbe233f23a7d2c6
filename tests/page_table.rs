use rcore_os::page_table::{PageTable, PageTableEntry, PTE_R, PTE_V, PTE_W, PTE_X};
use rcore_os::phys_memory::FramePool;

#[test]
fn entry_fields_round_trip() {
    let e = PageTableEntry::new(0x80123, PTE_V | PTE_R | PTE_X);
    assert_eq!(e.bits, (0x80123 << 10) | 0b1011);
    assert_eq!(e.ppn(), 0x80123);
    assert_eq!(e.flags(), 0b1011);
    assert!(e.is_valid());
    assert!(e.readable());
    assert!(!e.writeable());
    assert!(e.executable());
    assert!(!PageTableEntry::empty().is_valid());
}

#[test]
fn map_translate_unmap() {
    let mut pool = FramePool::new(0x1000, 0x1010);
    let mut pt = PageTable::new(&mut pool).unwrap();
    assert!(pt.translate(0x12345).is_none());
    assert!(pt.map(&mut pool, 0x12345, 0x777, PTE_R | PTE_W));
    let e = pt.translate(0x12345).unwrap();
    assert!(e.is_valid());
    assert_eq!(e.ppn(), 0x777);
    assert!(e.writeable());
    assert!(!e.executable());
    // the neighbour shares the last-level node but is not mapped
    let n = pt.translate(0x12346).unwrap();
    assert!(!n.is_valid());
    pt.unmap(0x12345);
    assert!(!pt.translate(0x12345).unwrap().is_valid());
}

#[test]
fn map_allocates_two_nodes_then_fails_without_frames() {
    let mut pool = FramePool::new(0x2000, 0x2003);
    let mut pt = PageTable::new(&mut pool).unwrap();
    assert!(pt.map(&mut pool, 5, 9, PTE_R));
    // a page under another root entry needs two more nodes, one is left
    assert!(!pt.map(&mut pool, 1 << 18, 9, PTE_R));
    assert!(!pt.translate(1 << 18).map(|e| e.is_valid()).unwrap_or(false));
    assert!(pt.translate(5).unwrap().is_valid());
}

#[test]
fn token_encodes_mode_and_root() {
    let mut pool = FramePool::new(0x3000, 0x3001);
    let pt = PageTable::new(&mut pool).unwrap();
    assert_eq!(pt.token(), (8usize << 60) | 0x3000);
}

#[test]
fn release_gives_node_frames_back() {
    let mut pool = FramePool::new(0x4000, 0x4003);
    let mut pt = PageTable::new(&mut pool).unwrap();
    assert!(pt.map(&mut pool, 3, 3, PTE_R));
    assert_eq!(pool.frame_alloc(), None);
    pt.release(&mut pool);
    assert!(pool.frame_alloc().is_some());
    assert!(pool.frame_alloc().is_some());
    assert!(pool.frame_alloc().is_some());
    assert_eq!(pool.frame_alloc(), None);
}

#[test]
fn virtual_addresses_translate_to_physical_ones() {
    let mut pool = FramePool::new(0x5000, 0x5010);
    let mut pt = PageTable::new(&mut pool).unwrap();
    assert!(pt.map(&mut pool, 0x10, 0x80400, PTE_R));
    assert_eq!(pt.translate_va(0x10abc), Some(0x80400abc));
    assert_eq!(pt.translate_va(0x40000000), None);
}
