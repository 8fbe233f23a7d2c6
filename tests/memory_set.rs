use rcore_os::elf::parse_elf;
use rcore_os::memory_set::{
    init, va_ceil, va_floor, KernelLayout, LoadError, MapArea, MapType, MemorySet, MAP_R, MAP_U, MAP_W, MAP_X,
    TRAMPOLINE_VPN, TRAP_CONTEXT_VPN,
};
use rcore_os::phys_memory::FramePool;

const TRAMPOLINE_PPN: usize = 0x80200;

fn put(v: &mut Vec<u8>, at: usize, bytes: &[u8]) {
    v[at..at + bytes.len()].copy_from_slice(bytes);
}

/// An ELF64 image with one loadable segment at `vaddr` holding `code`,
/// `memsz` bytes long in memory, with flags `flags` (X=1, W=2, R=4).
fn elf_image(entry: u64, vaddr: u64, code: &[u8], memsz: u64, flags: u32) -> Vec<u8> {
    let off = 120usize;
    let mut v = vec![0u8; off + code.len()];
    put(&mut v, 0, &[0x7f, b'E', b'L', b'F', 2, 1, 1, 0]);
    put(&mut v, 16, &2u16.to_le_bytes());
    put(&mut v, 18, &0xf3u16.to_le_bytes());
    put(&mut v, 20, &1u32.to_le_bytes());
    put(&mut v, 24, &entry.to_le_bytes());
    put(&mut v, 32, &64u64.to_le_bytes());
    put(&mut v, 52, &64u16.to_le_bytes());
    put(&mut v, 54, &56u16.to_le_bytes());
    put(&mut v, 56, &1u16.to_le_bytes());
    put(&mut v, 58, &64u16.to_le_bytes());
    put(&mut v, 64, &1u32.to_le_bytes());
    put(&mut v, 68, &flags.to_le_bytes());
    put(&mut v, 72, &(off as u64).to_le_bytes());
    put(&mut v, 80, &vaddr.to_le_bytes());
    put(&mut v, 88, &vaddr.to_le_bytes());
    put(&mut v, 96, &(code.len() as u64).to_le_bytes());
    put(&mut v, 104, &memsz.to_le_bytes());
    put(&mut v, 112, &0x1000u64.to_le_bytes());
    put(&mut v, off, code);
    v
}

fn read_page(ms: &MemorySet, pool: &FramePool, vpn: usize) -> Vec<u8> {
    let pte = ms.translate(vpn).unwrap();
    assert!(pte.is_valid());
    pool.memory.read_bytes(pte.ppn(), 0, 4096)
}

#[test]
fn addresses_to_page_numbers() {
    assert_eq!(va_floor(0x1fff), 1);
    assert_eq!(va_ceil(0x1fff), 2);
    assert_eq!(va_ceil(0x2000), 2);
    assert_eq!(va_ceil(0), 0);
    assert_eq!(va_floor(usize::MAX - 4095), TRAMPOLINE_VPN);
}

#[test]
fn push_copies_data_and_zero_fills_the_rest() {
    let mut pool = FramePool::new(0x100, 0x140);
    let mut ms = MemorySet::new_bare(&mut pool).unwrap();
    let data: Vec<u8> = (0..5000u32).map(|i| (i % 251) as u8 + 1).collect();
    let area = MapArea::new(0x10000, 0x13000, MapType::Framed, MAP_R | MAP_W | MAP_U);
    assert!(ms.push(&mut pool, area, Some(&data)));
    let first = read_page(&ms, &pool, 0x10);
    let second = read_page(&ms, &pool, 0x11);
    let third = read_page(&ms, &pool, 0x12);
    assert_eq!(&first[..], &data[..4096]);
    assert_eq!(&second[..904], &data[4096..]);
    assert!(second[904..].iter().all(|b| *b == 0));
    assert!(third.iter().all(|b| *b == 0));
    let e = ms.translate(0x11).unwrap();
    assert!(e.readable() && e.writeable() && !e.executable());
}

#[test]
fn push_of_exact_page_data() {
    let mut pool = FramePool::new(0x100, 0x140);
    let mut ms = MemorySet::new_bare(&mut pool).unwrap();
    let data = vec![7u8; 4096];
    let area = MapArea::new(0x20000, 0x21000, MapType::Framed, MAP_R);
    assert!(ms.push(&mut pool, area, Some(&data)));
    assert_eq!(read_page(&ms, &pool, 0x20), data);
}

#[test]
fn identical_regions_map_page_to_same_frame() {
    let mut pool = FramePool::new(0x100, 0x140);
    let mut ms = MemorySet::new_bare(&mut pool).unwrap();
    let area = MapArea::new(0x80000000, 0x80003000, MapType::Identical, MAP_R | MAP_X);
    assert!(ms.push(&mut pool, area, None));
    assert_eq!(ms.translate(0x80001).unwrap().ppn(), 0x80001);
}

#[test]
fn copy_of_address_space_has_same_bytes_on_other_frames() {
    let mut pool = FramePool::new(0x100, 0x180);
    let mut ms = MemorySet::new_bare(&mut pool).unwrap();
    assert!(ms.map_trampoline(&mut pool, TRAMPOLINE_PPN));
    let data: Vec<u8> = (0..6000u32).map(|i| (i % 13) as u8 + 1).collect();
    assert!(ms.push(&mut pool, MapArea::new(0x10000, 0x12000, MapType::Framed, MAP_R | MAP_U), Some(&data)));
    assert!(ms.push(&mut pool, MapArea::new(0x80000000, 0x80002000, MapType::Identical, MAP_R), None));
    let copy = MemorySet::from_existed_user(&ms, &mut pool, TRAMPOLINE_PPN).unwrap();
    for vpn in [0x10usize, 0x11] {
        let a = ms.translate(vpn).unwrap();
        let b = copy.translate(vpn).unwrap();
        assert_ne!(a.ppn(), b.ppn());
        assert_eq!(read_page(&ms, &pool, vpn), read_page(&copy, &pool, vpn));
    }
    for vpn in [0x80000usize, 0x80001] {
        assert_eq!(ms.translate(vpn).unwrap().ppn(), copy.translate(vpn).unwrap().ppn());
    }
    assert_eq!(copy.translate(TRAMPOLINE_VPN).unwrap().ppn(), TRAMPOLINE_PPN);
}

#[test]
fn removing_a_region_unmaps_and_frees_it() {
    let mut pool = FramePool::new(0x100, 0x105);
    let mut ms = MemorySet::new_bare(&mut pool).unwrap();
    assert!(ms.insert_framed_area(&mut pool, 0x5000, 0x7000, MAP_R | MAP_W));
    assert_eq!(pool.frame_alloc(), None);
    assert!(ms.translate(0x5).unwrap().is_valid());
    ms.remove_area_with_start_vpn(&mut pool, 0x5);
    assert!(!ms.translate(0x5).unwrap().is_valid());
    assert!(!ms.translate(0x6).unwrap().is_valid());
    assert!(pool.frame_alloc().is_some());
    assert!(pool.frame_alloc().is_some());
    assert_eq!(pool.frame_alloc(), None);
}

#[test]
fn push_fails_cleanly_when_frames_run_out() {
    let mut pool = FramePool::new(0x100, 0x105);
    let mut ms = MemorySet::new_bare(&mut pool).unwrap();
    // root is taken; two nodes and two of three data frames fit
    assert!(!ms.push(&mut pool, MapArea::new(0x5000, 0x8000, MapType::Framed, MAP_R), None));
    assert!(!ms.translate(0x5).map(|e| e.is_valid()).unwrap_or(false));
    // the data frames came back; the two page-table nodes stay with the table
    assert!(pool.frame_alloc().is_some());
    assert!(pool.frame_alloc().is_some());
    assert_eq!(pool.frame_alloc(), None);
}

#[test]
fn program_image_layout() {
    let mut pool = FramePool::new(0x100, 0x180);
    let code = vec![0x13u8, 0, 0, 0, 0x73, 0, 0, 0];
    let image = elf_image(0x10004, 0x10000, &code, 0x1800, 5);
    let (ms, sp, entry) = MemorySet::from_elf(&image, &mut pool, TRAMPOLINE_PPN).unwrap();
    assert_eq!(entry, 0x10004);
    let text = ms.translate(0x10).unwrap();
    assert!(text.readable() && !text.writeable() && text.executable());
    let page = read_page(&ms, &pool, 0x10);
    assert_eq!(&page[..8], &code[..]);
    assert!(page[8..].iter().all(|b| *b == 0));
    assert!(ms.translate(0x11).unwrap().is_valid());
    // guard page, then two stack pages
    assert!(!ms.translate(0x12).map(|e| e.is_valid()).unwrap_or(false));
    assert!(ms.translate(0x13).unwrap().writeable());
    assert!(ms.translate(0x14).unwrap().writeable());
    assert_eq!(sp, 0x15000);
    assert!(ms.translate(TRAP_CONTEXT_VPN).unwrap().is_valid());
    assert_eq!(ms.translate(TRAMPOLINE_VPN).unwrap().ppn(), TRAMPOLINE_PPN);
}

#[test]
fn bad_images_are_rejected() {
    let mut pool = FramePool::new(0x100, 0x180);
    assert_eq!(MemorySet::from_elf(&[1, 2, 3], &mut pool, TRAMPOLINE_PPN).err(), Some(LoadError::BadImage));
    let mut image = elf_image(0x1000, 0x1000, &[1, 2, 3], 0x10, 4);
    // program-header count beyond the image
    image[56] = 200;
    assert_eq!(MemorySet::from_elf(&image, &mut pool, TRAMPOLINE_PPN).err(), Some(LoadError::BadImage));
    // a segment over the trap-context page
    let high = elf_image(0x1000, (TRAP_CONTEXT_VPN as u64) << 12, &[1], 0x10, 4);
    assert_eq!(MemorySet::from_elf(&high, &mut pool, TRAMPOLINE_PPN).err(), Some(LoadError::BadSegment));
    for _ in 0..0x80 {
        assert!(pool.frame_alloc().is_some());
    }
    assert_eq!(pool.frame_alloc(), None);
}

#[test]
fn parsed_headers_come_from_the_image() {
    let image = elf_image(0x10004, 0x20000, &[9, 9], 0x30, 6);
    let p = parse_elf(&image).unwrap();
    assert_eq!(p.entry, 0x10004);
    assert_eq!(p.segments.len(), 1);
    let s = p.segments[0];
    assert!(s.is_load);
    assert_eq!((s.virtual_addr, s.mem_size, s.offset, s.file_size), (0x20000, 0x30, 120, 2));
    assert!(s.readable && s.writable && !s.executable);
    assert!(parse_elf(&[0u8; 64]).is_none());
}

#[test]
fn kernel_space_maps_sections_identically() {
    let layout = KernelLayout {
        stext: 0x80200000,
        etext: 0x80202000,
        srodata: 0x80202000,
        erodata: 0x80203000,
        sdata: 0x80203000,
        edata: 0x80204000,
        sbss_with_stack: 0x80204000,
        ebss: 0x80206000,
        ekernel: 0x80206000,
        memory_end: 0x80210000,
        strampoline_ppn: 0x80201,
    };
    let (_pool, ks) = init(0x80210, 0x80240, &layout).unwrap();
    let text = ks.translate(0x80201).unwrap();
    assert_eq!(text.ppn(), 0x80201);
    assert!(text.executable() && !text.writeable());
    let ro = ks.translate(0x80202).unwrap();
    assert!(ro.readable() && !ro.writeable() && !ro.executable());
    let data = ks.translate(0x80203).unwrap();
    assert!(data.writeable() && !data.executable());
    assert!(ks.translate(0x8020f).unwrap().writeable());
    assert_eq!(ks.translate(TRAMPOLINE_VPN).unwrap().ppn(), 0x80201);
    assert!(ks.translate(TRAMPOLINE_VPN).unwrap().executable());
    assert_ne!(ks.token(), 0);
}

#[test]
fn overlapping_kernel_sections_are_refused() {
    let layout = KernelLayout {
        stext: 0x80200000,
        etext: 0x80203000,
        srodata: 0x80202000,
        erodata: 0x80204000,
        sdata: 0x80204000,
        edata: 0x80205000,
        sbss_with_stack: 0x80205000,
        ebss: 0x80206000,
        ekernel: 0x80206000,
        memory_end: 0x80210000,
        strampoline_ppn: 0x80201,
    };
    let mut pool = FramePool::new(0x80210, 0x80240);
    assert!(MemorySet::new_kernel(&mut pool, &layout).is_none());
    for _ in 0..0x30 {
        assert!(pool.frame_alloc().is_some());
    }
    assert_eq!(pool.frame_alloc(), None);
}

#[test]
fn images_at_unaligned_addresses_are_read() {
    let image = elf_image(0x10004, 0x20000, &[9, 9], 0x30, 6);
    let mut shifted = vec![0u8];
    shifted.extend_from_slice(&image);
    let p = parse_elf(&shifted[1..]).unwrap();
    assert_eq!(p.entry, 0x10004);
    assert_eq!(p.segments[0].virtual_addr, 0x20000);
    let mut pool = FramePool::new(0x100, 0x140);
    let (_, _, entry) = MemorySet::from_elf(&shifted[1..], &mut pool, TRAMPOLINE_PPN).unwrap();
    assert_eq!(entry, 0x10004);
}

/// An ELF64 image with loadable segments `(vaddr, bytes, memsz, flags)`,
/// their bytes stored one after another past the headers.
fn elf_segments(entry: u64, segs: &[(u64, &[u8], u64, u32)]) -> Vec<u8> {
    let phoff = 64usize;
    let mut off = phoff + 56 * segs.len();
    let total: usize = off + segs.iter().map(|s| s.1.len()).sum::<usize>();
    let mut v = vec![0u8; total];
    put(&mut v, 0, &[0x7f, b'E', b'L', b'F', 2, 1, 1, 0]);
    put(&mut v, 16, &2u16.to_le_bytes());
    put(&mut v, 18, &0xf3u16.to_le_bytes());
    put(&mut v, 20, &1u32.to_le_bytes());
    put(&mut v, 24, &entry.to_le_bytes());
    put(&mut v, 32, &(phoff as u64).to_le_bytes());
    put(&mut v, 52, &64u16.to_le_bytes());
    put(&mut v, 54, &56u16.to_le_bytes());
    put(&mut v, 56, &(segs.len() as u16).to_le_bytes());
    put(&mut v, 58, &64u16.to_le_bytes());
    for (k, (vaddr, bytes, memsz, flags)) in segs.iter().enumerate() {
        let ph = phoff + 56 * k;
        put(&mut v, ph, &1u32.to_le_bytes());
        put(&mut v, ph + 4, &flags.to_le_bytes());
        put(&mut v, ph + 8, &(off as u64).to_le_bytes());
        put(&mut v, ph + 16, &vaddr.to_le_bytes());
        put(&mut v, ph + 24, &vaddr.to_le_bytes());
        put(&mut v, ph + 32, &(bytes.len() as u64).to_le_bytes());
        put(&mut v, ph + 40, &memsz.to_le_bytes());
        put(&mut v, ph + 48, &0x1000u64.to_le_bytes());
        put(&mut v, off, bytes);
        off += bytes.len();
    }
    v
}

#[test]
fn stack_goes_above_the_highest_segment() {
    let mut pool = FramePool::new(0x100, 0x180);
    let image = elf_segments(0x40000, &[(0x40000, &[1, 2, 3], 0x1000, 5), (0x10000, &[4, 5], 0x1000, 6)]);
    let (ms, sp, entry) = MemorySet::from_elf(&image, &mut pool, TRAMPOLINE_PPN).unwrap();
    assert_eq!(entry, 0x40000);
    assert_eq!(&read_page(&ms, &pool, 0x40)[..3], &[1, 2, 3]);
    assert_eq!(&read_page(&ms, &pool, 0x10)[..2], &[4, 5]);
    // guard page 0x41, stack 0x42..0x44
    assert!(!ms.translate(0x41).map(|e| e.is_valid()).unwrap_or(false));
    assert!(ms.translate(0x42).unwrap().writeable());
    assert!(ms.translate(0x43).unwrap().writeable());
    assert_eq!(sp, 0x44000);
}

#[test]
fn overlapping_segments_are_refused() {
    let mut pool = FramePool::new(0x100, 0x180);
    let image = elf_segments(0x10000, &[(0x10000, &[1], 0x2000, 5), (0x11000, &[2], 0x1000, 6)]);
    assert_eq!(MemorySet::from_elf(&image, &mut pool, TRAMPOLINE_PPN).err(), Some(LoadError::BadSegment));
}
