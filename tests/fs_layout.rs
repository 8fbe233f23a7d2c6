use rcore_os::fs_layout::{decomposition, Bitmap, DiskInode, DiskInodeType, SuperBlock};

#[test]
fn super_block_is_valid_after_initialize() {
    let mut sb = SuperBlock::new();
    assert!(!sb.is_valid());
    sb.initialize(4096, 1, 8, 1, 4000);
    assert!(sb.is_valid());
    assert_eq!(sb.total_blocks, 4096);
    assert_eq!(sb.data_area_blocks, 4000);
}

#[test]
fn data_blocks_round_up() {
    let mut inode = DiskInode::new(DiskInodeType::File);
    assert_eq!(inode.data_blocks(), 0);
    inode.size = 1;
    assert_eq!(inode.data_blocks(), 1);
    inode.size = 512;
    assert_eq!(inode.data_blocks(), 1);
    inode.size = 513;
    assert_eq!(inode.data_blocks(), 2);
    inode.size = u32::MAX;
    assert_eq!(inode.data_blocks(), 8388608);
}

#[test]
fn total_blocks_count_index_blocks() {
    assert_eq!(DiskInode::total_blocks(0), 0);
    assert_eq!(DiskInode::total_blocks(28 * 512), 28);
    assert_eq!(DiskInode::total_blocks(29 * 512), 30);
    assert_eq!(DiskInode::total_blocks(156 * 512), 157);
    assert_eq!(DiskInode::total_blocks(157 * 512), 157 + 1 + 1 + 1);
    assert_eq!(DiskInode::total_blocks((156 + 128) * 512), 284 + 1 + 1 + 1);
    assert_eq!(DiskInode::total_blocks((156 + 129) * 512), 285 + 1 + 1 + 2);
}

#[test]
fn blocks_needed_to_grow() {
    let mut inode = DiskInode::new(DiskInodeType::File);
    inode.size = 28 * 512;
    assert_eq!(inode.blocks_num_needed(28 * 512), 0);
    assert_eq!(inode.blocks_num_needed(29 * 512), 2);
}

#[test]
fn inode_kinds() {
    let mut inode = DiskInode::new(DiskInodeType::File);
    assert!(inode.is_file());
    assert!(!inode.is_dir());
    inode.size = 100;
    inode.direct[3] = 7;
    inode.indirect1 = 9;
    inode.initialize(DiskInodeType::Directory);
    assert!(inode.is_dir());
    assert_eq!(inode.size, 0);
    assert_eq!(inode.direct[3], 0);
    assert_eq!(inode.indirect1, 0);
}

#[test]
fn bitmap_positions() {
    assert_eq!(decomposition(0), (0, 0, 0));
    assert_eq!(decomposition(65), (0, 1, 1));
    assert_eq!(decomposition(4096 + 130), (1, 2, 2));
    assert_eq!(Bitmap::new(1, 3).maximum(), 3 * 4096);
}
