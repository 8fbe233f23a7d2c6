//! On-disk layout of the easy file system: the super block, disk inodes and
//! their block counts, and the positions of bits in a block bitmap.
use vstd::prelude::*;

verus! {

/// Bytes in a disk block.
pub const BLOCK_SZ: usize = 512;
/// Bits in one bitmap block.
pub const BLOCK_BITS: usize = 4096;
/// Magic number of a valid super block.
pub const EFS_MAGIC: u32 = 0x3b800001;
/// Data blocks reached from an inode's direct entries.
pub const INODE_DIRECT_COUNT: usize = 28;
/// Block numbers in one index block.
pub const INODE_INDIRECT1_COUNT: usize = 128;
/// Data blocks reached through the doubly indirect block.
pub const INODE_INDIRECT2_COUNT: usize = 16384;
/// Inner block numbers below this are direct.
pub const DIRECT_BOUND: usize = 28;
/// Inner block numbers below this go through the indirect block.
pub const INDIRECT1_BOUND: usize = 156;

/// The first block of the file system: sizes of its areas.
pub struct SuperBlock {
    pub magic: u32,
    pub total_blocks: u32,
    pub inode_bitmap_blocks: u32,
    pub inode_area_blocks: u32,
    pub data_bitmap_blocks: u32,
    pub data_area_blocks: u32,
}

impl SuperBlock {
    /// A block of zeros, as read from a blank disk.
    pub fn new() -> (r: Self)
        ensures
            r.magic == 0,
            r.total_blocks == 0,
    {
        SuperBlock {
            magic: 0,
            total_blocks: 0,
            inode_bitmap_blocks: 0,
            inode_area_blocks: 0,
            data_bitmap_blocks: 0,
            data_area_blocks: 0,
        }
    }

    /// Records the sizes of the areas and marks the block valid.
    pub fn initialize(
        &mut self,
        total_blocks: u32,
        inode_bitmap_blocks: u32,
        inode_area_blocks: u32,
        data_bitmap_blocks: u32,
        data_area_blocks: u32,
    )
        ensures
            final(self).magic == EFS_MAGIC,
            final(self).total_blocks == total_blocks,
            final(self).inode_bitmap_blocks == inode_bitmap_blocks,
            final(self).inode_area_blocks == inode_area_blocks,
            final(self).data_bitmap_blocks == data_bitmap_blocks,
            final(self).data_area_blocks == data_area_blocks,
    {
        *self = SuperBlock {
            magic: EFS_MAGIC,
            total_blocks,
            inode_bitmap_blocks,
            inode_area_blocks,
            data_bitmap_blocks,
            data_area_blocks,
        };
    }

    pub fn is_valid(&self) -> (r: bool)
        ensures
            r == (self.magic == EFS_MAGIC),
    {
        self.magic == EFS_MAGIC
    }
}

/// Kind of a disk inode.
#[derive(Clone, Copy, PartialEq, Eq, Structural, Debug)]
pub enum DiskInodeType {
    File,
    Directory,
}

/// Data blocks that `size` bytes take.
pub open spec fn spec_data_blocks(size: u32) -> int {
    (size as int + BLOCK_SZ as int - 1) / BLOCK_SZ as int
}

/// Blocks that `size` bytes take with the index blocks that reach them.
pub open spec fn spec_total_blocks(size: u32) -> int {
    let d = spec_data_blocks(size);
    d + (if d > INODE_DIRECT_COUNT { 1int } else { 0int }) + (if d > INDIRECT1_BOUND {
        1 + (d - INDIRECT1_BOUND + INODE_INDIRECT1_COUNT - 1) / INODE_INDIRECT1_COUNT as int
    } else {
        0int
    })
}

/// More bytes never take fewer blocks.
pub proof fn lemma_total_blocks_monotone(a: u32, b: u32)
    requires
        a <= b,
    ensures
        spec_data_blocks(a) <= spec_data_blocks(b),
        spec_total_blocks(a) <= spec_total_blocks(b),
        0 <= spec_total_blocks(a),
{
    let da = spec_data_blocks(a);
    let db = spec_data_blocks(b);
    assert(da <= db) by (nonlinear_arith)
        requires
            a <= b,
            da == (a as int + 511) / 512,
            db == (b as int + 511) / 512,
    ;
    if db > INDIRECT1_BOUND && da > INDIRECT1_BOUND {
        assert((da - 156 + 127) / 128 <= (db - 156 + 127) / 128) by (nonlinear_arith)
            requires
                da <= db,
        ;
    }
    assert(0 <= da) by (nonlinear_arith)
        requires
            da == (a as int + 511) / 512,
    ;
    if da > INDIRECT1_BOUND {
        assert(0 <= (da - 156 + 127) / 128) by (nonlinear_arith)
            requires
                da > 156,
        ;
    }
    if db > INDIRECT1_BOUND {
        assert(0 <= (db - 156 + 127) / 128) by (nonlinear_arith)
            requires
                db > 156,
        ;
    }
}

/// An inode on disk: size, block indexes and kind.
pub struct DiskInode {
    pub size: u32,
    pub direct: [u32; 28],
    pub indirect1: u32,
    pub indirect2: u32,
    pub type_: DiskInodeType,
}

impl DiskInode {
    /// An empty inode of the given kind.
    pub fn new(type_: DiskInodeType) -> (r: Self)
        ensures
            r.size == 0,
            r.indirect1 == 0,
            r.indirect2 == 0,
            forall|i: int| 0 <= i < 28 ==> r.direct@[i] == 0,
            r.type_ == type_,
    {
        DiskInode { size: 0, direct: [0; 28], indirect1: 0, indirect2: 0, type_ }
    }

    /// Empties the inode and sets its kind.
    pub fn initialize(&mut self, type_: DiskInodeType)
        ensures
            final(self).size == 0,
            final(self).indirect1 == 0,
            final(self).indirect2 == 0,
            forall|i: int| 0 <= i < 28 ==> final(self).direct@[i] == 0,
            final(self).type_ == type_,
    {
        self.size = 0;
        let mut i: usize = 0;
        while i < INODE_DIRECT_COUNT
            invariant
                i <= INODE_DIRECT_COUNT,
                self.size == 0,
                forall|k: int| 0 <= k < i ==> self.direct@[k] == 0,
            decreases INODE_DIRECT_COUNT - i,
        {
            self.direct[i] = 0;
            i = i + 1;
        }
        self.indirect1 = 0;
        self.indirect2 = 0;
        self.type_ = type_;
    }

    pub fn is_dir(&self) -> (r: bool)
        ensures
            r == (self.type_ == DiskInodeType::Directory),
    {
        self.type_ == DiskInodeType::Directory
    }

    pub fn is_file(&self) -> (r: bool)
        ensures
            r == (self.type_ == DiskInodeType::File),
    {
        self.type_ == DiskInodeType::File
    }

    /// Data blocks that the inode's bytes take.
    pub fn data_blocks(&self) -> (r: u32)
        ensures
            r == spec_data_blocks(self.size),
    {
        Self::_data_blocks(self.size)
    }

    fn _data_blocks(size: u32) -> (r: u32)
        ensures
            r == spec_data_blocks(size),
    {
        let r = size / 512 + if size % 512 == 0 { 0 } else { 1 };
        assert(r == (size as int + 511) / 512) by (nonlinear_arith)
            requires
                r == size as int / 512 + if size as int % 512 == 0 { 0int } else { 1int },
                size >= 0,
        ;
        r
    }

    /// Blocks that `size` bytes take, counting the index blocks: one
    /// indirect block past the direct entries, and past that the doubly
    /// indirect block with one index block per 128 data blocks.
    pub fn total_blocks(size: u32) -> (r: u32)
        ensures
            r == spec_total_blocks(size),
    {
        let data_blocks = Self::_data_blocks(size) as usize;
        assert(data_blocks <= 8388608) by (nonlinear_arith)
            requires
                data_blocks == (size as int + 511) / 512,
                size <= 0xffff_ffff,
        ;
        let mut total = data_blocks;
        if data_blocks > INODE_DIRECT_COUNT {
            total = total + 1;
        }
        if data_blocks > INDIRECT1_BOUND {
            total = total + 1;
            total = total + (data_blocks - INDIRECT1_BOUND + INODE_INDIRECT1_COUNT - 1) / INODE_INDIRECT1_COUNT;
        }
        total as u32
    }

    /// Blocks to allocate so the inode can grow to `new_size` bytes.
    pub fn blocks_num_needed(&self, new_size: u32) -> (r: u32)
        requires
            new_size >= self.size,
        ensures
            r == spec_total_blocks(new_size) - spec_total_blocks(self.size),
    {
        proof {
            lemma_total_blocks_monotone(self.size, new_size);
        }
        Self::total_blocks(new_size) - Self::total_blocks(self.size)
    }
}

/// Position of bit `bit` of a bitmap: (block, 64-bit word in the block,
/// bit in the word).
pub fn decomposition(bit: usize) -> (r: (usize, usize, usize))
    ensures
        r.0 == bit / BLOCK_BITS,
        r.1 == (bit % BLOCK_BITS) / 64,
        r.2 == (bit % BLOCK_BITS) % 64,
        r.0 * BLOCK_BITS + r.1 * 64 + r.2 == bit,
{
    let block_pos = bit / BLOCK_BITS;
    let bits64_pos = (bit % BLOCK_BITS) / 64;
    let inner_pos = (bit % BLOCK_BITS) % 64;
    assert(block_pos * 4096 + bits64_pos * 64 + inner_pos == bit) by (nonlinear_arith)
        requires
            block_pos == bit / 4096,
            bits64_pos == (bit % 4096) / 64,
            inner_pos == (bit % 4096) % 64,
    ;
    (block_pos, bits64_pos, inner_pos)
}

/// A bitmap over `blocks` consecutive blocks from `start_block_id`.
pub struct Bitmap {
    start_block_id: usize,
    blocks: usize,
}

impl Bitmap {
    pub closed spec fn start(&self) -> usize {
        self.start_block_id
    }

    pub closed spec fn len_blocks(&self) -> usize {
        self.blocks
    }

    pub fn new(start_block_id: usize, blocks: usize) -> (r: Self)
        ensures
            r.start() == start_block_id,
            r.len_blocks() == blocks,
    {
        Bitmap { start_block_id, blocks }
    }

    /// How many blocks the bitmap can hand out: one per bit.
    pub fn maximum(&self) -> (r: usize)
        requires
            self.len_blocks() * BLOCK_BITS <= usize::MAX,
        ensures
            r == self.len_blocks() * BLOCK_BITS,
    {
        self.blocks * BLOCK_BITS
    }
}

} // verus!
