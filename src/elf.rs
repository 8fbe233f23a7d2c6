//! Reading the program headers of an executable image.
//!
//! The headers are decoded by `xmas_elf`, which reads them in place and
//! indexes the image with the offsets the header gives. [`parse_elf`] first
//! checks those offsets against the image, so the decoder is only handed
//! images whose tables lie inside them.
use vstd::prelude::*;
use xmas_elf::program::Type;
use xmas_elf::ElfFile;

verus! {

/// One program header, as loading needs it.
#[derive(Clone, Copy, Debug)]
pub struct ProgramSegment {
    /// The segment is loadable (`PT_LOAD`).
    pub is_load: bool,
    pub virtual_addr: u64,
    pub mem_size: u64,
    pub offset: u64,
    pub file_size: u64,
    pub readable: bool,
    pub writable: bool,
    pub executable: bool,
}

/// The entry point and the program headers of an image.
pub struct ElfProgram {
    pub entry: u64,
    pub segments: Vec<ProgramSegment>,
}

/// What `xmas_elf` decodes from `data`: `None` where it rejects the header,
/// else the entry point and the program headers that its iterator yields.
pub uninterp spec fn elf_decoded(data: Seq<u8>) -> Option<(u64, Seq<ProgramSegment>)>;

/// Little-endian integer of `n` bytes at `at`.
pub open spec fn le(d: Seq<u8>, at: int, n: nat) -> int
    decreases n,
{
    if n == 0 {
        0
    } else {
        d[at] as int + 256 * le(d, at + 1, (n - 1) as nat)
    }
}

/// The ELF magic number opens the image.
pub open spec fn has_magic(d: Seq<u8>) -> bool {
    d.len() >= 16 && d[0] == 0x7f && d[1] == 0x45 && d[2] == 0x4c && d[3] == 0x46
}

/// The program-header table, where the header announces one, lies inside
/// the image, with entries large enough and aligned for the class.
pub open spec fn ph_table_in_bounds(d: Seq<u8>, off: int, entsize: int, count: int, min_size: int, align: int) -> bool {
    (count > 0 && off > 0 && entsize > 0) ==> (off + count * entsize <= d.len() && entsize
        >= min_size && off % align == 0 && entsize % align == 0)
}

/// The image can be handed to the decoder: either it is rejected before any
/// table is read, or its headers lie inside it.
pub open spec fn elf_tables_in_bounds(d: Seq<u8>) -> bool {
    has_magic(d) ==> {
        if d[4] == 2 {
            d.len() >= 64 && ph_table_in_bounds(d, le(d, 32, 8), le(d, 54, 2), le(d, 56, 2), 56, 8)
        } else if d[4] == 1 {
            d.len() >= 52 && ph_table_in_bounds(d, le(d, 28, 4), le(d, 42, 2), le(d, 44, 2), 32, 4)
        } else {
            true
        }
    }
}

fn read_le(d: &[u8], at: usize, n: usize) -> (r: u64)
    requires
        at + n <= d@.len(),
        n <= 8,
    ensures
        r == le(d@, at as int, n as nat),
    decreases n,
{
    let len = d.len();
    if n == 0 {
        0
    } else {
        let rest = read_le(d, at + 1, n - 1);
        proof {
            lemma_le_bound(d@, at as int + 1, (n - 1) as nat);
            lemma_pow_mono((n - 1) as nat, 7);
            reveal_with_fuel(pow256, 8);
        }
        d[at] as u64 + 256 * rest
    }
}

proof fn lemma_pow_mono(n: nat, m: nat)
    requires
        n <= m,
    ensures
        1 <= pow256(n) <= pow256(m),
    decreases m - n,
{
    lemma_pow_pos(n);
    if n < m {
        lemma_pow_mono(n, (m - 1) as nat);
        assert(pow256(m) == 256 * pow256((m - 1) as nat));
    }
}

proof fn lemma_pow_pos(n: nat)
    ensures
        pow256(n) >= 1,
    decreases n,
{
    if n > 0 {
        lemma_pow_pos((n - 1) as nat);
    }
}

spec fn pow256(n: nat) -> int
    decreases n,
{
    if n == 0 {
        1
    } else {
        256 * pow256((n - 1) as nat)
    }
}

proof fn lemma_le_bound(d: Seq<u8>, at: int, n: nat)
    requires
        0 <= at,
        at + n <= d.len(),
    ensures
        0 <= le(d, at, n) < pow256(n),
    decreases n,
{
    if n > 0 {
        lemma_le_bound(d, at + 1, (n - 1) as nat);
    }
}

/// Whether [`elf_tables_in_bounds`] holds of `data`.
pub fn check_elf_tables(data: &[u8]) -> (r: bool)
    ensures
        r == elf_tables_in_bounds(data@),
{
    if data.len() < 16 || data[0] != 0x7f || data[1] != 0x45 || data[2] != 0x4c || data[3] != 0x46 {
        return true;
    }
    let (hdr, off_at, off_n, ent_at, cnt_at, min_size, align): (usize, usize, usize, usize, usize, u64, u64) =
        if data[4] == 2 {
        (64, 32, 8, 54, 56, 56, 8)
    } else if data[4] == 1 {
        (52, 28, 4, 42, 44, 32, 4)
    } else {
        return true;
    };
    if data.len() < hdr {
        return false;
    }
    let off = read_le(data, off_at, off_n);
    let entsize = read_le(data, ent_at, 2);
    let count = read_le(data, cnt_at, 2);
    proof {
        lemma_le_bound(data@, ent_at as int, 2);
        lemma_le_bound(data@, cnt_at as int, 2);
        reveal_with_fuel(pow256, 3);
    }
    if count > 0 && off > 0 && entsize > 0 {
        assert(count * entsize < 0x1_0000_0000) by (nonlinear_arith)
            requires count < 65536, entsize < 65536;
        let table = count * entsize;
        if off > data.len() as u64 {
            return false;
        }
        if table > data.len() as u64 - off {
            return false;
        }
        entsize >= min_size && off % align == 0 && entsize % align == 0
    } else {
        true
    }
}

/// Relies on `xmas_elf::ElfFile::new` to decode the header, and on
/// `ElfFile::program_iter` with the `ProgramHeader` getters (`get_type`,
/// `virtual_addr`, `mem_size`, `offset`, `file_size`, `flags`) to read each
/// program header. The decoder reads the header structures in place and
/// asserts their alignment, so the bytes are first copied to a buffer
/// position that starts on an 8-byte boundary; the result depends on the
/// bytes alone. Fields are read in the host's byte order, which the bounds
/// check takes to be little-endian, as on RISC-V and x86.
#[verifier::external_body]
fn decode_elf(data: &[u8]) -> (r: Option<ElfProgram>)
    requires
        elf_tables_in_bounds(data@),
    ensures
        r is None <==> elf_decoded(data@) is None,
        r is Some ==> (r->0.entry, r->0.segments@) == elf_decoded(data@)->0,
{
    let mut buf = vec![0u8; data.len() + 8];
    let off = 8 - buf.as_ptr() as usize % 8;
    let img = &mut buf[off..off + data.len()];
    img.copy_from_slice(data);
    let elf = ElfFile::new(img).ok()?;
    let segments = elf.program_iter().map(|ph| ProgramSegment {
        is_load: ph.get_type() == Ok(Type::Load),
        virtual_addr: ph.virtual_addr(),
        mem_size: ph.mem_size(),
        offset: ph.offset(), file_size: ph.file_size(),
        readable: ph.flags().is_read(),
        writable: ph.flags().is_write(),
        executable: ph.flags().is_execute(),
    }).collect();
    Some(ElfProgram { entry: elf.header.pt2.entry_point(), segments })
}

/// The entry point and program headers of `data`; `None` when the header
/// tables do not lie inside the image or the decoder rejects it.
pub fn parse_elf(data: &[u8]) -> (r: Option<ElfProgram>)
    ensures
        !elf_tables_in_bounds(data@) ==> r is None,
        elf_tables_in_bounds(data@) ==> (r is None <==> elf_decoded(data@) is None),
        r is Some ==> (r->0.entry, r->0.segments@) == elf_decoded(data@)->0,
{
    if !check_elf_tables(data) {
        return None;
    }
    decode_elf(data)
}

} // verus!
