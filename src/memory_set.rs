//! Address spaces: regions of virtual pages composed over one page table.
use vstd::prelude::*;
use crate::page_table::{ppn_fits, with_valid, PageTable, PageTableEntry, VPN_LIMIT};
use crate::phys_memory::{page_with, zero_page, FramePool};
use crate::elf::{elf_decoded, elf_tables_in_bounds, parse_elf, ProgramSegment};

verus! {

/// Size of the SV39 virtual address space.
pub const VA_SPACE: u64 = 549755813888;
/// Page number of the trampoline page, the last page of the space.
pub const TRAMPOLINE_VPN: usize = 134217727;
/// Page number of the trap-context page, right below the trampoline.
pub const TRAP_CONTEXT_VPN: usize = 134217726;

/// Entry flags of the trampoline page: readable and executable.
pub const TRAMPOLINE_FLAGS: u8 = 10;

/// Region permission: readable.
pub const MAP_R: u8 = 2;
/// Region permission: writable.
pub const MAP_W: u8 = 4;
/// Region permission: executable.
pub const MAP_X: u8 = 8;
/// Region permission: accessible from user mode.
pub const MAP_U: u8 = 16;

/// The page holding virtual address `va` (addresses are taken modulo the
/// SV39 space).
pub open spec fn spec_va_floor(va: usize) -> usize {
    ((va as u64 % VA_SPACE) / 4096) as usize
}

/// The first page boundary at or above `va`, as a page number.
pub open spec fn spec_va_ceil(va: usize) -> usize {
    let m = va as u64 % VA_SPACE;
    if m == 0 {
        0
    } else {
        ((m - 1) / 4096 + 1) as usize
    }
}

pub fn va_floor(va: usize) -> (r: usize)
    ensures
        r == spec_va_floor(va),
        r < VPN_LIMIT,
{
    ((va as u64 % VA_SPACE) / 4096) as usize
}

pub fn va_ceil(va: usize) -> (r: usize)
    ensures
        r == spec_va_ceil(va),
        r <= VPN_LIMIT,
{
    let m = va as u64 % VA_SPACE;
    if m == 0 {
        0
    } else {
        ((m - 1) / 4096 + 1) as usize
    }
}

/// Page `k` of a region whose initial content is `data`: the bytes of
/// `data` that fall in the page, then zeros.
pub open spec fn data_page(data: Seq<u8>, k: int) -> Seq<u8> {
    Seq::new(
        crate::config::PAGE_SIZE as nat,
        |i: int|
            if k * 4096 + i < data.len() {
                data[k * 4096 + i]
            } else {
                0u8
            },
    )
}

/// The leaf entry of the trampoline page when its code is in frame `ppn`.
pub open spec fn trampoline_pte(ppn: usize) -> PageTableEntry {
    PageTableEntry::spec_new(ppn, with_valid(TRAMPOLINE_FLAGS))
}

/// The trampoline entry, where there was one, is still there.
pub open spec fn keeps_trampoline(before: Map<usize, PageTableEntry>, after: Map<usize, PageTableEntry>) -> bool {
    before.contains_key(TRAMPOLINE_VPN) ==> after.contains_key(TRAMPOLINE_VPN) && after[TRAMPOLINE_VPN]
        == before[TRAMPOLINE_VPN]
}

/// The initial content handed to [`MemorySet::push`]; none is empty.
pub open spec fn initial_data(data: Option<&[u8]>) -> Seq<u8> {
    match data {
        Some(d) => d@,
        None => Seq::empty(),
    }
}

/// Total number of pages of `areas`.
pub open spec fn pages_in(areas: Seq<MapArea>) -> int
    decreases areas.len(),
{
    if areas.len() == 0 {
        0
    } else {
        pages_in(areas.drop_last()) + (areas.last().end_vpn() - areas.last().start_vpn())
    }
}

/// A prefix of well-formed regions has no more pages than the whole.
pub proof fn lemma_pages_in_take(areas: Seq<MapArea>, k: int)
    requires
        0 <= k <= areas.len(),
        forall|i: int| 0 <= i < areas.len() ==> (#[trigger] areas[i]).start_vpn() <= areas[i].end_vpn(),
    ensures
        0 <= pages_in(areas.take(k)) <= pages_in(areas),
    decreases areas.len(),
{
    if k == areas.len() {
        assert(areas.take(k) =~= areas);
        if areas.len() > 0 {
            lemma_pages_in_take(areas.drop_last(), k - 1);
            assert(areas.drop_last().take(k - 1) =~= areas.drop_last());
        }
    } else {
        lemma_pages_in_take(areas.drop_last(), k);
        assert(areas.drop_last().take(k) =~= areas.take(k));
    }
}

/// The loadable segments among `segs`, in order.
pub open spec fn loads(segs: Seq<ProgramSegment>) -> Seq<ProgramSegment>
    decreases segs.len(),
{
    if segs.len() == 0 {
        Seq::empty()
    } else if segs.last().is_load {
        loads(segs.drop_last()).push(segs.last())
    } else {
        loads(segs.drop_last())
    }
}

/// First page of the region of segment `seg`.
pub open spec fn seg_start(seg: ProgramSegment) -> int {
    spec_va_floor(seg.virtual_addr as usize) as int
}

/// Page past the region of segment `seg`.
pub open spec fn seg_end(seg: ProgramSegment) -> int {
    spec_va_ceil((seg.virtual_addr + seg.mem_size) as usize) as int
}

/// The page ranges `[s1, e1)` and `[s2, e2)` share no page.
pub open spec fn apart(s1: int, e1: int, s2: int, e2: int) -> bool {
    e1 <= s2 || e2 <= s1 || e1 <= s1 || e2 <= s2
}

/// A loadable segment that loading accepts: its end address and its bytes
/// lie in range, its region below the trampoline, and its bytes fit in
/// its region.
pub open spec fn segment_ok(data: Seq<u8>, seg: ProgramSegment) -> bool {
    &&& seg.virtual_addr + seg.mem_size <= u64::MAX
    &&& seg.offset + seg.file_size <= data.len()
    &&& seg_start(seg) <= seg_end(seg) <= TRAMPOLINE_VPN
    &&& seg.file_size <= (seg_end(seg) - seg_start(seg)) * 4096
}

/// The highest end page of the loadable segments of `segs` (0 when none).
pub open spec fn max_load_end(segs: Seq<ProgramSegment>) -> int
    decreases segs.len(),
{
    if segs.len() == 0 {
        0
    } else if segs.last().is_load {
        let m = max_load_end(segs.drop_last());
        if seg_end(segs.last()) > m {
            seg_end(segs.last())
        } else {
            m
        }
    } else {
        max_load_end(segs.drop_last())
    }
}

/// The highest end page of the first `n` regions of `areas` (0 when none).
pub open spec fn max_end(areas: Seq<MapArea>, n: int) -> int
    decreases n,
{
    if n <= 0 {
        0
    } else {
        let m = max_end(areas, n - 1);
        if areas[n - 1].end_vpn() > m {
            areas[n - 1].end_vpn() as int
        } else {
            m
        }
    }
}

/// No region among the first `n` ends above their highest end, and that
/// end depends on those regions alone.
pub proof fn lemma_max_end(areas: Seq<MapArea>, other: Seq<MapArea>, n: int)
    requires
        0 <= n <= areas.len(),
        n <= other.len(),
        forall|j: int| 0 <= j < n ==> #[trigger] other[j] == areas[j],
    ensures
        max_end(areas, n) >= 0,
        forall|j: int| 0 <= j < n ==> (#[trigger] areas[j]).end_vpn() <= max_end(areas, n),
        max_end(other, n) == max_end(areas, n),
    decreases n,
{
    if n > 0 {
        lemma_max_end(areas, other, n - 1);
        assert(other[n - 1] == areas[n - 1]);
    }
}

/// Pages of the regions of the loadable segments of `segs`.
pub open spec fn load_pages(segs: Seq<ProgramSegment>) -> int
    decreases segs.len(),
{
    if segs.len() == 0 {
        0
    } else if segs.last().is_load {
        load_pages(segs.drop_last()) + (seg_end(segs.last()) - seg_start(segs.last()))
    } else {
        load_pages(segs.drop_last())
    }
}

/// An image layout that loading accepts: every loadable segment is
/// acceptable, no two of their regions overlap, and none overlaps the user
/// stack (two pages past a guard page above the last one) or the
/// trap-context page, which the stack stays below.
pub open spec fn elf_layout_ok(data: Seq<u8>, segs: Seq<ProgramSegment>) -> bool {
    let top = max_load_end(segs);
    &&& forall|i: int| 0 <= i < segs.len() && (#[trigger] segs[i]).is_load ==> {
        &&& segment_ok(data, segs[i])
        &&& apart(seg_start(segs[i]), seg_end(segs[i]), top + 1, top + 3)
        &&& apart(seg_start(segs[i]), seg_end(segs[i]), TRAP_CONTEXT_VPN as int, TRAMPOLINE_VPN as int)
    }
    &&& forall|i: int, j: int|
        0 <= i < j < segs.len() && (#[trigger] segs[i]).is_load && (#[trigger] segs[j]).is_load ==> apart(
            seg_start(segs[i]),
            seg_end(segs[i]),
            seg_start(segs[j]),
            seg_end(segs[j]),
        )
    &&& top + 3 <= TRAP_CONTEXT_VPN
}

/// Each loadable segment among the first `i` of `segs` is one of them.
pub proof fn lemma_loads_from(segs: Seq<ProgramSegment>, i: int, j: int) -> (k: int)
    requires
        0 <= i <= segs.len(),
        0 <= j < loads(segs.take(i)).len(),
    ensures
        0 <= k < i,
        segs[k].is_load,
        segs[k] == loads(segs.take(i))[j],
    decreases i,
{
    assert(segs.take(i).drop_last() =~= segs.take(i - 1));
    assert(segs.take(i).last() == segs[i - 1]);
    let l1 = loads(segs.take(i));
    let l0 = loads(segs.take(i - 1));
    assert(l1 == if segs[i - 1].is_load { l0.push(segs[i - 1]) } else { l0 });
    if segs[i - 1].is_load && j == l0.len() {
        i - 1
    } else {
        lemma_loads_from(segs, i - 1, j)
    }
}

/// A prefix of segments whose loadable regions are well ordered has no
/// more load pages than the whole.
pub proof fn lemma_load_pages_take(segs: Seq<ProgramSegment>, k: int)
    requires
        0 <= k <= segs.len(),
        forall|i: int| 0 <= i < segs.len() && (#[trigger] segs[i]).is_load ==> seg_start(segs[i]) <= seg_end(segs[i]),
    ensures
        0 <= load_pages(segs.take(k)) <= load_pages(segs),
    decreases segs.len(),
{
    if k == segs.len() {
        assert(segs.take(k) =~= segs);
        if segs.len() > 0 {
            lemma_load_pages_take(segs.drop_last(), k - 1);
            assert(segs.drop_last().take(k - 1) =~= segs.drop_last());
            if segs.last().is_load {
                assert(segs[segs.len() - 1] == segs.last());
            }
        } else {
            assert(load_pages(segs) == 0);
        }
    } else {
        lemma_load_pages_take(segs.drop_last(), k);
        assert(segs.drop_last().take(k) =~= segs.take(k));
        if segs.last().is_load {
            assert(segs[segs.len() - 1] == segs.last());
        }
    }
}

/// The permission of a user region made from segment `seg`.
pub open spec fn segment_perm(seg: ProgramSegment) -> u8 {
    (MAP_U + (if seg.readable { MAP_R } else { 0 }) + (if seg.writable { MAP_W } else { 0 }) + (
    if seg.executable { MAP_X } else { 0 })) as u8
}

/// The address space that loading builds from image `data`, content
/// aside: the trampoline; one framed user region per loadable segment, in
/// order, with the segment's pages and permission; past one unmapped guard
/// page above the highest of them, a two-page user stack whose top is
/// `user_sp`; and the trap-context page. `entry` is the image's entry point.
pub open spec fn is_image_space(ms: &MemorySet, data: Seq<u8>, user_sp: usize, entry: usize, strampoline_ppn: usize) -> bool {
    &&& elf_decoded(data) is Some
    &&& {
        let decoded = elf_decoded(data)->0;
        let segs = loads(decoded.1);
        let n = segs.len() as int;
        let areas = ms.area_seq();
        &&& ms.mapping().contains_key(TRAMPOLINE_VPN)
        &&& ms.mapping()[TRAMPOLINE_VPN] == trampoline_pte(strampoline_ppn)
        &&& entry == decoded.0 as usize
        &&& areas.len() == n + 2
        &&& forall|j: int| 0 <= j < n ==> {
            let a = #[trigger] areas[j];
            let seg = segs[j];
            &&& a.start_vpn() == spec_va_floor(seg.virtual_addr as usize)
            &&& a.end_vpn() == spec_va_ceil((seg.virtual_addr + seg.mem_size) as usize)
            &&& a.kind() == MapType::Framed
            &&& a.perm() == segment_perm(seg)
        }
        &&& areas[n].kind() == MapType::Framed
        &&& areas[n].perm() == MAP_R + MAP_W + MAP_U
        &&& areas[n].start_vpn() == max_end(areas, n) + 1
        &&& areas[n].end_vpn() == areas[n].start_vpn() + 2
        &&& !ms.mapping().contains_key((areas[n].start_vpn() - 1) as usize)
        &&& user_sp == (areas[n].end_vpn() as u64 * 4096) as usize
        &&& areas[n + 1].kind() == MapType::Framed
        &&& areas[n + 1].perm() == MAP_R + MAP_W
        &&& areas[n + 1].start_vpn() == TRAP_CONTEXT_VPN
        &&& areas[n + 1].end_vpn() == TRAMPOLINE_VPN
    }
}

/// Each page of the segment regions of the image space `ms` holds in
/// `pool` the segment's file bytes that fall in it, then zeros.
pub open spec fn image_content(ms: &MemorySet, pool: &FramePool, data: Seq<u8>) -> bool {
    let segs = loads((elf_decoded(data)->0).1);
    forall|j: int| 0 <= j < segs.len() ==> {
        let a = #[trigger] ms.area_seq()[j];
        let seg = segs[j];
        forall|v: usize| #[trigger] a.contains(v) ==> pool.memory@[a.frame_of(v)]
            == data_page(data.subrange(seg.offset as int, seg.offset + seg.file_size), v - a.start_vpn())
    }
}

/// Image content survives any change that keeps the space's frames as they were.
pub proof fn lemma_image_content_kept(ms: &MemorySet, before: &FramePool, after: &FramePool, data: Seq<u8>)
    requires
        ms.wf(),
        ms.owned_in(before),
        image_content(ms, before, data),
        forall|q: usize| #[trigger] before.live().contains(q) ==> after.memory@[q] == before.memory@[q],
        ms.area_seq().len() >= loads((elf_decoded(data)->0).1).len(),
        forall|j: int|
            0 <= j < loads((elf_decoded(data)->0).1).len() ==> (#[trigger] ms.area_seq()[j]).kind() == MapType::Framed,
    ensures
        image_content(ms, after, data),
{
    let segs = loads((elf_decoded(data)->0).1);
    assert forall|j: int| 0 <= j < segs.len() implies {
        let a = #[trigger] ms.area_seq()[j];
        let seg = segs[j];
        forall|v: usize| #[trigger] a.contains(v) ==> after.memory@[a.frame_of(v)]
            == data_page(data.subrange(seg.offset as int, seg.offset + seg.file_size), v - a.start_vpn())
    } by {
        let a = ms.area_seq()[j];
        assert forall|v: usize| #[trigger] a.contains(v) implies after.memory@[a.frame_of(v)] == before.memory@[a.frame_of(v)] by {
            assert(a.is_mapped());
            assert(a.kind() == MapType::Framed);
            assert(a.frame_list()[v - a.start_vpn()] == a.frame_of(v));
            assert(a.frames().contains(a.frame_of(v)));
            assert(ms.data_frames().contains(a.frame_of(v)));
            assert(before.live().contains(a.frame_of(v)));
        }
    }
}

/// Why an image could not be loaded.
#[derive(Clone, Copy, PartialEq, Eq, Structural, Debug)]
pub enum LoadError {
    /// The header tables lie outside the image, or the decoder rejects it.
    BadImage,
    /// A region overlaps another, leaves the user range, or its bytes lie
    /// outside the image.
    BadSegment,
    /// Physical frames ran out.
    OutOfFrames,
    /// No pid, and so no kernel stack slot, is left for a new task.
    NoTaskSlot,
}

/// How a region's pages reach physical memory.
#[derive(Clone, Copy, PartialEq, Eq, Structural, Debug)]
pub enum MapType {
    /// Page number equals frame number.
    Identical,
    /// Each page has a frame of its own, owned by the region.
    Framed,
}

/// A contiguous range of virtual pages with one mapping kind and permission.
pub struct MapArea {
    start: usize,
    end: usize,
    data_frames: Vec<usize>,
    map_type: MapType,
    map_perm: u8,
}

impl MapArea {
    pub closed spec fn start_vpn(&self) -> usize {
        self.start
    }

    pub closed spec fn end_vpn(&self) -> usize {
        self.end
    }

    pub closed spec fn kind(&self) -> MapType {
        self.map_type
    }

    pub closed spec fn perm(&self) -> u8 {
        self.map_perm
    }

    /// The data frames of a framed region, one per page, in page order.
    pub closed spec fn frame_list(&self) -> Seq<usize> {
        self.data_frames@
    }

    pub open spec fn contains(&self, v: usize) -> bool {
        self.start_vpn() <= v < self.end_vpn()
    }

    pub open spec fn frame_of(&self, v: usize) -> usize {
        if self.kind() == MapType::Identical {
            v
        } else {
            self.frame_list()[v - self.start_vpn()]
        }
    }

    /// The leaf entry that page `v` of this region has.
    pub open spec fn pte_of(&self, v: usize) -> PageTableEntry {
        PageTableEntry::spec_new(self.frame_of(v), with_valid(self.perm()))
    }

    /// The pages lie below the trampoline, and an identical region's page
    /// numbers fit in an entry as frame numbers.
    pub open spec fn range_ok(&self) -> bool {
        &&& self.start_vpn() <= self.end_vpn() <= TRAMPOLINE_VPN
        &&& self.kind() == MapType::Identical ==> ppn_fits(self.end_vpn())
    }

    /// Built, not mapped yet.
    pub open spec fn is_fresh(&self) -> bool {
        self.range_ok() && self.frame_list().len() == 0
    }

    /// Every page mapped; a framed region has one distinct frame per page.
    pub open spec fn is_mapped(&self) -> bool {
        &&& self.range_ok()
        &&& self.kind() == MapType::Framed ==> self.frame_list().len() == self.end_vpn()
            - self.start_vpn()
        &&& self.kind() == MapType::Identical ==> self.frame_list().len() == 0
        &&& self.frame_list().no_duplicates()
        &&& forall|i: int| 0 <= i < self.frame_list().len() ==> ppn_fits(#[trigger] self.frame_list()[i])
    }

    pub open spec fn frames(&self) -> Set<usize> {
        self.frame_list().to_set()
    }

    pub open spec fn same_shape(&self, o: &MapArea) -> bool {
        &&& self.start_vpn() == o.start_vpn()
        &&& self.end_vpn() == o.end_vpn()
        &&& self.kind() == o.kind()
        &&& self.perm() == o.perm()
    }

    /// The leaf entries of the first pages of this region, up to `upto`.
    pub open spec fn mapping_upto(&self, upto: int) -> Map<usize, PageTableEntry> {
        Map::new(|v: usize| self.start_vpn() <= v < upto, |v: usize| self.pte_of(v))
    }

    /// The leaf entries of all pages of this region.
    pub open spec fn area_mapping(&self) -> Map<usize, PageTableEntry> {
        self.mapping_upto(self.end_vpn() as int)
    }

    /// The region covering `[floor(start_va), ceil(end_va))`, not mapped yet.
    pub fn new(start_va: usize, end_va: usize, map_type: MapType, map_perm: u8) -> (r: Self)
        ensures
            r.start_vpn() == spec_va_floor(start_va),
            r.end_vpn() == spec_va_ceil(end_va),
            r.kind() == map_type,
            r.perm() == map_perm,
            r.frame_list().len() == 0,
    {
        MapArea {
            start: va_floor(start_va),
            end: va_ceil(end_va),
            data_frames: Vec::new(),
            map_type,
            map_perm,
        }
    }

    /// The region covering pages `[start_vpn, end_vpn)`, not mapped yet.
    pub fn from_vpn_range(start_vpn: usize, end_vpn: usize, map_type: MapType, map_perm: u8) -> (r: Self)
        ensures
            r.start_vpn() == start_vpn,
            r.end_vpn() == end_vpn,
            r.kind() == map_type,
            r.perm() == map_perm,
            r.frame_list().len() == 0,
    {
        MapArea { start: start_vpn, end: end_vpn, data_frames: Vec::new(), map_type, map_perm }
    }

    /// An unmapped region of the same pages, kind and permission.
    pub fn from_another(another: &MapArea) -> (r: Self)
        ensures
            r.same_shape(another),
            r.frame_list().len() == 0,
    {
        MapArea {
            start: another.start,
            end: another.end,
            data_frames: Vec::new(),
            map_type: another.map_type,
            map_perm: another.map_perm,
        }
    }

    pub fn start(&self) -> (r: usize)
        ensures
            r == self.start_vpn(),
    {
        self.start
    }

    pub fn end(&self) -> (r: usize)
        ensures
            r == self.end_vpn(),
    {
        self.end
    }

    pub fn map_type(&self) -> (r: MapType)
        ensures
            r == self.kind(),
    {
        self.map_type
    }

    /// Maps page `vpn`, the next one of this region, allocating its frame
    /// when the region is framed.
    fn map_one(&mut self, page_table: &mut PageTable, pool: &mut FramePool, vpn: usize) -> (r: bool)
        requires
            old(self).range_ok(),
            old(self).contains(vpn),
            old(self).kind() == MapType::Framed
                ==> old(self).frame_list().len() == vpn - old(self).start_vpn(),
            old(self).kind() == MapType::Identical ==> old(self).frame_list().len() == 0,
            forall|i: int|
                0 <= i < old(self).frame_list().len() ==> ppn_fits(#[trigger] old(self).frame_list()[i]),
            old(page_table).wf(),
            old(pool).wf(),
            !old(page_table).mapping().contains_key(vpn),
            old(page_table).frames().subset_of(old(pool).live()),
        ensures
            final(self).same_shape(old(self)),
            final(page_table).wf(),
            final(page_table).root() == old(page_table).root(),
            final(page_table).frame_list().subrange(0, old(page_table).frame_list().len() as int)
                == old(page_table).frame_list(),
            final(page_table).frame_list().len() >= old(page_table).frame_list().len(),
            final(page_table).frames().subset_of(final(pool).live()),
            old(pool).allocator@.available() >= 3 ==> r,
            r ==> final(pool).allocator@.available() >= old(pool).allocator@.available() - 3,
            r ==> final(page_table).mapping() == old(page_table).mapping().insert(vpn, final(self).pte_of(vpn)),
            r && old(self).kind() == MapType::Framed ==> {
                let p = final(self).frame_list().last();
                &&& final(self).frame_list() == old(self).frame_list().push(p)
                &&& !old(pool).live().contains(p)
                &&& !final(page_table).frames().contains(p)
                &&& ppn_fits(p)
                &&& final(pool).memory@[p] == zero_page()
                &&& old(pool).allocated_into(
                    final(pool),
                    final(page_table).frames().difference(old(page_table).frames()).insert(p),
                )
            },
            r && old(self).kind() == MapType::Identical ==> {
                &&& final(self).frame_list() == old(self).frame_list()
                &&& old(pool).allocated_into(
                    final(pool),
                    final(page_table).frames().difference(old(page_table).frames()),
                )
            },
            r ==> old(pool).changes_within(
                final(pool),
                final(page_table).frames().difference(old(page_table).frames()).union(final(self).frames()),
            ),
            !r ==> final(self).frame_list() == old(self).frame_list(),
            !r ==> final(page_table).mapping() == old(page_table).mapping(),
            !r ==> old(pool).allocated_into(
                final(pool),
                final(page_table).frames().difference(old(page_table).frames()),
            ),
    {
        match self.map_type {
            MapType::Identical => {
                let ok = page_table.map(pool, vpn, vpn, self.map_perm);
                proof {
                    assert(self.frames() =~= Set::empty());
                    assert(page_table.frames().difference(old(page_table).frames()).union(self.frames()) =~= page_table.frames().difference(old(page_table).frames()));
                }
                ok
            },
            MapType::Framed => {
                let ghost pool0 = *pool;
                let ghost pt0 = *page_table;
                match pool.frame_alloc() {
                    None => {
                        assert(page_table.frames().difference(old(page_table).frames()) =~= Set::empty());
                        false
                    },
                    Some(p) => {
                        assert(page_table.frames().subset_of(pool.live()));
                        let ghost pool1 = *pool;
                        let ok = page_table.map(pool, vpn, p, self.map_perm);
                        if ok {
                            self.data_frames.push(p);
                            proof {
                                let added = page_table.frames().difference(pt0.frames());
                                pool0.lemma_allocated_trans(&pool1, &*pool, set![p], added);
                                assert(set![p].union(added) =~= added.insert(p));
                                assert(!pt0.frames().contains(p));
                                assert(!added.contains(p));
                                assert(pool1.live().contains(p));
                                assert(pool.memory@[p] == pool1.memory@[p]);
                                pool0.lemma_changes_trans(&pool1, &*pool, set![p], added);
                                self.data_frames@.lemma_push_to_set_commute(p);
                                assert(self.data_frames@ == old(self).frame_list().push(p));
                                assert forall|q: usize| set![p].union(added).contains(q) implies page_table.frames().difference(old(page_table).frames()).union(self.frames()).contains(q) by {
                                    if q == p {
                                        assert(self.data_frames@[self.data_frames@.len() - 1] == p);
                                    }
                                }
                                assert(self.frame_list().last() == p);
                                assert(self.frame_of(vpn) == p);
                                assert(forall|i: int| 0 <= i < self.frame_list().len() ==> ppn_fits(#[trigger] self.frame_list()[i]));
                            }
                            true
                        } else {
                            assert(pool.live().contains(p));
                            pool.frame_dealloc(p);
                            proof {
                                let added = page_table.frames().difference(pt0.frames());
                                assert(!added.contains(p));
                                assert(pool.live() =~= pool0.live().union(added));
                                assert forall|q: usize| #[trigger] pool0.live().contains(q) implies pool.memory@[q] == pool0.memory@[q] by {
                                    assert(pool1.live().contains(q));
                                }
                            }
                            false
                        }
                    },
                }
            },
        }
    }

    /// Maps every page of a fresh region. When frames run out part way, the
    /// pages mapped so far are unmapped again and their frames given back;
    /// enough free frames for three per page guarantee success.
    pub fn map(&mut self, page_table: &mut PageTable, pool: &mut FramePool) -> (r: bool)
        requires
            old(self).is_fresh(),
            old(page_table).wf(),
            old(pool).wf(),
            old(page_table).frames().subset_of(old(pool).live()),
            forall|v: usize| #[trigger] old(self).contains(v) ==> !old(page_table).mapping().contains_key(v),
        ensures
            final(self).same_shape(old(self)),
            final(page_table).wf(),
            final(page_table).root() == old(page_table).root(),
            final(page_table).frame_list().subrange(0, old(page_table).frame_list().len() as int)
                == old(page_table).frame_list(),
            final(page_table).frame_list().len() >= old(page_table).frame_list().len(),
            final(page_table).frames().subset_of(final(pool).live()),
            old(pool).allocator@.available() >= 3 * (old(self).end_vpn() - old(self).start_vpn()) ==> r,
            r ==> final(pool).allocator@.available() >= old(pool).allocator@.available() - 3 * (
            old(self).end_vpn() - old(self).start_vpn()),
            r ==> final(self).is_mapped(),
            r ==> final(page_table).mapping() == old(page_table).mapping().union_prefer_right(
                final(self).area_mapping(),
            ),
            r ==> final(self).frames().disjoint(old(pool).live()),
            r ==> final(self).frames().disjoint(final(page_table).frames()),
            r ==> old(pool).changes_within(
                final(pool),
                final(page_table).frames().difference(old(page_table).frames()).union(final(self).frames()),
            ),
            r ==> forall|i: int|
                0 <= i < final(self).frame_list().len()
                    ==> final(pool).memory@[#[trigger] final(self).frame_list()[i]] == zero_page(),
            r ==> old(pool).allocated_into(
                final(pool),
                final(page_table).frames().difference(old(page_table).frames()).union(
                    final(self).frames(),
                ),
            ),
            !r ==> final(self).frame_list().len() == 0,
            !r ==> final(page_table).mapping() == old(page_table).mapping(),
            !r ==> old(pool).allocated_into(
                final(pool),
                final(page_table).frames().difference(old(page_table).frames()),
            ),
    {
        proof {
            old(pool).lemma_allocated_refl();
            assert(old(page_table).mapping().union_prefer_right(self.mapping_upto(self.start as int)) =~= old(page_table).mapping());
            assert(page_table.frames().difference(old(page_table).frames()).union(self.frames()) =~= Set::empty());
            assert(page_table.frame_list().subrange(0, page_table.frame_list().len() as int) =~= page_table.frame_list());
        }
        let mut vpn = self.start;
        while vpn < self.end
            invariant
                self.start <= vpn <= self.end,
                self.same_shape(old(self)),
                self.range_ok(),
                self.map_type == MapType::Framed ==> self.data_frames@.len() == vpn - self.start,
                self.map_type == MapType::Identical ==> self.data_frames@.len() == 0,
                self.data_frames@.no_duplicates(),
                forall|i: int| 0 <= i < self.data_frames@.len() ==> ppn_fits(#[trigger] self.data_frames@[i]),
                page_table.wf(),
                page_table.root() == old(page_table).root(),
                page_table.frame_list().subrange(0, old(page_table).frame_list().len() as int)
                    == old(page_table).frame_list(),
                page_table.frame_list().len() >= old(page_table).frame_list().len(),
                page_table.frames().subset_of(pool.live()),
                page_table.mapping() == old(page_table).mapping().union_prefer_right(self.mapping_upto(vpn as int)),
                forall|v: usize| #[trigger] old(self).contains(v) ==> !old(page_table).mapping().contains_key(v),
                self.frames().disjoint(old(pool).live()),
                self.frames().disjoint(page_table.frames()),
                forall|i: int| 0 <= i < self.data_frames@.len() ==> pool.memory@[#[trigger] self.data_frames@[i]] == zero_page(),
                old(pool).allocated_into(
                    &*pool,
                    page_table.frames().difference(old(page_table).frames()).union(self.frames()),
                ),
                pool.allocator@.available() >= old(pool).allocator@.available() - 3 * (vpn - self.start),
                old(pool).changes_within(
                    &*pool,
                    page_table.frames().difference(old(page_table).frames()).union(self.frames()),
                ),
            decreases self.end - vpn,
        {
            let ghost self0 = *self;
            let ghost pt0 = *page_table;
            let ghost pool0 = *pool;
            assert(old(self).contains(vpn));
            assert(!self.mapping_upto(vpn as int).contains_key(vpn));
            assert(!page_table.mapping().contains_key(vpn));
            let ok = self.map_one(page_table, pool, vpn);
            if !ok {
                proof {
                    let a = page_table.frames().difference(old(page_table).frames());
                    let a0 = pt0.frames().difference(old(page_table).frames());
                    let added = page_table.frames().difference(pt0.frames());
                    old(pool).lemma_allocated_trans(&pool0, &*pool, a0.union(self0.frames()), added);
                    assert(a0.union(self0.frames()).union(added) =~= a.union(self.frames())) by {
                        assert forall|q: usize| a.contains(q) implies a0.contains(q) || added.contains(q) by {
                            if !pt0.frames().contains(q) {
                            } else {
                            }
                        }
                        assert forall|q: usize| a0.contains(q) implies a.contains(q) by {
                            let k = choose|k: int| 0 <= k < pt0.frame_list().len() && pt0.frame_list()[k] == q;
                            assert(page_table.frame_list()[k] == q);
                        }
                    }
                    assert forall|v: usize| self.start <= v < self.start + (vpn - self.start) implies #[trigger] page_table.mapping().contains_key(v) by {
                        assert(self.mapping_upto(vpn as int).contains_key(v));
                    }
                    assert(self.frames().subset_of(pool.live()));
                }
                let ghost pt1 = *page_table;
                let ghost self1 = *self;
                self.unmap_pages(page_table, pool, vpn - self.start);
                proof {
                    assert(page_table.mapping() =~= old(page_table).mapping()) by {
                        assert forall|v: usize| page_table.mapping().contains_key(v) <==> old(page_table).mapping().contains_key(v) by {
                            if self.start <= v < vpn {
                                assert(old(self).contains(v));
                            }
                        }
                    }
                    let a = page_table.frames().difference(old(page_table).frames());
                    assert(page_table.frames() =~= pt1.frames());
                    assert(pool.live() =~= old(pool).live().union(a)) by {
                        assert forall|q: usize| self1.frames().contains(q) implies !a.contains(q) by {
                            assert(!pt1.frames().contains(q));
                        }
                    }
                    assert forall|q: usize| #[trigger] old(pool).live().contains(q) implies pool.memory@[q] == old(pool).memory@[q] by {
                    }
                }
                return false;
            }
            proof {
                let a = page_table.frames().difference(old(page_table).frames());
                let a0 = pt0.frames().difference(old(page_table).frames());
                let added_pt = page_table.frames().difference(pt0.frames());
                assert forall|q: usize| a.contains(q) <==> a0.contains(q) || added_pt.contains(q) by {
                    if a0.contains(q) {
                        let k = choose|k: int| 0 <= k < pt0.frame_list().len() && pt0.frame_list()[k] == q;
                        assert(page_table.frame_list()[k] == q);
                    }
                }
                if self.map_type == MapType::Framed {
                    let p = self.data_frames@.last();
                    old(pool).lemma_allocated_trans(&pool0, &*pool, a0.union(self0.frames()), added_pt.insert(p));
                    assert(self.data_frames@ == self0.data_frames@.push(p));
                    self0.data_frames@.lemma_push_to_set_commute(p);
                    assert(a0.union(self0.frames()).union(added_pt.insert(p)) =~= a.union(self.frames()));
                    assert(!self0.frames().contains(p)) by {
                        assert(pool0.live().contains(p) || !pool0.live().contains(p));
                    }
                    assert(self.data_frames@.no_duplicates()) by {
                        assert forall|x: int, y: int| 0 <= x < y < self.data_frames@.len() implies self.data_frames@[x] != self.data_frames@[y] by {
                            if y == self.data_frames@.len() - 1 {
                                assert(self0.frames().contains(self.data_frames@[x])) by {
                                    assert(self0.data_frames@[x] == self.data_frames@[x]);
                                }
                            }
                        }
                    }
                    assert forall|i: int| 0 <= i < self.data_frames@.len() implies pool.memory@[#[trigger] self.data_frames@[i]] == zero_page() by {
                        if i < self0.data_frames@.len() {
                            assert(self0.data_frames@[i] == self.data_frames@[i]);
                            assert(self0.frames().contains(self0.data_frames@[i]));
                            assert(pool0.live().contains(self.data_frames@[i]));
                        }
                    }
                    assert(self.frames().disjoint(page_table.frames())) by {
                        assert forall|q: usize| self.frames().contains(q) implies !page_table.frames().contains(q) by {
                            if q != p {
                                assert(self0.frames().contains(q));
                                assert(pool0.live().contains(q));
                                assert(!added_pt.contains(q));
                                assert(!pt0.frames().contains(q));
                            }
                        }
                    }
                } else {
                    old(pool).lemma_allocated_trans(&pool0, &*pool, a0.union(self0.frames()), added_pt);
                    assert(a0.union(self0.frames()).union(added_pt) =~= a.union(self.frames()));
                    assert(self.frames().disjoint(page_table.frames())) by {
                        assert(self.frames() =~= Set::empty());
                    }
                }
                assert(self.frames().disjoint(old(pool).live()));
                assert(page_table.mapping() =~= old(page_table).mapping().union_prefer_right(self.mapping_upto(vpn + 1)));
                let s_prev = pt0.frames().difference(old(page_table).frames()).union(self0.frames());
                let s_step = page_table.frames().difference(pt0.frames()).union(self.frames());
                old(pool).lemma_changes_trans(&pool0, &*pool, s_prev, s_step);
                assert forall|q: usize| s_prev.union(s_step).contains(q) implies a.union(self.frames()).contains(q) by {
                    if self0.frames().contains(q) {
                        let k = choose|k: int| 0 <= k < self0.data_frames@.len() && self0.data_frames@[k] == q;
                        assert(self.data_frames@[k] == q);
                    }
                }
            }
            vpn = vpn + 1;
        }
        true
    }

    /// Unmaps every page of a mapped region and gives its frames back.
    pub fn unmap(&mut self, page_table: &mut PageTable, pool: &mut FramePool)
        requires
            old(self).is_mapped(),
            old(self).frames().subset_of(old(pool).live()),
            old(page_table).wf(),
            old(pool).wf(),
            forall|v: usize| #[trigger] old(self).contains(v) ==> old(page_table).mapping().contains_key(v),
        ensures
            final(self).same_shape(old(self)),
            final(self).frame_list().len() == 0,
            final(page_table).wf(),
            final(page_table).root() == old(page_table).root(),
            final(page_table).frame_list() == old(page_table).frame_list(),
            final(page_table).mapping() == old(page_table).mapping().remove_keys(
                old(self).area_mapping().dom(),
            ),
            final(pool).wf(),
            final(pool).live() == old(pool).live().difference(old(self).frames()),
            final(pool).memory@ == old(pool).memory@,
            final(pool).allocator@.end == old(pool).allocator@.end,
    {
        let count = self.end - self.start;
        assert forall|v: usize| self.start <= v < self.start + count implies #[trigger] page_table.mapping().contains_key(v) by {
            assert(old(self).contains(v));
        }
        self.unmap_pages(page_table, pool, count);
        assert(old(self).area_mapping().dom() =~= Set::new(|v: usize| old(self).start_vpn() <= v < old(self).start_vpn() + count));
    }

    /// Copies `data` page by page into the frames of a freshly mapped framed
    /// region; the last page is filled from its start and the rest of the
    /// region stays zero.
    pub fn copy_data(&self, page_table: &PageTable, pool: &mut FramePool, data: &[u8])
        requires
            self.is_mapped(),
            self.kind() == MapType::Framed,
            page_table.wf(),
            forall|v: usize|
                #[trigger] self.contains(v) ==> page_table.mapping().contains_key(v)
                    && page_table.mapping()[v] == self.pte_of(v),
            old(pool).wf(),
            self.frames().subset_of(old(pool).live()),
            forall|i: int|
                0 <= i < self.frame_list().len() ==> old(pool).memory@[#[trigger] self.frame_list()[i]]
                    == zero_page(),
            data@.len() <= (self.end_vpn() - self.start_vpn()) * 4096,
        ensures
            final(pool).wf(),
            final(pool).allocator@ == old(pool).allocator@,
            final(pool).memory@.dom() == old(pool).memory@.dom(),
            forall|i: int|
                0 <= i < self.frame_list().len() ==> final(pool).memory@[#[trigger] self.frame_list()[i]]
                    == data_page(data@, i),
            forall|q: usize| !self.frames().contains(q) ==> #[trigger] final(pool).memory@[q] == old(pool).memory@[q],
    {
        let pages = self.end - self.start;
        let mut start: usize = 0;
        let mut k: usize = 0;
        while start < data.len()
            invariant
                self.is_mapped(),
                self.kind() == MapType::Framed,
                page_table.wf(),
                forall|v: usize|
                    #[trigger] self.contains(v) ==> page_table.mapping().contains_key(v)
                        && page_table.mapping()[v] == self.pte_of(v),
                pages == self.end - self.start,
                data@.len() <= pages * 4096,
                start <= data@.len(),
                k * 4096 <= data@.len() ==> start == k * 4096,
                k * 4096 > data@.len() ==> start == data@.len(),
                pool.wf(),
                pool.allocator@ == old(pool).allocator@,
                pool.memory@.dom() == old(pool).memory@.dom(),
                self.frames().subset_of(pool.live()),
                forall|i: int|
                    0 <= i < self.frame_list().len() && i < k ==> pool.memory@[#[trigger] self.frame_list()[i]]
                        == data_page(data@, i),
                forall|i: int|
                    0 <= i < self.frame_list().len() && i >= k ==> pool.memory@[#[trigger] self.frame_list()[i]]
                        == zero_page(),
                forall|q: usize| !self.frames().contains(q) ==> #[trigger] pool.memory@[q] == old(pool).memory@[q],
            decreases data@.len() - start,
        {
            assert(start == k * 4096);
            assert(k < pages) by (nonlinear_arith)
                requires start == k * 4096, start < data@.len(), data@.len() <= pages * 4096;
            let end = if data.len() - start < 4096 {
                data.len()
            } else {
                start + 4096
            };
            let vpn = self.start + k;
            assert(self.contains(vpn));
            let ghost fk = self.frame_list()[k as int];
            proof {
                PageTableEntry::lemma_new_fields(fk, with_valid(self.map_perm));
                assert(self.frame_of(vpn) == fk);
                assert(self.frames().contains(fk));
                pool.lemma_live_in_memory(fk);
            }
            let ppn = page_table.translate(vpn).unwrap().ppn();
            assert(ppn == fk);
            pool.memory.write_bytes(ppn, 0, data, start, end);
            proof {
                assert(page_with(zero_page(), 0, data@.subrange(start as int, end as int)) =~= data_page(data@, k as int));
                assert forall|i: int| 0 <= i < self.frame_list().len() && i != k implies #[trigger] self.frame_list()[i] != fk by {
                }
                assert forall|q: usize| !self.frames().contains(q) implies #[trigger] pool.memory@[q] == old(pool).memory@[q] by {
                    assert(q != fk);
                }
            }
            start = end;
            k = k + 1;
        }
        proof {
            assert forall|i: int| 0 <= i < self.frame_list().len() implies pool.memory@[#[trigger] self.frame_list()[i]] == data_page(data@, i) by {
                if i >= k {
                    assert(k * 4096 >= data@.len());
                    assert(i * 4096 >= k * 4096) by (nonlinear_arith)
                        requires i >= k;
                    assert(data_page(data@, i) =~= zero_page());
                }
            }
        }
    }

    /// Unmaps the first `count` pages of this region and gives their frames
    /// back; afterwards the region holds no frames.
    fn unmap_pages(&mut self, page_table: &mut PageTable, pool: &mut FramePool, count: usize)
        requires
            old(self).range_ok(),
            count <= old(self).end_vpn() - old(self).start_vpn(),
            old(self).kind() == MapType::Framed ==> old(self).frame_list().len() == count,
            old(self).kind() == MapType::Identical ==> old(self).frame_list().len() == 0,
            old(self).frame_list().no_duplicates(),
            old(self).frames().subset_of(old(pool).live()),
            old(page_table).wf(),
            old(pool).wf(),
            forall|v: usize|
                old(self).start_vpn() <= v < old(self).start_vpn() + count ==> #[trigger] old(
                    page_table,
                ).mapping().contains_key(v),
        ensures
            final(self).same_shape(old(self)),
            final(self).frame_list().len() == 0,
            final(page_table).wf(),
            final(page_table).root() == old(page_table).root(),
            final(page_table).frame_list() == old(page_table).frame_list(),
            final(page_table).mapping() == old(page_table).mapping().remove_keys(
                Set::new(|v: usize| old(self).start_vpn() <= v < old(self).start_vpn() + count),
            ),
            final(pool).wf(),
            final(pool).live() == old(pool).live().difference(old(self).frames()),
            final(pool).memory@ == old(pool).memory@,
            final(pool).allocator@.end == old(pool).allocator@.end,
    {
        let ghost frames0 = self.data_frames@;
        let mut i: usize = 0;
        while i < count
            invariant
                i <= count,
                count <= self.end - self.start,
                self.start + count <= TRAMPOLINE_VPN,
                self.data_frames@ == frames0,
                frames0 == old(self).frame_list(),
                self.same_shape(old(self)),
                self.map_type == MapType::Framed ==> frames0.len() == count,
                frames0.no_duplicates(),
                frames0.to_set().subset_of(old(pool).live()),
                page_table.wf(),
                page_table.root() == old(page_table).root(),
                page_table.frame_list() == old(page_table).frame_list(),
                page_table.mapping() == old(page_table).mapping().remove_keys(
                    Set::new(|v: usize| self.start <= v < self.start + i),
                ),
                forall|v: usize|
                    self.start <= v < self.start + count ==> #[trigger] old(page_table).mapping().contains_key(v),
                pool.wf(),
                pool.memory@ == old(pool).memory@,
                pool.allocator@.end == old(pool).allocator@.end,
                self.map_type == MapType::Framed ==> pool.live() == old(pool).live().difference(
                    frames0.subrange(0, i as int).to_set(),
                ),
                self.map_type == MapType::Identical ==> pool.live() == old(pool).live(),
            decreases count - i,
        {
            let vpn = self.start + i;
            assert(page_table.mapping().contains_key(vpn));
            page_table.unmap(vpn);
            if self.map_type == MapType::Framed {
                let p = self.data_frames[i];
                proof {
                    assert(frames0.to_set().contains(p)) by {
                        assert(frames0[i as int] == p);
                    }
                    assert(!frames0.subrange(0, i as int).to_set().contains(p)) by {
                        if frames0.subrange(0, i as int).to_set().contains(p) {
                            let k = choose|k: int| 0 <= k < i && frames0.subrange(0, i as int)[k] == p;
                            assert(frames0[k] == frames0[i as int]);
                        }
                    }
                }
                pool.frame_dealloc(p);
                proof {
                    assert(frames0.subrange(0, i + 1) =~= frames0.subrange(0, i as int).push(p));
                    frames0.subrange(0, i as int).lemma_push_to_set_commute(p);
                    assert(pool.live() =~= old(pool).live().difference(frames0.subrange(0, i + 1).to_set()));
                }
            }
            i = i + 1;
            proof {
                assert(page_table.mapping() =~= old(page_table).mapping().remove_keys(
                    Set::new(|v: usize| self.start <= v < self.start + i),
                ));
            }
        }
        self.data_frames = Vec::new();
        proof {
            if self.map_type == MapType::Framed {
                assert(frames0.subrange(0, count as int) =~= frames0);
            } else {
                assert(frames0.to_set() =~= Set::empty());
                assert(old(pool).live().difference(frames0.to_set()) =~= old(pool).live());
            }
        }
    }
}

} // verus!

verus! {

/// Where the kernel image's sections lie in physical memory; the kernel
/// address space maps each of them identically.
#[derive(Clone, Copy)]
pub struct KernelLayout {
    pub stext: usize,
    pub etext: usize,
    pub srodata: usize,
    pub erodata: usize,
    pub sdata: usize,
    pub edata: usize,
    pub sbss_with_stack: usize,
    pub ebss: usize,
    pub ekernel: usize,
    pub memory_end: usize,
    /// Frame of the trampoline code.
    pub strampoline_ppn: usize,
}

/// Section `i` of the kernel image, as (start, end) addresses: text,
/// read-only data, data, bss with the boot stack, and the rest of memory.
pub open spec fn kernel_section(layout: KernelLayout, i: int) -> (usize, usize) {
    if i == 0 {
        (layout.stext, layout.etext)
    } else if i == 1 {
        (layout.srodata, layout.erodata)
    } else if i == 2 {
        (layout.sdata, layout.edata)
    } else if i == 3 {
        (layout.sbss_with_stack, layout.ebss)
    } else {
        (layout.ekernel, layout.memory_end)
    }
}

/// Pages of the first `k` kernel sections.
pub open spec fn kernel_pages(layout: KernelLayout, k: int) -> int
    decreases k,
{
    if k <= 0 {
        0
    } else {
        kernel_pages(layout, k - 1) + (spec_va_ceil(kernel_section(layout, k - 1).1) - spec_va_floor(
            kernel_section(layout, k - 1).0,
        ))
    }
}

/// The kernel sections lie below the trampoline, their page numbers fit in
/// entries as frame numbers, and no two share a page.
pub open spec fn kernel_layout_ok(layout: KernelLayout) -> bool {
    &&& forall|i: int|
        0 <= i < 5 ==> {
            let (s, e) = #[trigger] kernel_section(layout, i);
            &&& spec_va_floor(s) <= spec_va_ceil(e) <= TRAMPOLINE_VPN
            &&& spec_va_ceil(e) <= (usize::MAX - 255) / 1024
        }
    &&& forall|i: int, j: int|
        0 <= i < j < 5 ==> apart(
            spec_va_floor((#[trigger] kernel_section(layout, i)).0) as int,
            spec_va_ceil(kernel_section(layout, i).1) as int,
            spec_va_floor((#[trigger] kernel_section(layout, j)).0) as int,
            spec_va_ceil(kernel_section(layout, j).1) as int,
        )
}

/// With well-ordered sections, more sections have more pages.
pub proof fn lemma_kernel_pages_mono(layout: KernelLayout, a: int, b: int)
    requires
        0 <= a <= b <= 5,
        kernel_layout_ok(layout),
    ensures
        0 <= kernel_pages(layout, a) <= kernel_pages(layout, b),
    decreases b,
{
    if a < b {
        lemma_kernel_pages_mono(layout, a, b - 1);
        let sec = kernel_section(layout, b - 1);
        assert(spec_va_floor(sec.0) <= spec_va_ceil(sec.1));
    } else if b > 0 {
        lemma_kernel_pages_mono(layout, 0, b - 1);
        let sec = kernel_section(layout, b - 1);
        assert(spec_va_floor(sec.0) <= spec_va_ceil(sec.1));
    }
}

/// An address space: its regions in insertion order and their page table.
pub struct MemorySet {
    page_table: PageTable,
    areas: Vec<MapArea>,
}

impl MemorySet {
    pub closed spec fn table(&self) -> PageTable {
        self.page_table
    }

    pub closed spec fn area_seq(&self) -> Seq<MapArea> {
        self.areas@
    }

    /// Page number to leaf entry, for every mapped page.
    pub open spec fn mapping(&self) -> Map<usize, PageTableEntry> {
        self.table().mapping()
    }

    /// Frames of the data of framed regions.
    pub open spec fn data_frames(&self) -> Set<usize> {
        Set::new(|p: usize| exists|i: int| 0 <= i < self.area_seq().len() && (#[trigger] self.area_seq()[i]).frames().contains(p))
    }

    /// Every frame this address space owns: page-table nodes and region data.
    pub open spec fn frames(&self) -> Set<usize> {
        self.table().frames().union(self.data_frames())
    }

    /// The page table holds exactly the regions' entries (and possibly the
    /// trampoline), regions do not overlap, and no frame has two owners.
    pub open spec fn wf(&self) -> bool {
        let areas = self.area_seq();
        let m = self.mapping();
        &&& self.table().wf()
        &&& forall|i: int| 0 <= i < areas.len() ==> (#[trigger] areas[i]).is_mapped()
        &&& forall|i: int, j: int, v: usize|
            0 <= i < areas.len() && 0 <= j < areas.len() && i != j && #[trigger] areas[i].contains(v)
                ==> !#[trigger] areas[j].contains(v)
        &&& forall|i: int, v: usize|
            0 <= i < areas.len() && #[trigger] areas[i].contains(v) ==> m.contains_key(v) && m[v]
                == areas[i].pte_of(v)
        &&& forall|v: usize|
            #[trigger] m.contains_key(v) && v != TRAMPOLINE_VPN ==> exists|i: int|
                0 <= i < areas.len() && #[trigger] areas[i].contains(v)
        &&& forall|i: int| 0 <= i < areas.len() ==> (#[trigger] areas[i]).frames().disjoint(self.table().frames())
        &&& forall|i: int, j: int|
            0 <= i < areas.len() && 0 <= j < areas.len() && i != j ==> (#[trigger] areas[i]).frames().disjoint(
                (#[trigger] areas[j]).frames(),
            )
    }

    /// Region `i` is the first one that starts at page `start_vpn`.
    pub open spec fn is_first_at(&self, i: int, start_vpn: usize) -> bool {
        &&& 0 <= i < self.area_seq().len()
        &&& self.area_seq()[i].start_vpn() == start_vpn
        &&& forall|j: int| 0 <= j < i ==> (#[trigger] self.area_seq()[j]).start_vpn() != start_vpn
    }

    /// Everything this address space owns is live in `pool`.
    pub open spec fn owned_in(&self, pool: &FramePool) -> bool {
        &&& pool.wf()
        &&& self.frames().subset_of(pool.live())
    }

    /// An address space with no mapping; `None` when no frame is left.
    pub fn new_bare(pool: &mut FramePool) -> (r: Option<Self>)
        requires
            old(pool).wf(),
        ensures
            r is None <==> old(pool).allocator@.available() == 0,
            r is None ==> old(pool).allocated_into(final(pool), Set::empty()),
            r is Some ==> {
                let ms = r->0;
                &&& ms.wf()
                &&& ms.owned_in(final(pool))
                &&& ms.mapping().is_empty()
                &&& ms.area_seq().len() == 0
                &&& old(pool).allocated_into(final(pool), ms.frames())
                &&& old(pool).changes_within(final(pool), ms.frames())
                &&& final(pool).allocator@.available() == old(pool).allocator@.available() - 1
            },
    {
        match PageTable::new(pool) {
            None => None,
            Some(page_table) => {
                let ms = MemorySet { page_table, areas: Vec::new() };
                assert(ms.data_frames() =~= Set::empty());
                assert(ms.frames() =~= ms.table().frames());
                Some(ms)
            },
        }
    }

    /// The `satp` value of this address space.
    pub fn token(&self) -> (r: usize)
        ensures
            r == crate::page_table::satp_of(self.table().root()),
    {
        self.page_table.token()
    }

    /// The leaf entry of `vpn`, valid or not.
    pub fn translate(&self, vpn: usize) -> (r: Option<PageTableEntry>)
        requires
            self.wf(),
        ensures
            r == self.table().entry(vpn),
            r is Some && r->0.spec_is_valid() <==> self.mapping().contains_key(vpn),
            self.mapping().contains_key(vpn) ==> r == Some(self.mapping()[vpn]),
    {
        self.page_table.translate(vpn)
    }

    /// Maps every page of a fresh region, copies the initial data into it,
    /// and appends it to the regions. Fails only when frames run out, and
    /// then leaves the mapping and the regions as they were.
    #[verifier::rlimit(60)]
    pub fn push(&mut self, pool: &mut FramePool, map_area: MapArea, data: Option<&[u8]>) -> (r: bool)
        requires
            old(self).wf(),
            old(self).owned_in(old(pool)),
            map_area.is_fresh(),
            forall|v: usize| #[trigger] map_area.contains(v) ==> !old(self).mapping().contains_key(v),
            data is Some ==> map_area.kind() == MapType::Framed,
            initial_data(data).len() <= (map_area.end_vpn() - map_area.start_vpn()) * 4096,
        ensures
            final(self).wf(),
            final(self).owned_in(final(pool)),
            final(self).table().root() == old(self).table().root(),
            old(pool).allocator@.available() >= 3 * (map_area.end_vpn() - map_area.start_vpn()) ==> r,
            r ==> {
                let a = final(self).area_seq().last();
                &&& final(self).area_seq() == old(self).area_seq().push(a)
                &&& a.same_shape(&map_area)
                &&& final(self).mapping() == old(self).mapping().union_prefer_right(a.area_mapping())
                &&& a.frames().disjoint(old(pool).live())
                &&& final(self).data_frames() == old(self).data_frames().union(a.frames())
                &&& forall|v: usize|
                    #[trigger] a.contains(v) && a.kind() == MapType::Framed ==> final(pool).memory@[a.frame_of(v)]
                        == data_page(initial_data(data), v - a.start_vpn())
            },
            !r ==> final(self).area_seq() == old(self).area_seq(),
            !r ==> final(self).mapping() == old(self).mapping(),
            !r ==> final(self).data_frames() == old(self).data_frames(),
            old(pool).allocated_into(final(pool), final(self).frames().difference(old(self).frames())),
            old(self).frames().subset_of(final(self).frames()),
            r ==> final(pool).allocator@.available() >= old(pool).allocator@.available() - 3 * (
            map_area.end_vpn() - map_area.start_vpn()),
            keeps_trampoline(old(self).mapping(), final(self).mapping()),
            r ==> old(pool).changes_within(final(pool), final(self).frames().difference(old(self).frames())),
    {
        let ghost orig = map_area;
        let mut map_area = map_area;
        let ghost pt0 = self.page_table;
        assert(self.table().frames().subset_of(pool.live()));
        let ok = map_area.map(&mut self.page_table, pool);
        let ghost pool1 = *pool;
        let ghost added_pt = self.table().frames().difference(pt0.frames());
        proof {
            assert forall|q: usize| pt0.frames().contains(q) implies self.table().frames().contains(q) by {
                let k = choose|k: int| 0 <= k < pt0.frame_list().len() && pt0.frame_list()[k] == q;
                assert(self.table().frame_list()[k] == q);
            }
        }
        if !ok {
            proof {
                assert(self.data_frames() =~= old(self).data_frames());
                assert(self.frames().difference(old(self).frames()) =~= added_pt) by {
                    assert forall|q: usize| added_pt.contains(q) implies !old(self).data_frames().contains(q) by {
                        if old(self).data_frames().contains(q) {
                            assert(old(pool).live().contains(q));
                        }
                    }
                }
                let areas = self.area_seq();
                assert forall|i: int| 0 <= i < areas.len() implies (#[trigger] areas[i]).frames().disjoint(self.table().frames()) by {
                    assert forall|q: usize| areas[i].frames().contains(q) implies !self.table().frames().contains(q) by {
                        assert(old(self).data_frames().contains(q));
                        assert(old(pool).live().contains(q));
                    }
                }
                assert forall|i: int, v: usize| 0 <= i < areas.len() && #[trigger] areas[i].contains(v) implies self.mapping().contains_key(v) && self.mapping()[v] == areas[i].pte_of(v) by {
                    assert(old(self).mapping().contains_key(v));
                }
                assert forall|v: usize| #[trigger] self.mapping().contains_key(v) && v != TRAMPOLINE_VPN implies exists|i: int| 0 <= i < areas.len() && #[trigger] areas[i].contains(v) by {
                    assert(old(self).mapping().contains_key(v));
                }
            }
            return false;
        }
        if let Some(d) = data {
            proof {
                assert forall|v: usize| #[trigger] map_area.contains(v) implies self.page_table.mapping().contains_key(v) && self.page_table.mapping()[v] == map_area.pte_of(v) by {
                }
                assert(map_area.frames().subset_of(pool.live()));
            }
            map_area.copy_data(&self.page_table, pool, d);
        }
        self.areas.push(map_area);
        proof {
            let a = map_area;
            let areas = self.area_seq();
            let n = old(self).area_seq().len() as int;
            assert(areas[n] == a);
            assert forall|i: int| 0 <= i < n implies areas[i] == old(self).area_seq()[i] by {}
            // memory relation across the data copy
            assert(old(pool).allocated_into(&pool1, added_pt.union(a.frames())));
            assert(old(pool).allocated_into(&*pool, added_pt.union(a.frames()))) by {
                assert forall|q: usize| #[trigger] old(pool).live().contains(q) implies pool.memory@[q] == old(pool).memory@[q] by {
                    if a.frames().contains(q) {
                        assert(false);
                    }
                    assert(pool.memory@[q] == pool1.memory@[q]);
                }
            }
            assert(self.data_frames() =~= old(self).data_frames().union(a.frames())) by {
                assert forall|q: usize| self.data_frames().contains(q) <==> old(self).data_frames().contains(q) || a.frames().contains(q) by {
                    if self.data_frames().contains(q) {
                        let i = choose|i: int| 0 <= i < areas.len() && (#[trigger] areas[i]).frames().contains(q);
                        if i < n {
                            assert(old(self).area_seq()[i].frames().contains(q));
                        }
                    }
                    if old(self).data_frames().contains(q) {
                        let i = choose|i: int| 0 <= i < n && (#[trigger] old(self).area_seq()[i]).frames().contains(q);
                        assert(areas[i].frames().contains(q));
                    }
                    if a.frames().contains(q) {
                        assert(areas[n].frames().contains(q));
                    }
                }
            }
            assert(old(pool).changes_within(&*pool, added_pt.union(a.frames()))) by {
                assert forall|q: usize| #[trigger] old(pool).memory@.contains_key(q) && !added_pt.union(a.frames()).contains(q)
                    implies pool.memory@[q] == old(pool).memory@[q] by {
                    assert(pool.memory@[q] == pool1.memory@[q]);
                }
            }
            assert(self.frames().difference(old(self).frames()) =~= added_pt.union(a.frames())) by {
                assert forall|q: usize| added_pt.contains(q) implies !old(self).data_frames().contains(q) by {
                    if old(self).data_frames().contains(q) {
                        assert(old(pool).live().contains(q));
                    }
                }
                assert forall|q: usize| a.frames().contains(q) implies !old(self).frames().contains(q) by {
                    assert(!old(pool).live().contains(q));
                }
            }
            // invariant of the address space
            assert forall|i: int| 0 <= i < areas.len() implies (#[trigger] areas[i]).is_mapped() by {
                if i < n {
                    assert(areas[i] == old(self).area_seq()[i]);
                }
            }
            assert forall|i: int, j: int, v: usize|
                0 <= i < areas.len() && 0 <= j < areas.len() && i != j && #[trigger] areas[i].contains(v)
                implies !#[trigger] areas[j].contains(v) by {
                if areas[j].contains(v) {
                    if i == n {
                        assert(orig.contains(v));
                        assert(areas[j] == old(self).area_seq()[j]);
                        assert(old(self).area_seq()[j].contains(v));
                        assert(old(self).mapping().contains_key(v));
                    } else if j == n {
                        assert(orig.contains(v));
                        assert(areas[i] == old(self).area_seq()[i]);
                        assert(old(self).area_seq()[i].contains(v));
                        assert(old(self).mapping().contains_key(v));
                    } else {
                        assert(areas[i] == old(self).area_seq()[i]);
                        assert(areas[j] == old(self).area_seq()[j]);
                        assert(old(self).area_seq()[i].contains(v));
                        assert(old(self).area_seq()[j].contains(v));
                    }
                }
            }
            assert forall|i: int, v: usize| 0 <= i < areas.len() && #[trigger] areas[i].contains(v) implies self.mapping().contains_key(v) && self.mapping()[v] == areas[i].pte_of(v) by {
                if i < n {
                    assert(old(self).area_seq()[i].contains(v));
                    assert(old(self).mapping().contains_key(v));
                    assert(!a.contains(v));
                }
            }
            assert forall|v: usize| #[trigger] self.mapping().contains_key(v) && v != TRAMPOLINE_VPN implies exists|i: int| 0 <= i < areas.len() && #[trigger] areas[i].contains(v) by {
                if a.contains(v) {
                    assert(areas[n].contains(v));
                } else {
                    assert(old(self).mapping().contains_key(v));
                    let i = choose|i: int| 0 <= i < n && #[trigger] old(self).area_seq()[i].contains(v);
                    assert(areas[i].contains(v));
                }
            }
            assert forall|i: int| 0 <= i < areas.len() implies (#[trigger] areas[i]).frames().disjoint(self.table().frames()) by {
                if i < n {
                    assert forall|q: usize| areas[i].frames().contains(q) implies !self.table().frames().contains(q) by {
                        assert(old(self).area_seq()[i].frames().contains(q));
                        assert(old(self).data_frames().contains(q));
                        assert(old(pool).live().contains(q));
                        if !pt0.frames().contains(q) {
                            assert(!added_pt.contains(q));
                        }
                    }
                }
            }
            assert forall|i: int, j: int|
                0 <= i < areas.len() && 0 <= j < areas.len() && i != j implies (#[trigger] areas[i]).frames().disjoint((#[trigger] areas[j]).frames()) by {
                if i == n {
                    assert forall|q: usize| areas[j].frames().contains(q) implies !a.frames().contains(q) by {
                        assert(old(self).area_seq()[j].frames().contains(q));
                        assert(old(self).data_frames().contains(q));
                    }
                } else if j == n {
                    assert forall|q: usize| areas[i].frames().contains(q) implies !a.frames().contains(q) by {
                        assert(old(self).area_seq()[i].frames().contains(q));
                        assert(old(self).data_frames().contains(q));
                    }
                } else {
                    assert(areas[i] == old(self).area_seq()[i]);
                    assert(areas[j] == old(self).area_seq()[j]);
                }
            }
            assert(self.mapping() =~= old(self).mapping().union_prefer_right(a.area_mapping()));
            assert(areas =~= old(self).area_seq().push(a));
            assert forall|v: usize| #[trigger] a.contains(v) && a.kind() == MapType::Framed implies pool.memory@[a.frame_of(v)] == data_page(initial_data(data), v - a.start_vpn()) by {
                let i = v - a.start_vpn();
                assert(a.frame_of(v) == a.frame_list()[i]);
                if data is None {
                    assert(data_page(initial_data(data), i) =~= zero_page());
                }
            }
            assert(!a.contains(TRAMPOLINE_VPN));
        }
        true
    }

    /// Removes region `idx`: unmaps its pages and gives its frames back.
    #[verifier::rlimit(60)]
    fn remove_area_at(&mut self, pool: &mut FramePool, idx: usize)
        requires
            old(self).wf(),
            old(self).owned_in(old(pool)),
            idx < old(self).area_seq().len(),
        ensures
            final(self).wf(),
            final(self).owned_in(final(pool)),
            final(self).table().root() == old(self).table().root(),
            final(self).table().frames() == old(self).table().frames(),
            final(self).area_seq() == old(self).area_seq().remove(idx as int),
            final(self).mapping() == old(self).mapping().remove_keys(
                old(self).area_seq()[idx as int].area_mapping().dom(),
            ),
            final(self).data_frames() == old(self).data_frames().difference(
                old(self).area_seq()[idx as int].frames(),
            ),
            final(pool).live() == old(pool).live().difference(old(self).area_seq()[idx as int].frames()),
            final(pool).memory@ == old(pool).memory@,
            final(pool).allocator@.end == old(pool).allocator@.end,
    {
        let ghost a0 = self.areas@[idx as int];
        let ghost old_areas = self.areas@;
        let mut area = self.areas.remove(idx);
        proof {
            assert(old(self).data_frames().contains(a0.frame_list()[0]) || a0.frame_list().len() == 0 || true);
            assert(a0.frames().subset_of(old(pool).live())) by {
                assert forall|q: usize| a0.frames().contains(q) implies old(pool).live().contains(q) by {
                    assert(old_areas[idx as int].frames().contains(q));
                    assert(old(self).data_frames().contains(q));
                }
            }
            assert forall|v: usize| #[trigger] a0.contains(v) implies self.page_table.mapping().contains_key(v) by {
                assert(old_areas[idx as int].contains(v));
            }
        }
        area.unmap(&mut self.page_table, pool);
        proof {
            let areas = self.area_seq();
            let n = areas.len();
            let removed = a0.area_mapping().dom();
            assert forall|i: int| 0 <= i < n implies #[trigger] areas[i] == old_areas[if i < idx { i } else { i + 1 }] by {}
            assert forall|i: int| 0 <= i < n implies (#[trigger] areas[i]).is_mapped() by {
                assert(areas[i] == old_areas[if i < idx { i } else { i + 1 }]);
            }
            assert forall|i: int, j: int, v: usize|
                0 <= i < n && 0 <= j < n && i != j && #[trigger] areas[i].contains(v)
                implies !#[trigger] areas[j].contains(v) by {
                let oi = if i < idx { i } else { i + 1 };
                let oj = if j < idx { j } else { j + 1 };
                assert(areas[i] == old_areas[oi]);
                assert(areas[j] == old_areas[oj]);
                assert(old_areas[oi].contains(v));
                if areas[j].contains(v) {
                    assert(old_areas[oj].contains(v));
                }
            }
            assert forall|i: int, v: usize| 0 <= i < n && #[trigger] areas[i].contains(v) implies self.mapping().contains_key(v) && self.mapping()[v] == areas[i].pte_of(v) by {
                let oi = if i < idx { i } else { i + 1 };
                assert(areas[i] == old_areas[oi]);
                assert(old_areas[oi].contains(v));
                assert(!old_areas[idx as int].contains(v));
                assert(!removed.contains(v));
            }
            assert forall|v: usize| #[trigger] self.mapping().contains_key(v) && v != TRAMPOLINE_VPN implies exists|i: int| 0 <= i < n && #[trigger] areas[i].contains(v) by {
                assert(old(self).mapping().contains_key(v));
                assert(!removed.contains(v));
                let oi = choose|oi: int| 0 <= oi < old_areas.len() && #[trigger] old_areas[oi].contains(v);
                assert(oi != idx);
                let i = if oi < idx { oi } else { oi - 1 };
                assert(areas[i] == old_areas[oi]);
                assert(areas[i].contains(v));
            }
            assert forall|i: int| 0 <= i < n implies (#[trigger] areas[i]).frames().disjoint(self.table().frames()) by {
                let oi = if i < idx { i } else { i + 1 };
                assert(areas[i] == old_areas[oi]);
                assert(self.table().frames() =~= old(self).table().frames());
            }
            assert forall|i: int, j: int|
                0 <= i < n && 0 <= j < n && i != j implies (#[trigger] areas[i]).frames().disjoint((#[trigger] areas[j]).frames()) by {
                let oi = if i < idx { i } else { i + 1 };
                let oj = if j < idx { j } else { j + 1 };
                assert(areas[i] == old_areas[oi]);
                assert(areas[j] == old_areas[oj]);
            }
            assert(self.data_frames() =~= old(self).data_frames().difference(a0.frames())) by {
                assert forall|q: usize| self.data_frames().contains(q) <==> old(self).data_frames().contains(q) && !a0.frames().contains(q) by {
                    if self.data_frames().contains(q) {
                        let i = choose|i: int| 0 <= i < n && (#[trigger] areas[i]).frames().contains(q);
                        let oi = if i < idx { i } else { i + 1 };
                        assert(areas[i] == old_areas[oi]);
                        assert(old_areas[oi].frames().contains(q));
                        assert(oi != idx);
                    }
                    if old(self).data_frames().contains(q) && !a0.frames().contains(q) {
                        let oi = choose|oi: int| 0 <= oi < old_areas.len() && (#[trigger] old_areas[oi]).frames().contains(q);
                        assert(oi != idx);
                        let i = if oi < idx { oi } else { oi - 1 };
                        assert(areas[i] == old_areas[oi]);
                    }
                }
            }
            assert(self.table().frames() =~= old(self).table().frames());
            assert(self.mapping() =~= old(self).mapping().remove_keys(removed));
            assert forall|q: usize| self.table().frames().contains(q) implies !a0.frames().contains(q) by {
                assert(old_areas[idx as int].frames().disjoint(old(self).table().frames()));
            }
        }
    }

    /// Removes the region that starts at page `start_vpn`, if there is one:
    /// its pages are unmapped and its frames given back.
    pub fn remove_area_with_start_vpn(&mut self, pool: &mut FramePool, start_vpn: usize)
        requires
            old(self).wf(),
            old(self).owned_in(old(pool)),
        ensures
            final(self).wf(),
            final(self).owned_in(final(pool)),
            final(self).table().root() == old(self).table().root(),
            final(self).frames().subset_of(old(self).frames()),
            final(pool).live().subset_of(old(pool).live()),
            old(pool).live().difference(old(self).frames()).subset_of(final(pool).live()),
            final(pool).memory@ == old(pool).memory@,
            final(self).mapping().dom().subset_of(old(self).mapping().dom()),
            forall|i: int| #[trigger] old(self).is_first_at(i, start_vpn) ==> {
                &&& final(self).area_seq() == old(self).area_seq().remove(i)
                &&& final(self).mapping() == old(self).mapping().remove_keys(
                    old(self).area_seq()[i].area_mapping().dom(),
                )
                &&& final(pool).live() == old(pool).live().difference(old(self).area_seq()[i].frames())
            },
            (forall|i: int|
                0 <= i < old(self).area_seq().len() ==> (#[trigger] old(self).area_seq()[i]).start_vpn()
                    != start_vpn) ==> {
                &&& final(self).area_seq() == old(self).area_seq()
                &&& final(self).mapping() == old(self).mapping()
                &&& final(pool).live() == old(pool).live()
            },
    {
        let mut idx: usize = 0;
        while idx < self.areas.len()
            invariant
                idx <= self.areas@.len(),
                *self == *old(self),
                *pool == *old(pool),
                self.wf(),
                self.owned_in(pool),
                forall|j: int| 0 <= j < idx ==> (#[trigger] self.areas@[j]).start_vpn() != start_vpn,
            decreases self.areas@.len() - idx,
        {
            if self.areas[idx].start() == start_vpn {
                proof {
                    assert(old(self).is_first_at(idx as int, start_vpn));
                    assert forall|i: int| #[trigger] old(self).is_first_at(i, start_vpn) implies i == idx by {
                        if i < idx {
                            assert(self.areas@[i].start_vpn() != start_vpn);
                        }
                        if i > idx {
                            assert(old(self).area_seq()[idx as int].start_vpn() != start_vpn);
                        }
                    }
                }
                self.remove_area_at(pool, idx);
                proof {
                    let a = old(self).area_seq()[idx as int];
                    assert forall|f: usize| a.frames().contains(f) implies old(self).frames().contains(f) by {
                        assert(old(self).data_frames().contains(f));
                    }
                }
                return;
            }
            idx = idx + 1;
        }
        proof {
            assert forall|i: int| #[trigger] old(self).is_first_at(i, start_vpn) implies false by {
                assert(self.areas@[i].start_vpn() != start_vpn);
            }
        }
    }

    /// Removes the region that holds page `vpn`, if one does (regions do
    /// not overlap, so there is at most one): its pages are unmapped and its
    /// frames given back.
    pub fn remove_area_containing(&mut self, pool: &mut FramePool, vpn: usize)
        requires
            old(self).wf(),
            old(self).owned_in(old(pool)),
        ensures
            final(self).wf(),
            final(self).owned_in(final(pool)),
            final(self).table().root() == old(self).table().root(),
            final(self).frames().subset_of(old(self).frames()),
            final(pool).live().subset_of(old(pool).live()),
            old(pool).live().difference(old(self).frames()).subset_of(final(pool).live()),
            final(pool).memory@ == old(pool).memory@,
            final(self).mapping().dom().subset_of(old(self).mapping().dom()),
            forall|i: int| 0 <= i < old(self).area_seq().len() && #[trigger] old(self).area_seq()[i].contains(vpn) ==> {
                &&& final(self).area_seq() == old(self).area_seq().remove(i)
                &&& final(self).mapping() == old(self).mapping().remove_keys(
                    old(self).area_seq()[i].area_mapping().dom(),
                )
            },
            (forall|i: int| 0 <= i < old(self).area_seq().len() ==> !#[trigger] old(self).area_seq()[i].contains(vpn))
                ==> *final(self) == *old(self) && *final(pool) == *old(pool),
    {
        let mut idx: usize = 0;
        while idx < self.areas.len()
            invariant
                idx <= self.areas@.len(),
                *self == *old(self),
                *pool == *old(pool),
                self.wf(),
                self.owned_in(pool),
                forall|j: int| 0 <= j < idx ==> !#[trigger] self.areas@[j].contains(vpn),
            decreases self.areas@.len() - idx,
        {
            if self.areas[idx].start() <= vpn && vpn < self.areas[idx].end() {
                proof {
                    assert(old(self).area_seq()[idx as int].contains(vpn));
                    assert forall|i: int| 0 <= i < old(self).area_seq().len() && #[trigger] old(self).area_seq()[i].contains(vpn) implies i == idx by {
                        if i != idx {
                            assert(!old(self).area_seq()[idx as int].contains(vpn));
                        }
                    }
                }
                self.remove_area_at(pool, idx);
                proof {
                    let a = old(self).area_seq()[idx as int];
                    assert forall|f: usize| a.frames().contains(f) implies old(self).frames().contains(f) by {
                        assert(old(self).data_frames().contains(f));
                    }
                }
                return;
            }
            idx = idx + 1;
        }
    }

    /// Removes every region, unmapping its pages and giving its frames back;
    /// the page table and the trampoline stay.
    pub fn recycle_data_pages(&mut self, pool: &mut FramePool)
        requires
            old(self).wf(),
            old(self).owned_in(old(pool)),
        ensures
            final(self).wf(),
            final(self).owned_in(final(pool)),
            final(self).table().root() == old(self).table().root(),
            final(self).area_seq().len() == 0,
            final(self).data_frames().is_empty(),
            final(self).table().frames() == old(self).table().frames(),
            final(self).mapping().dom().subset_of(set![TRAMPOLINE_VPN]),
            old(self).mapping().contains_key(TRAMPOLINE_VPN) ==> final(self).mapping() == map![TRAMPOLINE_VPN => old(self).mapping()[TRAMPOLINE_VPN]],
            final(pool).live() == old(pool).live().difference(old(self).data_frames()),
            final(pool).memory@ == old(pool).memory@,
    {
        while self.areas.len() > 0
            invariant
                self.wf(),
                self.owned_in(pool),
                self.table().root() == old(self).table().root(),
                self.table().frames() == old(self).table().frames(),
                old(self).mapping().contains_key(TRAMPOLINE_VPN) ==> self.mapping().contains_key(TRAMPOLINE_VPN)
                    && self.mapping()[TRAMPOLINE_VPN] == old(self).mapping()[TRAMPOLINE_VPN],
                !old(self).mapping().contains_key(TRAMPOLINE_VPN) ==> !self.mapping().contains_key(TRAMPOLINE_VPN),
                pool.live() == old(pool).live().difference(old(self).data_frames().difference(self.data_frames())),
                self.data_frames().subset_of(old(self).data_frames()),
                pool.memory@ == old(pool).memory@,
                pool.allocator@.end == old(pool).allocator@.end,
            decreases self.areas@.len(),
        {
            let ghost a = self.areas@[self.areas@.len() - 1];
            proof {
                assert(!a.contains(TRAMPOLINE_VPN));
            }
            let last = self.areas.len() - 1;
            self.remove_area_at(pool, last);
            proof {
                assert(pool.live() =~= old(pool).live().difference(old(self).data_frames().difference(self.data_frames())));
            }
        }
        proof {
            assert(self.data_frames() =~= Set::empty());
            assert(pool.live() =~= old(pool).live().difference(old(self).data_frames()));
            assert forall|v: usize| #[trigger] self.mapping().contains_key(v) implies v == TRAMPOLINE_VPN by {
                if v != TRAMPOLINE_VPN {
                    let i = choose|i: int| 0 <= i < self.area_seq().len() && #[trigger] self.area_seq()[i].contains(v);
                }
            }
            if old(self).mapping().contains_key(TRAMPOLINE_VPN) {
                assert(self.mapping() =~= map![TRAMPOLINE_VPN => old(self).mapping()[TRAMPOLINE_VPN]]);
            }
        }
    }

    /// Gives every frame of this address space back to the pool.
    pub fn release(self, pool: &mut FramePool)
        requires
            self.wf(),
            self.owned_in(old(pool)),
        ensures
            final(pool).wf(),
            final(pool).live() == old(pool).live().difference(self.frames()),
            final(pool).memory@ == old(pool).memory@,
    {
        let mut ms = self;
        ms.recycle_data_pages(pool);
        proof {
            assert(ms.table().frames().subset_of(pool.live()));
        }
        ms.page_table.release(pool);
        assert(pool.live() =~= old(pool).live().difference(self.frames()));
    }

    /// A copy of the user address space `user_space` for a forked task: the
    /// trampoline, then each region in order, framed regions on fresh frames
    /// holding the same bytes. On frame exhaustion everything allocated is
    /// given back and `None` returned.
    #[verifier::rlimit(60)]
    pub fn from_existed_user(user_space: &MemorySet, pool: &mut FramePool, strampoline_ppn: usize) -> (r: Option<MemorySet>)
        requires
            user_space.wf(),
            user_space.owned_in(old(pool)),
            ppn_fits(strampoline_ppn),
        ensures
            final(pool).wf(),
            old(pool).allocator@.available() >= 3 + 3 * pages_in(user_space.area_seq()) ==> r is Some,
            r is None ==> final(pool).live() == old(pool).live(),
            r is None ==> forall|q: usize| #[trigger] old(pool).live().contains(q) ==> final(pool).memory@[q] == old(pool).memory@[q],
            r is Some ==> {
                let ms = r->0;
                let src = user_space.area_seq();
                &&& ms.wf()
                &&& ms.owned_in(final(pool))
                &&& old(pool).allocated_into(final(pool), ms.frames())
                &&& old(pool).changes_within(final(pool), ms.frames())
                &&& final(pool).allocator@.available() >= old(pool).allocator@.available() - 3 - 3 * pages_in(src)
                &&& ms.mapping().contains_key(TRAMPOLINE_VPN)
                &&& ms.mapping()[TRAMPOLINE_VPN] == trampoline_pte(strampoline_ppn)
                &&& ms.area_seq().len() == src.len()
                &&& forall|i: int| 0 <= i < src.len() ==> (#[trigger] ms.area_seq()[i]).same_shape(&src[i])
                &&& forall|i: int, v: usize|
                    0 <= i < src.len() && #[trigger] src[i].contains(v) && src[i].kind() == MapType::Identical
                        ==> ms.mapping()[v] == user_space.mapping()[v]
                &&& forall|i: int, v: usize|
                    0 <= i < src.len() && #[trigger] src[i].contains(v) && src[i].kind() == MapType::Framed ==> {
                        &&& ms.mapping()[v].spec_ppn() != user_space.mapping()[v].spec_ppn()
                        &&& final(pool).memory@[ms.mapping()[v].spec_ppn()] == final(pool).memory@[user_space.mapping()[v].spec_ppn()]
                    }
            },
    {
        let ghost src = user_space.area_seq();
        proof {
            assert forall|i: int| 0 <= i < src.len() implies (#[trigger] src[i]).start_vpn() <= src[i].end_vpn() by {
                assert(src[i].is_mapped());
            }
            lemma_pages_in_take(src, 0);
        }
        let mut memory_set = match MemorySet::new_bare(pool) {
            None => {
                assert(pool.live() =~= old(pool).live());
                return None;
            },
            Some(ms) => ms,
        };
        let ghost ms0 = memory_set;
        let ghost pool1 = *pool;
        let tramp_ok = memory_set.map_trampoline(pool, strampoline_ppn);
        proof {
            old(pool).lemma_allocated_trans(&pool1, &*pool, ms0.frames(), memory_set.frames().difference(ms0.frames()));
            old(pool).lemma_changes_trans(&pool1, &*pool, ms0.frames(), memory_set.frames().difference(ms0.frames()));
            assert(ms0.frames().union(memory_set.frames().difference(ms0.frames())) =~= memory_set.frames());
        }
        if !tramp_ok {
            let ghost f = memory_set.frames();
            memory_set.release(pool);
            proof {
                assert(pool.live() =~= old(pool).live());
            }
            return None;
        }
        let mut k: usize = 0;
        while k < user_space.areas.len()
            invariant
                src == user_space.area_seq(),
                user_space.wf(),
                k <= src.len(),
                memory_set.wf(),
                memory_set.owned_in(pool),
                memory_set.mapping().contains_key(TRAMPOLINE_VPN),
                memory_set.mapping()[TRAMPOLINE_VPN] == trampoline_pte(strampoline_ppn),
                memory_set.area_seq().len() == k,
                forall|i: int| 0 <= i < k ==> (#[trigger] memory_set.area_seq()[i]).same_shape(&src[i]),
                memory_set.frames().disjoint(old(pool).live()),
                old(pool).allocated_into(&*pool, memory_set.frames()),
                old(pool).changes_within(&*pool, memory_set.frames()),
                user_space.frames().subset_of(old(pool).live()),
                pool.allocator@.available() >= old(pool).allocator@.available() - 3 - 3 * pages_in(src.take(k as int)),
                forall|i: int, v: usize|
                    0 <= i < k && #[trigger] src[i].contains(v) && src[i].kind() == MapType::Framed
                        ==> pool.memory@[memory_set.area_seq()[i].frame_of(v)] == old(pool).memory@[src[i].frame_of(v)],
            decreases src.len() - k,
        {
            let new_area = MapArea::from_another(&user_space.areas[k]);
            proof {
                assert(src[k as int].is_mapped());
                assert forall|v: usize| #[trigger] new_area.contains(v) implies !memory_set.mapping().contains_key(v) by {
                    if memory_set.mapping().contains_key(v) {
                        assert(v != TRAMPOLINE_VPN);
                        let i = choose|i: int| 0 <= i < memory_set.area_seq().len() && #[trigger] memory_set.area_seq()[i].contains(v);
                        assert(src[i].contains(v));
                        assert(src[k as int].contains(v));
                    }
                }
            }
            let ghost before = memory_set;
            let ghost pool_before = *pool;
            proof {
                assert forall|i: int| 0 <= i < src.len() implies (#[trigger] src[i]).start_vpn() <= src[i].end_vpn() by {
                    assert(src[i].is_mapped());
                }
                lemma_pages_in_take(src, k + 1);
                assert(src.take(k + 1).drop_last() =~= src.take(k as int));
            }
            let ok = memory_set.push(pool, new_area, None);
            proof {
                old(pool).lemma_allocated_trans(&pool_before, &*pool, before.frames(), memory_set.frames().difference(before.frames()));
                if ok {
                    old(pool).lemma_changes_trans(&pool_before, &*pool, before.frames(), memory_set.frames().difference(before.frames()));
                }
                assert(before.frames().union(memory_set.frames().difference(before.frames())) =~= memory_set.frames());
            }
            if !ok {
                memory_set.release(pool);
                proof {
                    assert(pool.live() =~= old(pool).live());
                }
                return None;
            }
            proof {
                let a = memory_set.area_seq().last();
                assert forall|i: int, v: usize|
                    0 <= i < k && #[trigger] src[i].contains(v) && src[i].kind() == MapType::Framed
                        implies pool.memory@[memory_set.area_seq()[i].frame_of(v)] == old(pool).memory@[src[i].frame_of(v)] by {
                    let mi = before.area_seq()[i];
                    assert(memory_set.area_seq()[i] == mi);
                    assert(mi.contains(v));
                    assert(mi.is_mapped());
                    assert(mi.frame_list()[v - mi.start_vpn()] == mi.frame_of(v));
                    assert(mi.frames().contains(mi.frame_of(v)));
                    assert(before.data_frames().contains(mi.frame_of(v)));
                    assert(pool_before.live().contains(mi.frame_of(v)));
                }
            }
            if user_space.areas[k].map_type() == MapType::Framed {
                let ghost ms_area = memory_set.area_seq()[k as int];
                let area_start = user_space.areas[k].start();
                let area_end = user_space.areas[k].end();
                let mut vpn = area_start;
                while vpn < area_end
                    invariant
                        area_start <= vpn <= area_end,
                        area_start == src[k as int].start_vpn(),
                        area_end == src[k as int].end_vpn(),
                        src[k as int].kind() == MapType::Framed,
                        ms_area == memory_set.area_seq()[k as int],
                        ms_area.same_shape(&src[k as int]),
                        // everything but memory content as after the push
                        src == user_space.area_seq(),
                        user_space.wf(),
                        k < src.len(),
                        memory_set.wf(),
                        memory_set.owned_in(pool),
                        memory_set.mapping().contains_key(TRAMPOLINE_VPN),
                        memory_set.mapping()[TRAMPOLINE_VPN] == trampoline_pte(strampoline_ppn),
                memory_set.mapping()[TRAMPOLINE_VPN] == trampoline_pte(strampoline_ppn),
                        memory_set.area_seq().len() == k + 1,
                        forall|i: int| 0 <= i <= k ==> (#[trigger] memory_set.area_seq()[i]).same_shape(&src[i]),
                        memory_set.frames().disjoint(old(pool).live()),
                        old(pool).allocated_into(&*pool, memory_set.frames()),
                        old(pool).changes_within(&*pool, memory_set.frames()),
                        user_space.frames().subset_of(old(pool).live()),
                        pool.allocator@.available() >= old(pool).allocator@.available() - 3 - 3 * pages_in(src.take(k + 1)),
                        forall|i: int, v: usize|
                            0 <= i < k && #[trigger] src[i].contains(v) && src[i].kind() == MapType::Framed
                                ==> pool.memory@[memory_set.area_seq()[i].frame_of(v)] == old(pool).memory@[src[i].frame_of(v)],
                        forall|v: usize|
                            area_start <= v < vpn ==> pool.memory@[#[trigger] ms_area.frame_of(v)] == old(pool).memory@[src[k as int].frame_of(v)],
                    decreases area_end - vpn,
                {
                    proof {
                        assert(src[k as int].contains(vpn));
                        assert(ms_area.contains(vpn));
                        PageTableEntry::lemma_new_fields(src[k as int].frame_of(vpn), with_valid(src[k as int].perm()));
                        PageTableEntry::lemma_new_fields(ms_area.frame_of(vpn), with_valid(ms_area.perm()));
                        assert(src[k as int].frame_list().contains(src[k as int].frame_of(vpn))) by {
                            assert(src[k as int].frame_list()[vpn - area_start] == src[k as int].frame_of(vpn));
                        }
                        assert(ms_area.frame_list()[vpn - area_start] == ms_area.frame_of(vpn));
                        assert(user_space.data_frames().contains(src[k as int].frame_of(vpn)));
                        assert(memory_set.data_frames().contains(ms_area.frame_of(vpn)));
                        pool.lemma_live_in_memory(src[k as int].frame_of(vpn));
                        pool.lemma_live_in_memory(ms_area.frame_of(vpn));
                    }
                    let src_ppn = user_space.translate(vpn).unwrap().ppn();
                    let dst_ppn = memory_set.translate(vpn).unwrap().ppn();
                    let ghost pool_c = *pool;
                    pool.memory.copy_frame(dst_ppn, src_ppn);
                    proof {
                        assert(pool.memory@.dom() =~= pool_c.memory@.dom());
                        assert forall|q: usize| #[trigger] old(pool).memory@.contains_key(q) && !memory_set.frames().contains(q)
                            implies pool.memory@[q] == old(pool).memory@[q] by {
                            assert(q != dst_ppn);
                        }
                        assert(!old(pool).live().contains(dst_ppn));
                        assert(old(pool).live().contains(src_ppn));
                        assert(pool_c.memory@[src_ppn] == old(pool).memory@[src_ppn]);
                        assert forall|q: usize| #[trigger] old(pool).live().contains(q) implies pool.memory@[q] == old(pool).memory@[q] by {
                            assert(q != dst_ppn);
                        }
                        assert forall|i: int, v: usize|
                            0 <= i < k && #[trigger] src[i].contains(v) && src[i].kind() == MapType::Framed
                                implies pool.memory@[memory_set.area_seq()[i].frame_of(v)] == old(pool).memory@[src[i].frame_of(v)] by {
                            let mi = memory_set.area_seq()[i];
                            assert(mi.contains(v));
                            assert(mi.frame_list()[v - mi.start_vpn()] == mi.frame_of(v));
                            assert(mi.frames().contains(mi.frame_of(v)));
                            assert(mi.frames().disjoint(ms_area.frames()));
                            assert(ms_area.frames().contains(dst_ppn));
                        }
                        assert forall|v: usize| area_start <= v < vpn + 1 implies pool.memory@[#[trigger] ms_area.frame_of(v)] == old(pool).memory@[src[k as int].frame_of(v)] by {
                            if v < vpn {
                                assert(ms_area.frame_list()[v - area_start] == ms_area.frame_of(v));
                                assert(ms_area.frame_list()[vpn - area_start] == dst_ppn);
                                assert(v - area_start != vpn - area_start);
                            }
                        }
                    }
                    vpn = vpn + 1;
                }
                proof {
                    assert forall|i: int, v: usize|
                        0 <= i < k + 1 && #[trigger] src[i].contains(v) && src[i].kind() == MapType::Framed
                            implies pool.memory@[memory_set.area_seq()[i].frame_of(v)] == old(pool).memory@[src[i].frame_of(v)] by {
                        if i == k {
                            assert(ms_area.frame_of(v) == memory_set.area_seq()[i].frame_of(v));
                        }
                    }
                }
            }
            proof {
                assert(src.take(k + 1).drop_last() =~= src.take(k as int));
            }
            k = k + 1;
        }
        proof {
            assert(src.take(src.len() as int) =~= src);
            assert(pages_in(src.take(src.len() as int)) == pages_in(src));
            let ms = memory_set;
            assert forall|i: int, v: usize|
                0 <= i < src.len() && #[trigger] src[i].contains(v) && src[i].kind() == MapType::Identical
                    implies ms.mapping()[v] == user_space.mapping()[v] by {
                assert(ms.area_seq()[i].contains(v));
            }
            assert forall|i: int, v: usize|
                0 <= i < src.len() && #[trigger] src[i].contains(v) && src[i].kind() == MapType::Framed implies {
                    &&& ms.mapping()[v].spec_ppn() != user_space.mapping()[v].spec_ppn()
                    &&& pool.memory@[ms.mapping()[v].spec_ppn()] == pool.memory@[user_space.mapping()[v].spec_ppn()]
                } by {
                let mi = ms.area_seq()[i];
                assert(mi.contains(v));
                PageTableEntry::lemma_new_fields(src[i].frame_of(v), with_valid(src[i].perm()));
                PageTableEntry::lemma_new_fields(mi.frame_of(v), with_valid(mi.perm()));
                assert(src[i].frame_list()[v - src[i].start_vpn()] == src[i].frame_of(v));
                assert(mi.frame_list()[v - mi.start_vpn()] == mi.frame_of(v));
                assert(user_space.data_frames().contains(src[i].frame_of(v)));
                assert(ms.data_frames().contains(mi.frame_of(v)));
                assert(old(pool).live().contains(src[i].frame_of(v)));
            }
        }
        Some(memory_set)
    }

    /// Whether no page of `[start, end)` is mapped.
    pub fn range_unmapped(&self, start: usize, end: usize) -> (r: bool)
        requires
            self.wf(),
        ensures
            r == forall|v: usize| start <= v < end ==> !#[trigger] self.mapping().contains_key(v),
    {
        let mut v = start;
        while v < end
            invariant
                start <= v <= end || (v == start && start >= end),
                self.wf(),
                forall|w: usize| start <= w < v ==> !#[trigger] self.mapping().contains_key(w),
            decreases end - v,
        {
            match self.translate(v) {
                Some(pte) => {
                    if pte.is_valid() {
                        return false;
                    }
                },
                None => {},
            }
            v = v + 1;
        }
        true
    }

    /// Pushes `area` after checking that it lies in the user range, overlaps
    /// nothing mapped and can hold `data[from..to]`.
    fn push_checked(&mut self, pool: &mut FramePool, area: MapArea, data: &[u8], from: usize, to: usize) -> (r: Result<(), LoadError>)
        requires
            old(self).wf(),
            old(self).owned_in(old(pool)),
            area.frame_list().len() == 0,
            area.kind() == MapType::Framed,
            from <= to,
        ensures
            final(self).wf(),
            final(self).owned_in(final(pool)),
            old(self).frames().subset_of(final(self).frames()),
            old(pool).allocated_into(final(pool), final(self).frames().difference(old(self).frames())),
            r is Ok ==> {
                let a = final(self).area_seq().last();
                &&& final(self).area_seq() == old(self).area_seq().push(a)
                &&& a.same_shape(&area)
                &&& final(self).mapping() == old(self).mapping().union_prefer_right(a.area_mapping())
                &&& a.frames().disjoint(old(pool).live())
                &&& to <= data@.len()
                &&& forall|v: usize|
                    #[trigger] a.contains(v) ==> final(pool).memory@[a.frame_of(v)] == data_page(
                        data@.subrange(from as int, to as int),
                        v - a.start_vpn(),
                    )
            },
            r is Err ==> final(self).area_seq() == old(self).area_seq(),
            r is Err ==> final(self).mapping() == old(self).mapping(),
            keeps_trampoline(old(self).mapping(), final(self).mapping()),
            r is Ok ==> final(pool).allocator@.available() >= old(pool).allocator@.available() - 3 * (
            area.end_vpn() - area.start_vpn()),
            (area.start_vpn() <= area.end_vpn() <= TRAMPOLINE_VPN && to <= data@.len()
                && (forall|v: usize| area.start_vpn() <= v < area.end_vpn() ==> !#[trigger] old(self).mapping().contains_key(v))
                && to - from <= (area.end_vpn() - area.start_vpn()) * 4096
                && old(pool).allocator@.available() >= 3 * (area.end_vpn() - area.start_vpn())) ==> r is Ok,
    {
        if area.end() > TRAMPOLINE_VPN || area.start() > area.end() || to > data.len() || !self.range_unmapped(area.start(), area.end()) {
            proof {
                old(pool).lemma_allocated_refl();
                assert(self.frames().difference(old(self).frames()) =~= Set::empty());
            }
            return Err(LoadError::BadSegment);
        }
        let pages = area.end() - area.start();
        if to - from > pages && (to - from - pages - 1) / 4095 >= pages {
            proof {
                old(pool).lemma_allocated_refl();
                assert(self.frames().difference(old(self).frames()) =~= Set::empty());
            }
            return Err(LoadError::BadSegment);
        }
        assert((to - from) <= pages * 4096) by (nonlinear_arith)
            requires !(to - from > pages && (to - from - pages - 1) / 4095 >= pages);
        proof {
            if (to - from) <= pages * 4096 {
                assert(!(to - from > pages && (to - from - pages - 1) / 4095 >= pages)) by (nonlinear_arith)
                    requires (to - from) <= pages * 4096;
            }
        }
        let ok = self.push(pool, area, Some(&data[from..to]));
        if ok {
            Ok(())
        } else {
            Err(LoadError::OutOfFrames)
        }
    }

    /// The address space of a program image: the trampoline, one framed
    /// user region per loadable segment holding the segment's file bytes,
    /// a user stack above the last of them past one guard page, and the
    /// trap-context page. Returns it with the initial stack pointer and the
    /// entry point. On any error everything allocated is given back.
    #[verifier::rlimit(60)]
    pub fn from_elf(elf_data: &[u8], pool: &mut FramePool, strampoline_ppn: usize) -> (r: Result<(MemorySet, usize, usize), LoadError>)
        requires
            old(pool).wf(),
            ppn_fits(strampoline_ppn),
        ensures
            final(pool).wf(),
            r == Err::<(MemorySet, usize, usize), LoadError>(LoadError::BadImage) <==> !elf_tables_in_bounds(elf_data@) || elf_decoded(elf_data@) is None,
            r is Err ==> final(pool).live() == old(pool).live(),
            r is Err ==> forall|q: usize| #[trigger] old(pool).live().contains(q) ==> final(pool).memory@[q] == old(pool).memory@[q],
            (elf_tables_in_bounds(elf_data@) && elf_decoded(elf_data@) is Some && elf_layout_ok(
                elf_data@,
                (elf_decoded(elf_data@)->0).1,
            ) && old(pool).allocator@.available() >= 12 + 3 * load_pages((elf_decoded(elf_data@)->0).1)) ==> r is Ok,
            r is Ok ==> final(pool).allocator@.available() >= old(pool).allocator@.available() - 12 - 3 * load_pages(
                (elf_decoded(elf_data@)->0).1,
            ),
            r is Ok ==> {
                let (ms, user_sp, entry) = r->Ok_0;
                &&& ms.wf()
                &&& ms.owned_in(final(pool))
                &&& old(pool).allocated_into(final(pool), ms.frames())
                &&& is_image_space(&ms, elf_data@, user_sp, entry, strampoline_ppn)
                &&& image_content(&ms, final(pool), elf_data@)
            },
    {
        let program = match parse_elf(elf_data) {
            None => {
                return Err(LoadError::BadImage);
            },
            Some(p) => p,
        };
        let ghost decoded = elf_decoded(elf_data@)->0;
        let ghost h = elf_layout_ok(elf_data@, decoded.1) && old(pool).allocator@.available() >= 12 + 3 * load_pages(decoded.1);
        proof {
            if h {
                assert forall|i: int| 0 <= i < decoded.1.len() && (#[trigger] decoded.1[i]).is_load implies seg_start(decoded.1[i]) <= seg_end(decoded.1[i]) by {}
                lemma_load_pages_take(decoded.1, 0);
            }
        }
        let mut memory_set = match MemorySet::new_bare(pool) {
            None => {
                assert(pool.live() =~= old(pool).live());
                return Err(LoadError::OutOfFrames);
            },
            Some(ms) => ms,
        };
        let ghost ms0 = memory_set;
        let ghost pool1 = *pool;
        let tramp_ok = memory_set.map_trampoline(pool, strampoline_ppn);
        proof {
            old(pool).lemma_allocated_trans(&pool1, &*pool, ms0.frames(), memory_set.frames().difference(ms0.frames()));
            assert(ms0.frames().union(memory_set.frames().difference(ms0.frames())) =~= memory_set.frames());
        }
        if !tramp_ok {
            memory_set.release(pool);
            assert(pool.live() =~= old(pool).live());
            return Err(LoadError::OutOfFrames);
        }
        let segments = &program.segments;
        proof {
            assert(segments@.take(0) =~= Seq::<ProgramSegment>::empty());
            assert(load_pages(segments@.take(0)) == 0);
            assert(max_load_end(segments@.take(0)) == 0);
        }
        let mut max_end_vpn: usize = 0;
        let mut i: usize = 0;
        while i < segments.len()
            invariant
                segments@ == decoded.1,
                decoded == elf_decoded(elf_data@)->0,
                elf_tables_in_bounds(elf_data@),
                elf_decoded(elf_data@) is Some,
                i <= segments@.len(),
                max_end_vpn as int == max_load_end(segments@.take(i as int)),
                h == (elf_layout_ok(elf_data@, decoded.1) && old(pool).allocator@.available() >= 12 + 3 * load_pages(decoded.1)),
                pool.allocator@.available() >= old(pool).allocator@.available() - 3 - 3 * load_pages(segments@.take(i as int)),
                memory_set.wf(),
                memory_set.owned_in(pool),
                memory_set.mapping().contains_key(TRAMPOLINE_VPN),
                memory_set.mapping()[TRAMPOLINE_VPN] == trampoline_pte(strampoline_ppn),
                memory_set.frames().disjoint(old(pool).live()),
                old(pool).allocated_into(&*pool, memory_set.frames()),
                memory_set.area_seq().len() == loads(segments@.take(i as int)).len(),
                max_end_vpn as int == max_end(memory_set.area_seq(), loads(segments@.take(i as int)).len() as int),
                forall|j: int| 0 <= j < loads(segments@.take(i as int)).len() ==> {
                    let a = #[trigger] memory_set.area_seq()[j];
                    let seg = loads(segments@.take(i as int))[j];
                    &&& a.start_vpn() == spec_va_floor(seg.virtual_addr as usize)
                    &&& a.end_vpn() == spec_va_ceil((seg.virtual_addr + seg.mem_size) as usize)
                    &&& a.kind() == MapType::Framed
                    &&& a.perm() == segment_perm(seg)
                    &&& forall|v: usize| #[trigger] a.contains(v) ==> pool.memory@[a.frame_of(v)]
                        == data_page(elf_data@.subrange(seg.offset as int, seg.offset + seg.file_size), v - a.start_vpn())
                },
            decreases segments@.len() - i,
        {
            let seg = segments[i];
            proof {
                assert(segments@.take(i + 1).drop_last() =~= segments@.take(i as int));
                assert(segments@.take(i + 1).last() == seg);
            }
            if seg.is_load {
                let end_addr = seg.virtual_addr.checked_add(seg.mem_size);
                let file_end = seg.offset.checked_add(seg.file_size);
                let data_len = elf_data.len();
                proof {
                    if h {
                        assert(decoded.1[i as int] == seg);
                        assert(segment_ok(elf_data@, seg));
                        assert(data_len == elf_data@.len());
                    }
                }
                if end_addr.is_none() || file_end.is_none() || seg.offset > usize::MAX as u64 || file_end.unwrap() > usize::MAX as u64 {
                    memory_set.release(pool);
                    assert(pool.live() =~= old(pool).live());
                    return Err(LoadError::BadSegment);
                }
                let mut perm: u8 = MAP_U;
                if seg.readable {
                    perm = perm + MAP_R;
                }
                if seg.writable {
                    perm = perm + MAP_W;
                }
                if seg.executable {
                    perm = perm + MAP_X;
                }
                let start_va = #[verifier::truncate] (seg.virtual_addr as usize);
                let end_va = #[verifier::truncate] (end_addr.unwrap() as usize);
                let area = MapArea::new(start_va, end_va, MapType::Framed, perm);
                let area_end = area.end();
                let ghost before = memory_set;
                let ghost pool_b = *pool;
                proof {
                    if h {
                        let segs = decoded.1;
                        assert(segs[i as int] == seg);
                        assert(segment_ok(elf_data@, seg));
                        assert(area.start_vpn() as int == seg_start(seg));
                        assert(area.end_vpn() as int == seg_end(seg));
                        assert forall|v: usize| area.start_vpn() <= v < area.end_vpn() implies !#[trigger] memory_set.mapping().contains_key(v) by {
                            if memory_set.mapping().contains_key(v) {
                                assert(v != TRAMPOLINE_VPN);
                                let j = choose|j: int| 0 <= j < memory_set.area_seq().len() && #[trigger] memory_set.area_seq()[j].contains(v);
                                let k = lemma_loads_from(segs, i as int, j);
                                assert(segs.take(i as int) =~= segments@.take(i as int));
                                assert(apart(seg_start(segs[k]), seg_end(segs[k]), seg_start(segs[i as int]), seg_end(segs[i as int])));
                            }
                        }
                        assert forall|x: int| 0 <= x < segs.len() && (#[trigger] segs[x]).is_load implies seg_start(segs[x]) <= seg_end(segs[x]) by {}
                        lemma_load_pages_take(segs, i + 1);
                        assert(segments@.take(i + 1).drop_last() =~= segments@.take(i as int));
                        assert(segments@.take(i + 1).last() == seg);
                        assert(load_pages(segments@.take(i + 1)) == load_pages(segments@.take(i as int)) + (seg_end(seg) - seg_start(seg)));
                        assert(pool.allocator@.available() >= 3 * (area.end_vpn() - area.start_vpn()));
                        assert(area.start_vpn() <= area.end_vpn() <= TRAMPOLINE_VPN);
                        assert((file_end.unwrap() as usize) <= elf_data@.len());
                        assert((file_end.unwrap() as usize) - (seg.offset as usize) <= (area.end_vpn() - area.start_vpn()) * 4096);
                    }
                }
                match memory_set.push_checked(pool, area, elf_data, seg.offset as usize, file_end.unwrap() as usize) {
                    Err(e) => {
                        proof {
                            old(pool).lemma_allocated_trans(&pool_b, &*pool, before.frames(), memory_set.frames().difference(before.frames()));
                            assert(before.frames().union(memory_set.frames().difference(before.frames())) =~= memory_set.frames());
                        }
                        memory_set.release(pool);
                        assert(pool.live() =~= old(pool).live());
                        return Err(if e == LoadError::OutOfFrames { LoadError::OutOfFrames } else { LoadError::BadSegment });
                    },
                    Ok(()) => {},
                }
                let ghost prev_max = max_end_vpn;
                max_end_vpn = if area_end > max_end_vpn {
                    area_end
                } else {
                    max_end_vpn
                };
                proof {
                    assert(segments@.take(i + 1).drop_last() =~= segments@.take(i as int));
                    assert(segments@.take(i + 1).last() == seg);
                    assert(max_load_end(segments@.take(i + 1)) == if seg_end(seg) > max_load_end(segments@.take(i as int)) {
                        seg_end(seg)
                    } else {
                        max_load_end(segments@.take(i as int))
                    });
                    let k0 = before.area_seq().len() as int;
                    lemma_max_end(before.area_seq(), memory_set.area_seq(), k0);
                    assert(memory_set.area_seq()[k0].end_vpn() == area_end);
                    assert(max_end(memory_set.area_seq(), k0 + 1) == max_end_vpn as int);
                    assert(load_pages(segments@.take(i + 1)) == load_pages(segments@.take(i as int)) + (seg_end(seg) - seg_start(seg)));
                    old(pool).lemma_allocated_trans(&pool_b, &*pool, before.frames(), memory_set.frames().difference(before.frames()));
                    assert(before.frames().union(memory_set.frames().difference(before.frames())) =~= memory_set.frames());
                    let segs1 = loads(segments@.take(i + 1));
                    let segs0 = loads(segments@.take(i as int));
                    assert(segs1 == segs0.push(seg));
                    let n0 = segs0.len() as int;
                    assert forall|j: int| 0 <= j < segs1.len() implies {
                        let a = #[trigger] memory_set.area_seq()[j];
                        let sg = segs1[j];
                        &&& a.start_vpn() == spec_va_floor(sg.virtual_addr as usize)
                        &&& a.end_vpn() == spec_va_ceil((sg.virtual_addr + sg.mem_size) as usize)
                        &&& a.kind() == MapType::Framed
                        &&& a.perm() == segment_perm(sg)
                        &&& forall|v: usize| #[trigger] a.contains(v) ==> pool.memory@[a.frame_of(v)]
                            == data_page(elf_data@.subrange(sg.offset as int, sg.offset + sg.file_size), v - a.start_vpn())
                    } by {
                        if j < n0 {
                            let a = memory_set.area_seq()[j];
                            assert(a == before.area_seq()[j]);
                            assert(segs1[j] == segs0[j]);
                            assert forall|v: usize| #[trigger] a.contains(v) implies pool.memory@[a.frame_of(v)] == pool_b.memory@[a.frame_of(v)] by {
                                assert(a.is_mapped());
                                assert(a.frame_list()[v - a.start_vpn()] == a.frame_of(v));
                                assert(a.frames().contains(a.frame_of(v)));
                                assert(before.data_frames().contains(a.frame_of(v)));
                                assert(pool_b.live().contains(a.frame_of(v)));
                            }
                        } else {
                            assert(segs1[j] == seg);
                        }
                    }
                }
            } else {
                proof {
                    assert(segments@.take(i + 1).drop_last() =~= segments@.take(i as int));
                    assert(loads(segments@.take(i + 1)) == loads(segments@.take(i as int)));
                    assert(max_load_end(segments@.take(i + 1)) == max_load_end(segments@.take(i as int)));
                    assert(load_pages(segments@.take(i + 1)) == load_pages(segments@.take(i as int)));
                }
            }
            i = i + 1;
        }
        proof {
            assert(segments@.take(segments@.len() as int) =~= segments@);
        }
        let ghost segs = decoded.1;
        proof {
            if h {
                assert(segments@.take(segments@.len() as int) =~= segs);
                assert forall|x: int| 0 <= x < segs.len() && (#[trigger] segs[x]).is_load implies seg_start(segs[x]) <= seg_end(segs[x]) by {}
                lemma_load_pages_take(segs, segs.len() as int);
                assert(max_end_vpn as int == max_load_end(segs));
                assert(pool.allocator@.available() >= 9);
            }
        }
        if max_end_vpn > TRAMPOLINE_VPN - 3 {
            memory_set.release(pool);
            assert(pool.live() =~= old(pool).live());
            return Err(LoadError::BadSegment);
        }
        let stack_bottom_vpn = max_end_vpn + 1;
        let stack_pages = crate::config::USER_STACK_SIZE / crate::config::PAGE_SIZE;
        assert(stack_pages == 2);
        let ghost before = memory_set;
        let ghost pool_b = *pool;
        let stack_area = MapArea { start: stack_bottom_vpn, end: stack_bottom_vpn + stack_pages, data_frames: Vec::new(), map_type: MapType::Framed, map_perm: MAP_R + MAP_W + MAP_U };
        proof {
            if h {
                let top = max_load_end(segs);
                assert forall|v: usize| stack_area.start_vpn() <= v < stack_area.end_vpn() implies !#[trigger] memory_set.mapping().contains_key(v) by {
                    if memory_set.mapping().contains_key(v) {
                        assert(v != TRAMPOLINE_VPN);
                        let j = choose|j: int| 0 <= j < memory_set.area_seq().len() && #[trigger] memory_set.area_seq()[j].contains(v);
                        assert(segments@.take(segs.len() as int) =~= segs);
                        let k = lemma_loads_from(segs, segs.len() as int, j);
                        assert(apart(seg_start(segs[k]), seg_end(segs[k]), top + 1, top + 3));
                    }
                }
            }
        }
        match memory_set.push_checked(pool, stack_area, elf_data, 0, 0) {
            Err(e) => {
                proof {
                    old(pool).lemma_allocated_trans(&pool_b, &*pool, before.frames(), memory_set.frames().difference(before.frames()));
                    assert(before.frames().union(memory_set.frames().difference(before.frames())) =~= memory_set.frames());
                }
                memory_set.release(pool);
                assert(pool.live() =~= old(pool).live());
                return Err(if e == LoadError::OutOfFrames { LoadError::OutOfFrames } else { LoadError::BadSegment });
            },
            Ok(()) => {},
        }
        proof {
            old(pool).lemma_allocated_trans(&pool_b, &*pool, before.frames(), memory_set.frames().difference(before.frames()));
            assert(before.frames().union(memory_set.frames().difference(before.frames())) =~= memory_set.frames());
        }
        let ghost mid = memory_set;
        let ghost pool_m = *pool;
        let trap_area = MapArea { start: TRAP_CONTEXT_VPN, end: TRAMPOLINE_VPN, data_frames: Vec::new(), map_type: MapType::Framed, map_perm: MAP_R + MAP_W };
        proof {
            if h {
                let top = max_load_end(segs);
                let n = memory_set.area_seq().len() - 1;
                assert forall|v: usize| trap_area.start_vpn() <= v < trap_area.end_vpn() implies !#[trigger] memory_set.mapping().contains_key(v) by {
                    if memory_set.mapping().contains_key(v) {
                        assert(v != TRAMPOLINE_VPN);
                        let j = choose|j: int| 0 <= j < memory_set.area_seq().len() && #[trigger] memory_set.area_seq()[j].contains(v);
                        if j < n {
                            assert(memory_set.area_seq()[j] == before.area_seq()[j]);
                            assert(segments@.take(segs.len() as int) =~= segs);
                            let k = lemma_loads_from(segs, segs.len() as int, j);
                            assert(apart(seg_start(segs[k]), seg_end(segs[k]), TRAP_CONTEXT_VPN as int, TRAMPOLINE_VPN as int));
                        }
                    }
                }
                assert(pool.allocator@.available() >= 3);
            }
        }
        match memory_set.push_checked(pool, trap_area, elf_data, 0, 0) {
            Err(e) => {
                proof {
                    old(pool).lemma_allocated_trans(&pool_m, &*pool, mid.frames(), memory_set.frames().difference(mid.frames()));
                    assert(mid.frames().union(memory_set.frames().difference(mid.frames())) =~= memory_set.frames());
                }
                memory_set.release(pool);
                assert(pool.live() =~= old(pool).live());
                return Err(if e == LoadError::OutOfFrames { LoadError::OutOfFrames } else { LoadError::BadSegment });
            },
            Ok(()) => {},
        }
        proof {
            old(pool).lemma_allocated_trans(&pool_m, &*pool, mid.frames(), memory_set.frames().difference(mid.frames()));
            assert(mid.frames().union(memory_set.frames().difference(mid.frames())) =~= memory_set.frames());
            let segs = loads(decoded.1);
            let n = segs.len() as int;
            assert forall|j: int| 0 <= j < n implies {
                let a = #[trigger] memory_set.area_seq()[j];
                let seg = segs[j];
                &&& a.start_vpn() == spec_va_floor(seg.virtual_addr as usize)
                &&& a.end_vpn() == spec_va_ceil((seg.virtual_addr + seg.mem_size) as usize)
                &&& a.kind() == MapType::Framed
                &&& a.perm() == segment_perm(seg)
                &&& forall|v: usize| #[trigger] a.contains(v) ==> pool.memory@[a.frame_of(v)]
                    == data_page(elf_data@.subrange(seg.offset as int, seg.offset + seg.file_size), v - a.start_vpn())
            } by {
                let a = memory_set.area_seq()[j];
                assert(a == before.area_seq()[j]);
                assert(a == mid.area_seq()[j]);
                assert forall|v: usize| #[trigger] a.contains(v) implies pool.memory@[a.frame_of(v)] == pool_b.memory@[a.frame_of(v)] by {
                    assert(a.is_mapped());
                    assert(a.frame_list()[v - a.start_vpn()] == a.frame_of(v));
                    assert(a.frames().contains(a.frame_of(v)));
                    assert(before.data_frames().contains(a.frame_of(v)));
                    assert(mid.data_frames().contains(a.frame_of(v)));
                    assert(pool_b.live().contains(a.frame_of(v)));
                    assert(pool_m.live().contains(a.frame_of(v)));
                    assert(pool_m.memory@[a.frame_of(v)] == pool_b.memory@[a.frame_of(v)]);
                }
            }
        }
        proof {
            assert(segments@.take(segments@.len() as int) =~= segs);
            let areas = memory_set.area_seq();
            let n = loads(segs).len() as int;
            assert(loads(segments@.take(segments@.len() as int)) == loads(segs));
            lemma_max_end(before.area_seq(), areas, n);
            assert(areas[n].start_vpn() == max_end(areas, n) + 1);
            let g = max_end_vpn;
            if memory_set.mapping().contains_key(g) {
                let k = choose|k: int| 0 <= k < areas.len() && #[trigger] areas[k].contains(g);
                if k < n {
                    assert(areas[k].end_vpn() <= max_end(areas, n));
                }
            }
            assert((areas[n].start_vpn() - 1) as usize == g);
        }
        let user_sp = #[verifier::truncate] (((stack_bottom_vpn + stack_pages) as u64 * 4096) as usize);
        let entry = #[verifier::truncate] (program.entry as usize);
        Ok((memory_set, user_sp, entry))
    }

    /// Adds a framed region over `[floor(start_va), ceil(end_va))` with
    /// `permission`, such as a task's kernel stack.
    pub fn insert_framed_area(&mut self, pool: &mut FramePool, start_va: usize, end_va: usize, permission: u8) -> (r: bool)
        requires
            old(self).wf(),
            old(self).owned_in(old(pool)),
            spec_va_floor(start_va) <= spec_va_ceil(end_va) <= TRAMPOLINE_VPN,
            forall|v: usize| spec_va_floor(start_va) <= v < spec_va_ceil(end_va) ==> !#[trigger] old(self).mapping().contains_key(v),
        ensures
            final(self).wf(),
            final(self).owned_in(final(pool)),
            old(pool).allocator@.available() >= 3 * (spec_va_ceil(end_va) - spec_va_floor(start_va)) ==> r,
            r ==> {
                let a = final(self).area_seq().last();
                &&& final(self).area_seq() == old(self).area_seq().push(a)
                &&& a.start_vpn() == spec_va_floor(start_va)
                &&& a.end_vpn() == spec_va_ceil(end_va)
                &&& a.kind() == MapType::Framed
                &&& a.perm() == permission
                &&& final(self).mapping() == old(self).mapping().union_prefer_right(a.area_mapping())
            },
            !r ==> final(self).area_seq() == old(self).area_seq() && final(self).mapping() == old(self).mapping(),
    {
        let area = MapArea::new(start_va, end_va, MapType::Framed, permission);
        proof {
            assert forall|v: usize| #[trigger] area.contains(v) implies !self.mapping().contains_key(v) by {}
        }
        self.push(pool, area, None)
    }

    /// Pushes an identical region after checking that it lies below the
    /// trampoline and overlaps nothing mapped.
    fn push_identical_checked(&mut self, pool: &mut FramePool, start_va: usize, end_va: usize, perm: u8) -> (r: bool)
        requires
            old(self).wf(),
            old(self).owned_in(old(pool)),
        ensures
            final(self).wf(),
            final(self).owned_in(final(pool)),
            old(self).frames().subset_of(final(self).frames()),
            old(pool).allocated_into(final(pool), final(self).frames().difference(old(self).frames())),
            r ==> {
                let a = final(self).area_seq().last();
                &&& final(self).area_seq() == old(self).area_seq().push(a)
                &&& a.start_vpn() == spec_va_floor(start_va)
                &&& a.end_vpn() == spec_va_ceil(end_va)
                &&& a.kind() == MapType::Identical
                &&& a.perm() == perm
                &&& final(self).mapping() == old(self).mapping().union_prefer_right(a.area_mapping())
            },
            !r ==> final(self).area_seq() == old(self).area_seq(),
            keeps_trampoline(old(self).mapping(), final(self).mapping()),
            r ==> final(pool).allocator@.available() >= old(pool).allocator@.available() - 3 * (spec_va_ceil(end_va)
                - spec_va_floor(start_va)),
            (spec_va_floor(start_va) <= spec_va_ceil(end_va) <= TRAMPOLINE_VPN && spec_va_ceil(end_va) <= (usize::MAX
                - 255) / 1024 && (forall|v: usize|
                spec_va_floor(start_va) <= v < spec_va_ceil(end_va) ==> !#[trigger] old(self).mapping().contains_key(v))
                && old(pool).allocator@.available() >= 3 * (spec_va_ceil(end_va) - spec_va_floor(start_va))) ==> r,
    {
        let area = MapArea::new(start_va, end_va, MapType::Identical, perm);
        if area.end() > TRAMPOLINE_VPN || area.start() > area.end() || area.end() > (usize::MAX - 255) / 1024
            || !self.range_unmapped(area.start(), area.end()) {
            proof {
                old(pool).lemma_allocated_refl();
                assert(self.frames().difference(old(self).frames()) =~= Set::empty());
            }
            return false;
        }
        self.push(pool, area, None)
    }

    /// The kernel address space: the trampoline, then the kernel's text
    /// (read, execute), read-only data (read), data and bss (read, write)
    /// and the rest of physical memory (read, write), all mapped
    /// identically. `None` when a section overlaps another or leaves the
    /// mappable range, or frames run out; everything allocated is then
    /// given back.
    #[verifier::rlimit(60)]
    pub fn new_kernel(pool: &mut FramePool, layout: &KernelLayout) -> (r: Option<MemorySet>)
        requires
            old(pool).wf(),
            ppn_fits(layout.strampoline_ppn),
        ensures
            final(pool).wf(),
            r is None ==> final(pool).live() == old(pool).live(),
            kernel_layout_ok(*layout) && old(pool).allocator@.available() >= 3 + 3 * kernel_pages(*layout, 5) ==> r is Some,
            r is Some ==> {
                let ms = r->0;
                let areas = ms.area_seq();
                &&& ms.wf()
                &&& ms.owned_in(final(pool))
                &&& old(pool).allocated_into(final(pool), ms.frames())
                &&& ms.mapping().contains_key(TRAMPOLINE_VPN)
                &&& ms.mapping()[TRAMPOLINE_VPN] == trampoline_pte(layout.strampoline_ppn)
                &&& areas.len() == 5
                &&& forall|i: int| 0 <= i < 5 ==> (#[trigger] areas[i]).kind() == MapType::Identical
                &&& areas[0].start_vpn() == spec_va_floor(layout.stext) && areas[0].end_vpn() == spec_va_ceil(layout.etext)
                &&& areas[0].perm() == MAP_R + MAP_X
                &&& areas[1].start_vpn() == spec_va_floor(layout.srodata) && areas[1].end_vpn() == spec_va_ceil(layout.erodata)
                &&& areas[1].perm() == MAP_R
                &&& areas[2].start_vpn() == spec_va_floor(layout.sdata) && areas[2].end_vpn() == spec_va_ceil(layout.edata)
                &&& areas[2].perm() == MAP_R + MAP_W
                &&& areas[3].start_vpn() == spec_va_floor(layout.sbss_with_stack) && areas[3].end_vpn() == spec_va_ceil(layout.ebss)
                &&& areas[3].perm() == MAP_R + MAP_W
                &&& areas[4].start_vpn() == spec_va_floor(layout.ekernel) && areas[4].end_vpn() == spec_va_ceil(layout.memory_end)
                &&& areas[4].perm() == MAP_R + MAP_W
            },
    {
        proof {
            if kernel_layout_ok(*layout) {
                lemma_kernel_pages_mono(*layout, 0, 5);
            }
        }
        let mut ms = match MemorySet::new_bare(pool) {
            None => {
                assert(pool.live() =~= old(pool).live());
                return None;
            },
            Some(ms) => ms,
        };
        let ghost pool1 = *pool;
        let ghost ms1 = ms;
        if !ms.map_trampoline(pool, layout.strampoline_ppn) {
            proof {
                old(pool).lemma_allocated_trans(&pool1, &*pool, ms1.frames(), ms.frames().difference(ms1.frames()));
                assert(ms1.frames().union(ms.frames().difference(ms1.frames())) =~= ms.frames());
            }
            ms.release(pool);
            assert(pool.live() =~= old(pool).live());
            return None;
        }
        let starts = [layout.stext, layout.srodata, layout.sdata, layout.sbss_with_stack, layout.ekernel];
        let ends = [layout.etext, layout.erodata, layout.edata, layout.ebss, layout.memory_end];
        let perms = [MAP_R + MAP_X, MAP_R, MAP_R + MAP_W, MAP_R + MAP_W, MAP_R + MAP_W];
        let ghost h = kernel_layout_ok(*layout) && old(pool).allocator@.available() >= 3 + 3 * kernel_pages(*layout, 5);
        proof {
            assert forall|k: int| 0 <= k < 5 implies starts@[k] == (#[trigger] kernel_section(*layout, k)).0 && ends@[k] == kernel_section(*layout, k).1 by {}
            if h {
                lemma_kernel_pages_mono(*layout, 0, 5);
            }
        }
        proof {
            old(pool).lemma_allocated_trans(&pool1, &*pool, ms1.frames(), ms.frames().difference(ms1.frames()));
            assert(ms1.frames().union(ms.frames().difference(ms1.frames())) =~= ms.frames());
        }
        let mut i: usize = 0;
        while i < 5
            invariant
                i <= 5,
                ms.wf(),
                ms.owned_in(pool),
                old(pool).allocated_into(&*pool, ms.frames()),
                ms.mapping().contains_key(TRAMPOLINE_VPN),
                ms.mapping()[TRAMPOLINE_VPN] == trampoline_pte(layout.strampoline_ppn),
                ms.area_seq().len() == i,
                forall|j: int| 0 <= j < i ==> {
                    let a = #[trigger] ms.area_seq()[j];
                    &&& a.kind() == MapType::Identical
                    &&& a.start_vpn() == spec_va_floor(starts@[j])
                    &&& a.end_vpn() == spec_va_ceil(ends@[j])
                    &&& a.perm() == perms@[j]
                },
                forall|k: int| 0 <= k < 5 ==> starts@[k] == (#[trigger] kernel_section(*layout, k)).0 && ends@[k] == kernel_section(*layout, k).1,
                h == (kernel_layout_ok(*layout) && old(pool).allocator@.available() >= 3 + 3 * kernel_pages(*layout, 5)),
                pool.allocator@.available() >= old(pool).allocator@.available() - 3 - 3 * kernel_pages(*layout, i as int),
            decreases 5 - i,
        {
            let ghost before = ms;
            let ghost pool_b = *pool;
            proof {
                if h {
                    let sec = kernel_section(*layout, i as int);
                    assert forall|v: usize| spec_va_floor(starts@[i as int]) <= v < spec_va_ceil(ends@[i as int]) implies !#[trigger] ms.mapping().contains_key(v) by {
                        if ms.mapping().contains_key(v) {
                            assert(v != TRAMPOLINE_VPN);
                            let j = choose|j: int| 0 <= j < ms.area_seq().len() && #[trigger] ms.area_seq()[j].contains(v);
                            assert(ms.area_seq()[j].contains(v));
                            let sj = kernel_section(*layout, j);
                            assert(apart(spec_va_floor(sj.0) as int, spec_va_ceil(sj.1) as int, spec_va_floor(sec.0) as int, spec_va_ceil(sec.1) as int));
                        }
                    }
                    lemma_kernel_pages_mono(*layout, i as int + 1, 5);
                    assert(kernel_pages(*layout, i as int + 1) == kernel_pages(*layout, i as int) + (spec_va_ceil(sec.1) - spec_va_floor(sec.0)));
                }
            }
            let ok = ms.push_identical_checked(pool, starts[i], ends[i], perms[i]);
            proof {
                old(pool).lemma_allocated_trans(&pool_b, &*pool, before.frames(), ms.frames().difference(before.frames()));
                assert(before.frames().union(ms.frames().difference(before.frames())) =~= ms.frames());
            }
            if !ok {
                ms.release(pool);
                assert(pool.live() =~= old(pool).live());
                return None;
            }
            proof {
                assert(kernel_pages(*layout, i as int + 1) == kernel_pages(*layout, i as int) + (spec_va_ceil(ends@[i as int]) - spec_va_floor(starts@[i as int])));
                assert forall|j: int| 0 <= j < i + 1 implies {
                    let a = #[trigger] ms.area_seq()[j];
                    &&& a.kind() == MapType::Identical
                    &&& a.start_vpn() == spec_va_floor(starts@[j])
                    &&& a.end_vpn() == spec_va_ceil(ends@[j])
                    &&& a.perm() == perms@[j]
                } by {
                    if j < i {
                        assert(ms.area_seq()[j] == before.area_seq()[j]);
                    }
                }
            }
            i = i + 1;
        }
        proof {
            assert(ms.area_seq()[0].kind() == MapType::Identical);
            assert(ms.area_seq()[1].kind() == MapType::Identical);
            assert(ms.area_seq()[2].kind() == MapType::Identical);
            assert(ms.area_seq()[3].kind() == MapType::Identical);
            assert(ms.area_seq()[4].kind() == MapType::Identical);
        }
        Some(ms)
    }

    /// Maps the trampoline page, readable and executable, to frame
    /// `strampoline_ppn`; the trampoline belongs to no region.
    pub fn map_trampoline(&mut self, pool: &mut FramePool, strampoline_ppn: usize) -> (r: bool)
        requires
            old(self).wf(),
            old(self).owned_in(old(pool)),
            !old(self).mapping().contains_key(TRAMPOLINE_VPN),
            ppn_fits(strampoline_ppn),
        ensures
            final(self).wf(),
            final(self).owned_in(final(pool)),
            final(self).area_seq() == old(self).area_seq(),
            final(self).table().root() == old(self).table().root(),
            old(pool).allocator@.available() >= 2 ==> r,
            r ==> final(self).mapping() == old(self).mapping().insert(
                TRAMPOLINE_VPN,
                PageTableEntry::spec_new(strampoline_ppn, with_valid(TRAMPOLINE_FLAGS)),
            ),
            !r ==> final(self).mapping() == old(self).mapping(),
            old(pool).allocated_into(final(pool), final(self).frames().difference(old(self).frames())),
            final(self).data_frames() == old(self).data_frames(),
            old(self).frames().subset_of(final(self).frames()),
            r ==> final(pool).allocator@.available() >= old(pool).allocator@.available() - 2,
            old(pool).changes_within(final(pool), final(self).frames().difference(old(self).frames())),
    {
        let ghost pt0 = self.page_table;
        let ok = self.page_table.map(pool, TRAMPOLINE_VPN, strampoline_ppn, TRAMPOLINE_FLAGS);
        proof {
            assert(self.data_frames() =~= old(self).data_frames());
            let added = self.table().frames().difference(pt0.frames());
            assert(self.frames().difference(old(self).frames()) =~= added) by {
                assert forall|q: usize| added.contains(q) implies !old(self).data_frames().contains(q) by {
                    if old(self).data_frames().contains(q) {
                        assert(old(pool).live().contains(q));
                    }
                }
                assert forall|q: usize| old(self).table().frames().contains(q) implies self.table().frames().contains(q) by {
                    let k = choose|k: int| 0 <= k < pt0.frame_list().len() && pt0.frame_list()[k] == q;
                    assert(self.table().frame_list()[k] == q);
                }
            }
            let areas = self.area_seq();
            assert forall|i: int| 0 <= i < areas.len() implies (#[trigger] areas[i]).frames().disjoint(self.table().frames()) by {
                assert forall|q: usize| areas[i].frames().contains(q) implies !self.table().frames().contains(q) by {
                    assert(old(self).data_frames().contains(q));
                    assert(old(pool).live().contains(q));
                    if !pt0.frames().contains(q) {
                        assert(!added.contains(q));
                    }
                }
            }
            assert forall|i: int, v: usize| 0 <= i < areas.len() && #[trigger] areas[i].contains(v) implies self.mapping().contains_key(v) && self.mapping()[v] == areas[i].pte_of(v) by {
                assert(old(self).mapping().contains_key(v));
            }
            assert forall|v: usize| #[trigger] self.mapping().contains_key(v) && v != TRAMPOLINE_VPN implies exists|i: int| 0 <= i < areas.len() && #[trigger] areas[i].contains(v) by {
                assert(old(self).mapping().contains_key(v));
            }
        }
        ok
    }
}

} // verus!

verus! {

/// Memory-management start-up: the frame pool over the frames `[l, r)` and
/// the kernel address space over `layout`. Making that space the active
/// one is left to the caller.
pub fn init(l: usize, r: usize, layout: &KernelLayout) -> (res: Option<(FramePool, MemorySet)>)
    requires
        l <= r,
        r * 1024 + 255 <= usize::MAX,
        ppn_fits(layout.strampoline_ppn),
    ensures
        kernel_layout_ok(*layout) && r - l >= 3 + 3 * kernel_pages(*layout, 5) ==> res is Some,
        res is Some ==> {
            let (pool, ks) = res->0;
            &&& pool.wf()
            &&& ks.wf()
            &&& ks.owned_in(&pool)
            &&& ks.mapping().contains_key(TRAMPOLINE_VPN)
            &&& ks.mapping()[TRAMPOLINE_VPN] == trampoline_pte(layout.strampoline_ppn)
            &&& ks.area_seq().len() == 5
        },
{
    let mut pool = FramePool::new(l, r);
    match MemorySet::new_kernel(&mut pool, layout) {
        None => None,
        Some(ks) => Some((pool, ks)),
    }
}

} // verus!

verus! {

/// The byte at virtual address `va` of `ms`, if its page is mapped to a
/// frame of `pool`'s memory.
pub open spec fn user_byte(ms: &MemorySet, pool: &FramePool, va: usize) -> Option<u8> {
    let vpn = spec_va_floor(va);
    if ms.mapping().contains_key(vpn) && pool.memory@.contains_key(ms.mapping()[vpn].spec_ppn()) {
        Some(pool.memory@[ms.mapping()[vpn].spec_ppn()][(va % 4096) as int])
    } else {
        None
    }
}

/// The byte at `va` through the page table of `ms`.
pub fn read_user_byte(ms: &MemorySet, pool: &FramePool, va: usize) -> (r: Option<u8>)
    requires
        ms.wf(),
        pool.wf(),
    ensures
        r == user_byte(ms, pool, va),
{
    let vpn = va_floor(va);
    match ms.translate(vpn) {
        None => None,
        Some(pte) => {
            if !pte.is_valid() || !pool.memory.contains(pte.ppn()) {
                return None;
            }
            proof {
                pool.memory.lemma_wf();
                assert(ms.mapping()[vpn] == pte);
            }
            Some(pool.memory.read_byte(pte.ppn(), va % 4096))
        },
    }
}

/// Copies of the `len` bytes at `va` of the user address space `ms`; `None`
/// when one of them lies in a page that is not mapped to memory.
pub fn translated_byte_buffer(ms: &MemorySet, pool: &FramePool, va: usize, len: usize) -> (r: Option<Vec<u8>>)
    requires
        ms.wf(),
        pool.wf(),
        va + len <= usize::MAX,
    ensures
        r is Some <==> forall|i: int| 0 <= i < len ==> #[trigger] user_byte(ms, pool, (va + i) as usize) is Some,
        r is Some ==> r->0@.len() == len && forall|i: int|
            0 <= i < len ==> user_byte(ms, pool, (va + i) as usize) == Some(#[trigger] r->0@[i]),
{
    let mut out: Vec<u8> = Vec::new();
    let mut i: usize = 0;
    while i < len
        invariant
            i <= len,
            va + len <= usize::MAX,
            ms.wf(),
            pool.wf(),
            out@.len() == i,
            forall|k: int| 0 <= k < i ==> user_byte(ms, pool, (va + k) as usize) == Some(#[trigger] out@[k]),
        decreases len - i,
    {
        match read_user_byte(ms, pool, va + i) {
            None => {
                assert(user_byte(ms, pool, (va + i as int) as usize) is None);
                return None;
            },
            Some(b) => {
                out.push(b);
            },
        }
        i = i + 1;
    }
    assert forall|k: int| 0 <= k < len implies #[trigger] user_byte(ms, pool, (va + k) as usize) is Some by {
        assert(user_byte(ms, pool, (va + k) as usize) == Some(out@[k]));
    }
    Some(out)
}

/// The NUL-terminated string at `va` of `ms` is `n` bytes long, all of
/// them in mapped memory.
pub open spec fn is_user_str(ms: &MemorySet, pool: &FramePool, va: usize, n: int) -> bool {
    &&& 0 <= n
    &&& va + n <= usize::MAX
    &&& user_byte(ms, pool, (va + n) as usize) == Some(0u8)
    &&& forall|i: int|
        0 <= i < n ==> (#[trigger] user_byte(ms, pool, (va + i) as usize)) is Some && user_byte(ms, pool, (va + i) as usize)->0 != 0
}

/// The bytes of the NUL-terminated string at `va` of `ms`, without the NUL;
/// `None` when a byte before the NUL is not in mapped memory.
pub fn translated_str(ms: &MemorySet, pool: &FramePool, va: usize) -> (r: Option<Vec<u8>>)
    requires
        ms.wf(),
        pool.wf(),
    ensures
        r is Some ==> {
            let s = r->0@;
            &&& va + s.len() <= usize::MAX
            &&& forall|i: int| 0 <= i < s.len() ==> user_byte(ms, pool, (va + i) as usize) == Some(#[trigger] s[i]) && s[i] != 0
            &&& user_byte(ms, pool, (va + s.len()) as usize) == Some(0u8)
        },
        (exists|n: int| #[trigger] is_user_str(ms, pool, va, n)) ==> r is Some,
{
    let mut out: Vec<u8> = Vec::new();
    let mut a: usize = va;
    loop
        invariant
            va <= a,
            a - va == out@.len(),
            ms.wf(),
            pool.wf(),
            forall|i: int| 0 <= i < out@.len() ==> user_byte(ms, pool, (va + i) as usize) == Some(#[trigger] out@[i]) && out@[i] != 0,
        decreases usize::MAX - a,
    {
        match read_user_byte(ms, pool, a) {
            None => {
                proof {
                    if exists|n: int| #[trigger] is_user_str(ms, pool, va, n) {
                        let n = choose|n: int| #[trigger] is_user_str(ms, pool, va, n);
                        if n < a - va {
                            assert(user_byte(ms, pool, (va + n) as usize) == Some(out@[n]));
                        } else if n > a - va {
                            assert(user_byte(ms, pool, (va + (a - va)) as usize) is Some);
                        }
                    }
                }
                return None;
            },
            Some(b) => {
                if b == 0 {
                    return Some(out);
                }
                out.push(b);
            },
        }
        if a == usize::MAX {
            proof {
                if exists|n: int| #[trigger] is_user_str(ms, pool, va, n) {
                    let n = choose|n: int| #[trigger] is_user_str(ms, pool, va, n);
                    assert(user_byte(ms, pool, (va + n) as usize) == Some(out@[n]));
                }
            }
            return None;
        }
        a = a + 1;
    }
}

} // verus!
