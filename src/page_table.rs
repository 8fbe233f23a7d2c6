//! A three-level page table in the SV39 layout.
//!
//! Each level is indexed by nine bits of the virtual page number. An
//! intermediate entry is valid exactly when its child node exists; the child
//! is owned by its parent's slot, so no two paths can reach the same node.
//! The table also keeps the list of every frame that it allocated for nodes.
use vstd::prelude::*;
use crate::phys_memory::FramePool;

verus! {

/// Entry flag: valid.
pub const PTE_V: u8 = 1;
/// Entry flag: readable.
pub const PTE_R: u8 = 2;
/// Entry flag: writable.
pub const PTE_W: u8 = 4;
/// Entry flag: executable.
pub const PTE_X: u8 = 8;
/// Entry flag: accessible from user mode.
pub const PTE_U: u8 = 16;
/// Entry flag: global.
pub const PTE_G: u8 = 32;
/// Entry flag: accessed.
pub const PTE_A: u8 = 64;
/// Entry flag: dirty.
pub const PTE_D: u8 = 128;

/// Entries in one node.
pub const ENTRIES_PER_NODE: usize = 512;
/// Virtual page numbers of the SV39 space are below this bound.
pub const VPN_LIMIT: usize = 134217728;
/// The `MODE` field of `satp` that turns SV39 translation on (8), in place.
pub const SATP_MODE_SV39: u64 = 0x8000_0000_0000_0000;

/// The frame-number field of `satp`.
pub const PPN_MASK: u64 = 0xfff_ffff_ffff;

/// The `satp` value for a table whose root is frame `root`.
pub open spec fn satp_of(root: usize) -> usize {
    (SATP_MODE_SV39 | (root as u64 & PPN_MASK)) as usize
}

/// Index of `vpn` at level `level` (0 is the root).
pub open spec fn vpn_index(vpn: usize, level: int) -> int {
    if level == 0 {
        (vpn / 262144) as int
    } else if level == 1 {
        ((vpn / 512) % 512) as int
    } else {
        (vpn % 512) as int
    }
}

/// A frame number that fits in an entry beside the flags.
pub open spec fn ppn_fits(ppn: usize) -> bool {
    ppn * 1024 + 255 <= usize::MAX
}

/// The flags with the valid bit set.
pub open spec fn with_valid(flags: u8) -> u8 {
    if flags % 2 == 0 {
        (flags + 1) as u8
    } else {
        flags
    }
}

/// The three indexes of a page number in the SV39 space determine it.
pub proof fn lemma_vpn_indexes(vpn: usize)
    requires
        vpn < VPN_LIMIT,
    ensures
        vpn == vpn_index(vpn, 0) * 262144 + vpn_index(vpn, 1) * 512 + vpn_index(vpn, 2),
        0 <= vpn_index(vpn, 0) < 512,
        0 <= vpn_index(vpn, 1) < 512,
        0 <= vpn_index(vpn, 2) < 512,
{
    let v = vpn as int;
    assert(v == 512 * (v / 512) + v % 512) by (nonlinear_arith);
    let w = v / 512;
    assert(w == 512 * (w / 512) + w % 512) by (nonlinear_arith);
    assert(w / 512 == v / 262144) by {
        vstd::arithmetic::div_mod::lemma_div_denominator(v, 512, 512);
    }
    assert(v / 262144 < 512) by {
        vstd::arithmetic::div_mod::lemma_div_by_multiple_is_strongly_ordered(v, 134217728, 512, 262144);
    }
}

/// A page-table entry: frame number above bit 10, flags in the low byte.
#[derive(Clone, Copy)]
pub struct PageTableEntry {
    pub bits: usize,
}

impl PageTableEntry {
    pub open spec fn spec_ppn(self) -> usize {
        (self.bits / 1024) as usize
    }

    pub open spec fn spec_flags(self) -> u8 {
        (self.bits % 256) as u8
    }

    pub open spec fn spec_is_valid(self) -> bool {
        self.bits % 2 == 1
    }

    pub open spec fn spec_readable(self) -> bool {
        (self.bits / 2) % 2 == 1
    }

    pub open spec fn spec_writeable(self) -> bool {
        (self.bits / 4) % 2 == 1
    }

    pub open spec fn spec_executable(self) -> bool {
        (self.bits / 8) % 2 == 1
    }

    /// The entry that maps to frame `ppn` with `flags`.
    pub open spec fn spec_new(ppn: usize, flags: u8) -> PageTableEntry {
        PageTableEntry { bits: (ppn * 1024 + flags) as usize }
    }

    pub proof fn lemma_new_fields(ppn: usize, flags: u8)
        requires
            ppn_fits(ppn),
        ensures
            Self::spec_new(ppn, flags).spec_ppn() == ppn,
            Self::spec_new(ppn, flags).spec_flags() == flags,
            Self::spec_new(ppn, flags).spec_is_valid() == (flags % 2 == 1),
            Self::spec_new(ppn, flags).spec_readable() == ((flags / 2) % 2 == 1),
            Self::spec_new(ppn, flags).spec_writeable() == ((flags / 4) % 2 == 1),
            Self::spec_new(ppn, flags).spec_executable() == ((flags / 8) % 2 == 1),
    {
        let b = ppn as int * 1024 + flags as int;
        let f = flags as int;
        let p = ppn as int;
        assert(b / 1024 == p) by (nonlinear_arith)
            requires b == p * 1024 + f, 0 <= f < 256, p >= 0;
        assert(b % 256 == f) by (nonlinear_arith)
            requires b == p * 1024 + f, 0 <= f < 256, p >= 0;
        assert(b % 2 == f % 2) by (nonlinear_arith)
            requires b == p * 1024 + f, 0 <= f < 256, p >= 0;
        assert((b / 2) % 2 == (f / 2) % 2) by (nonlinear_arith)
            requires b == p * 1024 + f, 0 <= f < 256, p >= 0;
        assert((b / 4) % 2 == (f / 4) % 2) by (nonlinear_arith)
            requires b == p * 1024 + f, 0 <= f < 256, p >= 0;
        assert((b / 8) % 2 == (f / 8) % 2) by (nonlinear_arith)
            requires b == p * 1024 + f, 0 <= f < 256, p >= 0;
    }

    pub fn new(ppn: usize, flags: u8) -> (r: Self)
        requires
            ppn_fits(ppn),
        ensures
            r == Self::spec_new(ppn, flags),
            r.spec_ppn() == ppn,
            r.spec_flags() == flags,
    {
        proof {
            Self::lemma_new_fields(ppn, flags);
        }
        PageTableEntry { bits: ppn * 1024 + flags as usize }
    }

    pub fn empty() -> (r: Self)
        ensures
            r.bits == 0,
            !r.spec_is_valid(),
    {
        PageTableEntry { bits: 0 }
    }

    pub fn ppn(&self) -> (r: usize)
        ensures
            r == self.spec_ppn(),
    {
        self.bits / 1024
    }

    pub fn flags(&self) -> (r: u8)
        ensures
            r == self.spec_flags(),
    {
        (self.bits % 256) as u8
    }

    pub fn is_valid(&self) -> (r: bool)
        ensures
            r == self.spec_is_valid(),
    {
        self.bits % 2 == 1
    }

    pub fn readable(&self) -> (r: bool)
        ensures
            r == self.spec_readable(),
    {
        (self.bits / 2) % 2 == 1
    }

    pub fn writeable(&self) -> (r: bool)
        ensures
            r == self.spec_writeable(),
    {
        (self.bits / 4) % 2 == 1
    }

    pub fn executable(&self) -> (r: bool)
        ensures
            r == self.spec_executable(),
    {
        (self.bits / 8) % 2 == 1
    }
}

/// A last-level node: the leaf entries of 512 pages.
struct LeafNode {
    ppn: usize,
    entries: Vec<PageTableEntry>,
}

/// A middle node: up to 512 last-level nodes.
struct MidNode {
    ppn: usize,
    children: Vec<Option<LeafNode>>,
}

impl LeafNode {
    fn new(ppn: usize) -> (r: Self)
        ensures
            r.ppn == ppn,
            r.entries@.len() == ENTRIES_PER_NODE,
            forall|i: int| 0 <= i < ENTRIES_PER_NODE ==> (#[trigger] r.entries@[i]).bits == 0,
    {
        let mut entries: Vec<PageTableEntry> = Vec::new();
        let mut i: usize = 0;
        while i < ENTRIES_PER_NODE
            invariant
                i <= ENTRIES_PER_NODE,
                entries@.len() == i,
                forall|k: int| 0 <= k < i ==> (#[trigger] entries@[k]).bits == 0,
            decreases ENTRIES_PER_NODE - i,
        {
            entries.push(PageTableEntry::empty());
            i = i + 1;
        }
        LeafNode { ppn, entries }
    }
}

impl MidNode {
    fn new(ppn: usize) -> (r: Self)
        ensures
            r.ppn == ppn,
            r.children@.len() == ENTRIES_PER_NODE,
            forall|i: int| 0 <= i < ENTRIES_PER_NODE ==> (#[trigger] r.children@[i]) is None,
    {
        let mut children: Vec<Option<LeafNode>> = Vec::new();
        let mut i: usize = 0;
        while i < ENTRIES_PER_NODE
            invariant
                i <= ENTRIES_PER_NODE,
                children@.len() == i,
                forall|k: int| 0 <= k < i ==> (#[trigger] children@[k]) is None,
            decreases ENTRIES_PER_NODE - i,
        {
            children.push(None);
            i = i + 1;
        }
        MidNode { ppn, children }
    }
}

/// A page table: the root node's slots and the frames of all nodes.
pub struct PageTable {
    root_ppn: usize,
    children: Vec<Option<MidNode>>,
    frames: Vec<usize>,
}

impl PageTable {
    pub closed spec fn wf(&self) -> bool {
        &&& self.children@.len() == ENTRIES_PER_NODE
        &&& forall|i: int|
            0 <= i < ENTRIES_PER_NODE && #[trigger] self.children@[i] is Some ==> {
                let m = self.children@[i]->0;
                &&& m.children@.len() == ENTRIES_PER_NODE
                &&& forall|j: int|
                    0 <= j < ENTRIES_PER_NODE && #[trigger] m.children@[j] is Some
                        ==> m.children@[j]->0.entries@.len() == ENTRIES_PER_NODE
            }
        &&& self.frames@.no_duplicates()
        &&& self.frames@.len() >= 1
        &&& self.frames@[0] == self.root_ppn
    }

    /// The leaf entry of `vpn`, where its last-level node exists.
    pub closed spec fn entry(&self, vpn: usize) -> Option<PageTableEntry> {
        if vpn >= VPN_LIMIT {
            None
        } else {
            match self.children@[vpn_index(vpn, 0)] {
                None => None,
                Some(m) => match m.children@[vpn_index(vpn, 1)] {
                    None => None,
                    Some(l) => Some(l.entries@[vpn_index(vpn, 2)]),
                },
            }
        }
    }

    /// Page numbers with a valid leaf entry, and that entry.
    pub open spec fn mapping(&self) -> Map<usize, PageTableEntry> {
        Map::new(
            |v: usize| self.entry(v) is Some && self.entry(v)->0.spec_is_valid(),
            |v: usize| self.entry(v)->0,
        )
    }

    /// The frames that hold this table's nodes, root first.
    pub closed spec fn frame_list(&self) -> Seq<usize> {
        self.frames@
    }

    pub open spec fn frames(&self) -> Set<usize> {
        self.frame_list().to_set()
    }

    pub closed spec fn root(&self) -> usize {
        self.root_ppn
    }

    /// How many node frames mapping `vpn` still needs.
    pub closed spec fn nodes_needed(&self, vpn: usize) -> int {
        if self.children@[vpn_index(vpn, 0)] is None {
            2
        } else if self.children@[vpn_index(vpn, 0)]->0.children@[vpn_index(vpn, 1)] is None {
            1
        } else {
            0
        }
    }

    /// A table with a root node only; `None` when no frame is left.
    pub fn new(pool: &mut FramePool) -> (r: Option<Self>)
        requires
            old(pool).wf(),
        ensures
            r is None <==> old(pool).allocator@.available() == 0,
            r is None ==> old(pool).allocated_into(final(pool), Set::empty()),
            r is Some ==> {
                let t = r->0;
                &&& t.wf()
                &&& t.mapping().is_empty()
                &&& forall|v: usize| t.entry(v) is None
                &&& t.frame_list() == seq![t.root()]
                &&& old(pool).allocated_into(final(pool), t.frames())
                &&& old(pool).changes_within(final(pool), t.frames())
                &&& final(pool).allocator@.available() == old(pool).allocator@.available() - 1
            },
    {
        match pool.frame_alloc() {
            None => None,
            Some(p) => {
                let mut children: Vec<Option<MidNode>> = Vec::new();
                let mut i: usize = 0;
                while i < ENTRIES_PER_NODE
                    invariant
                        i <= ENTRIES_PER_NODE,
                        children@.len() == i,
                        forall|k: int| 0 <= k < i ==> (#[trigger] children@[k]) is None,
                    decreases ENTRIES_PER_NODE - i,
                {
                    children.push(None);
                    i = i + 1;
                }
                let mut frames: Vec<usize> = Vec::new();
                frames.push(p);
                let t = PageTable { root_ppn: p, children, frames };
                assert(t.mapping() =~= Map::empty());
                assert(t.frames() =~= set![p]) by {
                    assert(t.frame_list() =~= seq![p]);
                    assert(seq![p].to_set() =~= set![p]) by {
                        assert(seq![p][0] == p);
                    }
                }
                Some(t)
            },
        }
    }

    /// The leaf entry of `vpn`, valid or not; never allocates.
    pub fn find_pte(&self, vpn: usize) -> (r: Option<PageTableEntry>)
        requires
            self.wf(),
        ensures
            r == self.entry(vpn),
    {
        if vpn >= VPN_LIMIT {
            return None;
        }
        proof {
            lemma_vpn_indexes(vpn);
        }
        let i0 = vpn / 262144;
        let i1 = (vpn / 512) % 512;
        let i2 = vpn % 512;
        match &self.children[i0] {
            None => None,
            Some(m) => match &m.children[i1] {
                None => None,
                Some(l) => Some(l.entries[i2]),
            },
        }
    }

    /// Installs the leaf entry `vpn -> ppn` with `flags` and the valid bit,
    /// creating missing nodes. Fails only when frames run out, and then
    /// leaves the mapping as it was.
    pub fn map(&mut self, pool: &mut FramePool, vpn: usize, ppn: usize, flags: u8) -> (r: bool)
        requires
            old(self).wf(),
            old(pool).wf(),
            vpn < VPN_LIMIT,
            !old(self).mapping().contains_key(vpn),
            ppn_fits(ppn),
            old(self).frames().subset_of(old(pool).live()),
        ensures
            final(self).wf(),
            r <==> old(pool).allocator@.available() >= old(self).nodes_needed(vpn),
            r ==> final(self).mapping() == old(self).mapping().insert(
                vpn,
                PageTableEntry::spec_new(ppn, with_valid(flags)),
            ),
            !r ==> final(self).mapping() == old(self).mapping(),
            r ==> final(pool).allocator@.available() >= old(pool).allocator@.available() - 2,
            0 <= old(self).nodes_needed(vpn) <= 2,
            final(self).root() == old(self).root(),
            final(self).frame_list().len() >= old(self).frame_list().len(),
            final(self).frame_list().subrange(0, old(self).frame_list().len() as int) == old(self).frame_list(),
            old(pool).allocated_into(final(pool), final(self).frames().difference(old(self).frames())),
            old(pool).changes_within(final(pool), final(self).frames().difference(old(self).frames())),
            final(self).frames().subset_of(final(pool).live()),
    {
        if !self.find_pte_create(pool, vpn) {
            return false;
        }
        proof {
            lemma_vpn_indexes(vpn);
        }
        let ghost before = *self;
        let i0 = vpn / 262144;
        let i1 = (vpn / 512) % 512;
        let i2 = vpn % 512;
        let f = if flags % 2 == 0 {
            flags + 1
        } else {
            flags
        };
        let pte = PageTableEntry::new(ppn, f);
        proof {
            PageTableEntry::lemma_new_fields(ppn, f);
        }
        let mut mid = self.children[i0].take().unwrap();
        let mut leaf = mid.children[i1].take().unwrap();
        leaf.entries.set(i2, pte);
        mid.children.set(i1, Some(leaf));
        self.children.set(i0, Some(mid));
        proof {
            assert forall|v: usize| v != vpn implies #[trigger] self.entry(v) == before.entry(v) by {
                if v < VPN_LIMIT {
                    lemma_vpn_indexes(v);
                }
            }
            assert(self.entry(vpn) == Some(pte));
            assert(self.mapping() =~= old(self).mapping().insert(vpn, PageTableEntry::spec_new(ppn, with_valid(flags))));
            assert(self.frames() =~= before.frames());
        }
        true
    }

    /// Clears the leaf entry of a mapped `vpn`.
    pub fn unmap(&mut self, vpn: usize)
        requires
            old(self).wf(),
            old(self).mapping().contains_key(vpn),
        ensures
            final(self).wf(),
            final(self).mapping() == old(self).mapping().remove(vpn),
            final(self).root() == old(self).root(),
            final(self).frame_list() == old(self).frame_list(),
    {
        proof {
            lemma_vpn_indexes(vpn);
        }
        let i0 = vpn / 262144;
        let i1 = (vpn / 512) % 512;
        let i2 = vpn % 512;
        let mut mid = self.children[i0].take().unwrap();
        let mut leaf = mid.children[i1].take().unwrap();
        leaf.entries.set(i2, PageTableEntry::empty());
        mid.children.set(i1, Some(leaf));
        self.children.set(i0, Some(mid));
        proof {
            assert forall|v: usize| v != vpn implies #[trigger] self.entry(v) == old(self).entry(v) by {
                if v < VPN_LIMIT {
                    lemma_vpn_indexes(v);
                }
            }
            assert(self.mapping() =~= old(self).mapping().remove(vpn));
        }
    }

    /// The `satp` value that makes this table the active translation root.
    pub fn token(&self) -> (r: usize)
        ensures
            r == satp_of(self.root()),
    {
        (SATP_MODE_SV39 | (self.root_ppn as u64 & PPN_MASK)) as usize
    }

    /// The leaf entry of `vpn`, valid or not.
    pub fn translate(&self, vpn: usize) -> (r: Option<PageTableEntry>)
        requires
            self.wf(),
        ensures
            r == self.entry(vpn),
    {
        self.find_pte(vpn)
    }

    /// The physical address of virtual address `va`: the frame of its
    /// page's leaf entry (valid or not) plus the offset in the page; `None`
    /// when the page has no leaf entry or the address does not fit.
    pub fn translate_va(&self, va: usize) -> (r: Option<usize>)
        requires
            self.wf(),
        ensures
            ({
                let vpn = crate::memory_set::spec_va_floor(va);
                let e = self.entry(vpn);
                &&& e is None ==> r is None
                &&& e is Some && e->0.spec_ppn() * 4096 + va % 4096 <= usize::MAX ==> r == Some(
                    (e->0.spec_ppn() * 4096 + va % 4096) as usize,
                )
                &&& e is Some && e->0.spec_ppn() * 4096 + va % 4096 > usize::MAX ==> r is None
            }),
    {
        let vpn = crate::memory_set::va_floor(va);
        match self.find_pte(vpn) {
            None => None,
            Some(pte) => {
                let ppn = pte.ppn();
                let offset = va % 4096;
                if ppn > (usize::MAX - offset) / 4096 {
                    assert(ppn * 4096 + offset > usize::MAX) by (nonlinear_arith)
                        requires ppn > (usize::MAX - offset) / 4096, offset < 4096;
                    None
                } else {
                    assert(ppn * 4096 + offset <= usize::MAX) by (nonlinear_arith)
                        requires ppn <= (usize::MAX - offset) / 4096, offset < 4096;
                    Some(ppn * 4096 + offset)
                }
            },
        }
    }

    /// Gives every node frame back to the pool.
    pub fn release(self, pool: &mut FramePool)
        requires
            self.wf(),
            old(pool).wf(),
            self.frames().subset_of(old(pool).live()),
        ensures
            final(pool).wf(),
            final(pool).live() == old(pool).live().difference(self.frames()),
            final(pool).memory@ == old(pool).memory@,
    {
        let frames = self.frames;
        let mut i: usize = 0;
        while i < frames.len()
            invariant
                i <= frames@.len(),
                frames@ == self.frame_list(),
                frames@.no_duplicates(),
                pool.wf(),
                pool.memory@ == old(pool).memory@,
                pool.live() == old(pool).live().difference(frames@.subrange(0, i as int).to_set()),
                self.frames().subset_of(old(pool).live()),
            decreases frames@.len() - i,
        {
            let p = frames[i];
            proof {
                assert(self.frames().contains(p)) by {
                    assert(frames@[i as int] == p);
                }
                assert(!frames@.subrange(0, i as int).to_set().contains(p)) by {
                    if frames@.subrange(0, i as int).to_set().contains(p) {
                        let k = choose|k: int| 0 <= k < i && frames@.subrange(0, i as int)[k] == p;
                        assert(frames@[k] == frames@[i as int]);
                    }
                }
            }
            pool.frame_dealloc(p);
            i = i + 1;
            proof {
                assert(frames@.subrange(0, i as int) =~= frames@.subrange(0, i - 1).push(p));
                frames@.subrange(0, i - 1).lemma_push_to_set_commute(p);
                assert(pool.live() =~= old(pool).live().difference(frames@.subrange(0, i as int).to_set()));
            }
        }
        assert(frames@.subrange(0, frames@.len() as int) =~= frames@);
    }

    /// Makes sure that the last-level node of `vpn` exists, allocating the
    /// missing nodes zero-filled. Fails only when frames run out.
    fn find_pte_create(&mut self, pool: &mut FramePool, vpn: usize) -> (r: bool)
        requires
            old(self).wf(),
            old(pool).wf(),
            vpn < VPN_LIMIT,
            old(self).frames().subset_of(old(pool).live()),
        ensures
            final(self).wf(),
            r <==> old(pool).allocator@.available() >= old(self).nodes_needed(vpn),
            r ==> final(self).entry(vpn) is Some,
            r ==> final(pool).allocator@.available() == old(pool).allocator@.available() - old(self).nodes_needed(vpn),
            forall|v: usize| #[trigger] old(self).entry(v) is Some ==> final(self).entry(v) == old(self).entry(v),
            forall|v: usize| #[trigger] final(self).entry(v) is Some && old(self).entry(v) is None ==> final(self).entry(v)->0.bits == 0,
            final(self).mapping() == old(self).mapping(),
            final(self).root() == old(self).root(),
            final(self).frame_list().len() >= old(self).frame_list().len(),
            final(self).frame_list().subrange(0, old(self).frame_list().len() as int) == old(self).frame_list(),
            old(pool).allocated_into(final(pool), final(self).frames().difference(old(self).frames())),
            old(pool).changes_within(final(pool), final(self).frames().difference(old(self).frames())),
            final(self).frames().subset_of(final(pool).live()),
    {
        proof {
            lemma_vpn_indexes(vpn);
            old(pool).lemma_allocated_refl();
        }
        let ghost old_self = *self;
        let ghost old_pool = *pool;
        let i0 = vpn / 262144;
        let i1 = (vpn / 512) % 512;
        let ghost new_frames: Set<usize> = Set::empty();
        if self.children[i0].is_none() {
            match pool.frame_alloc() {
                None => {
                    assert(final(self).frames().difference(old(self).frames()) =~= Set::empty());
                    assert(self.mapping() =~= old_self.mapping());
                    return false;
                },
                Some(p) => {
                    let node = MidNode::new(p);
                    self.children.set(i0, Some(node));
                    self.frames.push(p);
                    proof {
                        new_frames = set![p];
                        assert(!old_self.frames().contains(p));
                        assert(self.frames@ == old_self.frames@.push(p));
                        assert(self.frames() =~= old_self.frames().insert(p)) by {
                            assert forall|q: usize| self.frames().contains(q) <==> old_self.frames().contains(q) || q == p by {
                                if self.frames().contains(q) {
                                    let k = choose|k: int| 0 <= k < self.frames@.len() && self.frames@[k] == q;
                                    if k < old_self.frames@.len() {
                                        assert(old_self.frames@[k] == q);
                                    }
                                }
                                if old_self.frames().contains(q) {
                                    let k = choose|k: int| 0 <= k < old_self.frames@.len() && old_self.frames@[k] == q;
                                    assert(self.frames@[k] == q);
                                }
                                if q == p {
                                    assert(self.frames@[self.frames@.len() - 1] == p);
                                }
                            }
                        }
                        assert(self.frames@.no_duplicates()) by {
                            assert forall|a: int, b: int| 0 <= a < b < self.frames@.len() implies self.frames@[a] != self.frames@[b] by {
                                if b == self.frames@.len() - 1 {
                                    assert(old_self.frames().contains(self.frames@[a])) by {
                                        assert(old_self.frames@[a] == self.frames@[a]);
                                    }
                                }
                            }
                        }
                        assert(old_self.frames().union(set![p]) =~= self.frames());
                        assert(self.frames().difference(old_self.frames()) =~= set![p]);
                        assert(old_pool.allocated_into(&*pool, set![p])) by {
                            assert(pool.live() =~= old_pool.live().union(set![p]));
                        }
                        assert(forall|v: usize| #[trigger] old_self.entry(v) is Some ==> vpn_index(v, 0) != vpn_index(vpn, 0));
                        assert(self.mapping() =~= old_self.mapping());
                    }
                },
            }
        }
        let ghost mid_self = *self;
        let ghost mid_pool = *pool;
        let mut mid = self.children[i0].take().unwrap();
        if mid.children[i1].is_none() {
            match pool.frame_alloc() {
                None => {
                    self.children.set(i0, Some(mid));
                    proof {
                        assert(self.children@ =~= mid_self.children@);
                        assert(self.frames() =~= mid_self.frames());
                        assert(self.frames().difference(old_self.frames()) =~= new_frames);
                    }
                    return false;
                },
                Some(p) => {
                    let leaf = LeafNode::new(p);
                    mid.children.set(i1, Some(leaf));
                    self.children.set(i0, Some(mid));
                    self.frames.push(p);
                    proof {
                        assert(!mid_self.frames().contains(p));
                        assert(self.frames() =~= mid_self.frames().insert(p)) by {
                            assert forall|q: usize| self.frames().contains(q) <==> mid_self.frames().contains(q) || q == p by {
                                if self.frames().contains(q) {
                                    let k = choose|k: int| 0 <= k < self.frames@.len() && self.frames@[k] == q;
                                    if k < mid_self.frames@.len() {
                                        assert(mid_self.frames@[k] == q);
                                    }
                                }
                                if mid_self.frames().contains(q) {
                                    let k = choose|k: int| 0 <= k < mid_self.frames@.len() && mid_self.frames@[k] == q;
                                    assert(self.frames@[k] == q);
                                }
                                if q == p {
                                    assert(self.frames@[self.frames@.len() - 1] == p);
                                }
                            }
                        }
                        assert(self.frames@.no_duplicates()) by {
                            assert forall|a: int, b: int| 0 <= a < b < self.frames@.len() implies self.frames@[a] != self.frames@[b] by {
                                if b == self.frames@.len() - 1 {
                                    assert(mid_self.frames().contains(self.frames@[a])) by {
                                        assert(mid_self.frames@[a] == self.frames@[a]);
                                    }
                                }
                            }
                        }
                        assert(mid_pool.allocated_into(&*pool, set![p])) by {
                            assert(pool.live() =~= mid_pool.live().union(set![p]));
                        }
                        old_pool.lemma_allocated_trans(&mid_pool, &*pool, new_frames, set![p]);
                        assert(self.frames().difference(old_self.frames()) =~= new_frames.union(set![p]));
                        assert forall|v: usize| #[trigger] mid_self.entry(v) is Some implies self.entry(v) == mid_self.entry(v) by {
                            lemma_vpn_indexes(v);
                        }
                        assert forall|v: usize| #[trigger] self.entry(v) is Some && mid_self.entry(v) is None implies self.entry(v)->0.bits == 0 by {
                            lemma_vpn_indexes(v);
                        }
                        assert(self.mapping() =~= mid_self.mapping());
                    }
                    return true;
                },
            }
        }
        self.children.set(i0, Some(mid));
        proof {
            assert(self.children@ =~= mid_self.children@);
            assert(self.frames() =~= mid_self.frames());
            assert(self.frames().difference(old_self.frames()) =~= new_frames);
        }
        true
    }
}

} // verus!
