//! Physical memory as a range of page-sized frames, and the pool that hands
//! frames out zero-filled.
use vstd::prelude::*;
use crate::config::PAGE_SIZE;
use crate::frame_allocator::StackFrameAllocator;

verus! {

/// A page of zero bytes.
pub open spec fn zero_page() -> Seq<u8> {
    Seq::new(PAGE_SIZE as nat, |i: int| 0u8)
}

/// The bytes of a page after `data` is written at `offset`.
pub open spec fn page_with(page: Seq<u8>, offset: int, data: Seq<u8>) -> Seq<u8> {
    Seq::new(
        page.len(),
        |i: int|
            if offset <= i < offset + data.len() {
                data[i - offset]
            } else {
                page[i]
            },
    )
}

/// The physical frames `[base, base + n)`, each holding one page of bytes.
pub struct PhysMemory {
    base: usize,
    pages: Vec<Vec<u8>>,
}

impl View for PhysMemory {
    /// Frame number to page content, for every frame that exists.
    type V = Map<usize, Seq<u8>>;

    closed spec fn view(&self) -> Map<usize, Seq<u8>> {
        Map::new(
            |p: usize| self.base <= p < self.base + self.pages@.len(),
            |p: usize| self.pages@[p - self.base]@,
        )
    }
}

/// Every page of `m` has the size of a page.
pub open spec fn pages_wf(m: Map<usize, Seq<u8>>) -> bool {
    forall|p: usize| #[trigger] m.contains_key(p) ==> m[p].len() == PAGE_SIZE
}

fn zeroed_page() -> (r: Vec<u8>)
    ensures
        r@ == zero_page(),
{
    let mut v: Vec<u8> = Vec::new();
    let mut i: usize = 0;
    while i < PAGE_SIZE
        invariant
            i <= PAGE_SIZE,
            v@ == Seq::new(i as nat, |k: int| 0u8),
        decreases PAGE_SIZE - i,
    {
        v.push(0u8);
        i = i + 1;
    }
    assert(v@ =~= zero_page());
    v
}

impl PhysMemory {
    pub closed spec fn base(&self) -> int {
        self.base as int
    }

    pub closed spec fn wf(&self) -> bool {
        &&& self.base + self.pages@.len() <= usize::MAX
        &&& forall|i: int| 0 <= i < self.pages@.len() ==> (#[trigger] self.pages@[i])@.len() == PAGE_SIZE
    }

    pub proof fn lemma_wf(&self)
        requires
            self.wf(),
        ensures
            pages_wf(self@),
    {
        assert forall|p: usize| #[trigger] self@.contains_key(p) implies self@[p].len() == PAGE_SIZE by {
            assert(self.pages@[p - self.base]@.len() == PAGE_SIZE);
        }
    }

    /// The frames `[base, end)`, all zero-filled.
    pub fn new(base: usize, end: usize) -> (r: Self)
        requires
            base <= end,
        ensures
            r.wf(),
            r@.dom() == Set::new(|p: usize| base <= p < end),
            forall|p: usize| #[trigger] r@.contains_key(p) ==> r@[p] == zero_page(),
    {
        let mut pages: Vec<Vec<u8>> = Vec::new();
        let mut p: usize = base;
        while p < end
            invariant
                base <= p <= end,
                pages@.len() == p - base,
                forall|i: int| 0 <= i < pages@.len() ==> (#[trigger] pages@[i])@ == zero_page(),
            decreases end - p,
        {
            let page = zeroed_page();
            pages.push(page);
            p = p + 1;
        }
        let r = PhysMemory { base, pages };
        assert(r@.dom() =~= Set::new(|p: usize| base <= p < end));
        r
    }

    /// Whether frame `ppn` exists.
    pub fn contains(&self, ppn: usize) -> (r: bool)
        ensures
            r == self@.contains_key(ppn),
    {
        self.base <= ppn && ppn - self.base < self.pages.len()
    }

    /// The byte at `offset` of frame `ppn`.
    pub fn read_byte(&self, ppn: usize, offset: usize) -> (r: u8)
        requires
            self.wf(),
            self@.contains_key(ppn),
            offset < PAGE_SIZE,
        ensures
            r == self@[ppn][offset as int],
    {
        self.pages[ppn - self.base][offset]
    }

    /// Copies of the bytes `[from, to)` of frame `ppn`.
    pub fn read_bytes(&self, ppn: usize, from: usize, to: usize) -> (r: Vec<u8>)
        requires
            self.wf(),
            self@.contains_key(ppn),
            from <= to <= PAGE_SIZE,
        ensures
            r@ == self@[ppn].subrange(from as int, to as int),
    {
        let page = &self.pages[ppn - self.base];
        let mut r: Vec<u8> = Vec::new();
        let mut i: usize = from;
        while i < to
            invariant
                from <= i <= to,
                to <= PAGE_SIZE,
                self.wf(),
                self@.contains_key(ppn),
                page@.len() == PAGE_SIZE,
                page@ == self@[ppn],
                r@ == self@[ppn].subrange(from as int, i as int),
            decreases to - i,
        {
            r.push(page[i]);
            i = i + 1;
            assert(r@ =~= self@[ppn].subrange(from as int, i as int));
        }
        r
    }

    /// Writes `data[from..to]` into frame `ppn` from `offset` on.
    pub fn write_bytes(&mut self, ppn: usize, offset: usize, data: &[u8], from: usize, to: usize)
        requires
            old(self).wf(),
            old(self)@.contains_key(ppn),
            from <= to <= data@.len(),
            offset + (to - from) <= PAGE_SIZE,
        ensures
            final(self).wf(),
            final(self).base() == old(self).base(),
            final(self)@ == old(self)@.insert(
                ppn,
                page_with(old(self)@[ppn], offset as int, data@.subrange(from as int, to as int)),
            ),
    {
        let ghost src = data@.subrange(from as int, to as int);
        let idx = ppn - self.base;
        let old_page = &self.pages[idx];
        let mut page: Vec<u8> = Vec::new();
        let mut i: usize = 0;
        while i < PAGE_SIZE
            invariant
                i <= PAGE_SIZE,
                old(self)@.contains_key(ppn),
                old_page@ == old(self)@[ppn],
                old_page@.len() == PAGE_SIZE,
                from <= to <= data@.len(),
                offset + (to - from) <= PAGE_SIZE,
                src == data@.subrange(from as int, to as int),
                page@ == page_with(old_page@, offset as int, src).subrange(0, i as int),
            decreases PAGE_SIZE - i,
        {
            if offset <= i && i - offset < to - from {
                page.push(data[from + (i - offset)]);
            } else {
                page.push(old_page[i]);
            }
            i = i + 1;
            assert(page@ =~= page_with(old_page@, offset as int, src).subrange(0, i as int));
        }
        assert(page@ =~= page_with(old_page@, offset as int, src));
        self.pages.set(idx, page);
        assert(self@ =~= old(self)@.insert(ppn, page_with(old(self)@[ppn], offset as int, src)));
    }

    /// Fills frame `ppn` with zeros.
    pub fn zero_frame(&mut self, ppn: usize)
        requires
            old(self).wf(),
            old(self)@.contains_key(ppn),
        ensures
            final(self).wf(),
            final(self).base() == old(self).base(),
            final(self)@ == old(self)@.insert(ppn, zero_page()),
    {
        let page = zeroed_page();
        self.pages.set(ppn - self.base, page);
        assert(self@ =~= old(self)@.insert(ppn, zero_page()));
    }

    /// Copies the whole page of frame `src` into frame `dst`.
    pub fn copy_frame(&mut self, dst: usize, src: usize)
        requires
            old(self).wf(),
            old(self)@.contains_key(dst),
            old(self)@.contains_key(src),
        ensures
            final(self).wf(),
            final(self).base() == old(self).base(),
            final(self)@ == old(self)@.insert(dst, old(self)@[src]),
    {
        let page = self.read_bytes(src, 0, PAGE_SIZE);
        assert(page@ =~= self@[src]);
        self.pages.set(dst - self.base, page);
        assert(self@ =~= old(self)@.insert(dst, old(self)@[src]));
    }
}

/// The frame allocator together with the memory it hands out.
pub struct FramePool {
    pub allocator: StackFrameAllocator,
    pub memory: PhysMemory,
}

impl FramePool {
    /// The allocator is well formed and every frame it can hand out exists.
    pub open spec fn wf(&self) -> bool {
        &&& self.allocator@.wf()
        &&& self.memory.wf()
        &&& forall|p: usize|
            self.allocator@.start <= p < self.allocator@.end ==> #[trigger] self.memory@.contains_key(p)
        &&& self.allocator@.end * 1024 + 255 <= usize::MAX
    }

    pub open spec fn live(&self) -> Set<usize> {
        self.allocator@.live()
    }

    /// Live frames exist in memory.
    pub proof fn lemma_live_in_memory(&self, p: usize)
        requires
            self.wf(),
            self.live().contains(p),
        ensures
            self.memory@.contains_key(p),
    {
    }

    /// `later` is this pool after the frames `added` were allocated, with the
    /// content of every other frame left as it was.
    pub open spec fn allocated_into(&self, later: &FramePool, added: Set<usize>) -> bool {
        &&& later.wf()
        &&& later.live() == self.live().union(added)
        &&& self.live().disjoint(added)
        &&& later.memory@.dom() == self.memory@.dom()
        &&& forall|q: usize|
            #[trigger] self.live().contains(q) ==> later.memory@[q] == self.memory@[q]
        &&& later.allocator@.end == self.allocator@.end
    }

    /// Between this pool and `later`, no frame outside `s` changed content.
    pub open spec fn changes_within(&self, later: &FramePool, s: Set<usize>) -> bool {
        forall|q: usize|
            #[trigger] self.memory@.contains_key(q) && !s.contains(q) ==> later.memory@[q] == self.memory@[q]
    }

    /// Content changes compose.
    pub proof fn lemma_changes_trans(&self, mid: &FramePool, later: &FramePool, a: Set<usize>, b: Set<usize>)
        requires
            self.changes_within(mid, a),
            mid.changes_within(later, b),
            mid.memory@.dom() == self.memory@.dom(),
        ensures
            self.changes_within(later, a.union(b)),
    {
        assert forall|q: usize| #[trigger] self.memory@.contains_key(q) && !a.union(b).contains(q) implies later.memory@[q] == self.memory@[q] by {
            assert(mid.memory@.contains_key(q));
        }
    }

    /// Allocation steps compose.
    pub proof fn lemma_allocated_trans(&self, mid: &FramePool, later: &FramePool, a: Set<usize>, b: Set<usize>)
        requires
            self.allocated_into(mid, a),
            mid.allocated_into(later, b),
        ensures
            self.allocated_into(later, a.union(b)),
    {
        assert(later.live() =~= self.live().union(a.union(b)));
        assert forall|q: usize| #[trigger] self.live().contains(q) implies later.memory@[q] == self.memory@[q] by {
            assert(mid.live().contains(q));
        }
    }

    /// Nothing allocated.
    pub proof fn lemma_allocated_refl(&self)
        requires
            self.wf(),
        ensures
            self.allocated_into(self, Set::empty()),
    {
        assert(self.live().union(Set::empty()) =~= self.live());
    }

    /// The frames `[l, r)`, zero-filled, none handed out.
    pub fn new(l: usize, r: usize) -> (pool: Self)
        requires
            l <= r,
            r * 1024 + 255 <= usize::MAX,
        ensures
            pool.wf(),
            pool.live().is_empty(),
            pool.allocator@.available() == r - l,
            pool.memory@.dom() == Set::new(|p: usize| l <= p < r),
            forall|p: usize| #[trigger] pool.memory@.contains_key(p) ==> pool.memory@[p] == zero_page(),
    {
        let memory = PhysMemory::new(l, r);
        let mut allocator = StackFrameAllocator::new();
        allocator.init(l, r);
        FramePool { allocator, memory }
    }

    /// Allocates a frame and fills it with zeros before handing it out.
    pub fn frame_alloc(&mut self) -> (r: Option<usize>)
        requires
            old(self).wf(),
        ensures
            final(self).wf(),
            (final(self).allocator@, r) == old(self).allocator@.alloc_step(),
            r is None <==> old(self).allocator@.available() == 0,
            r is Some ==> {
                let p = r->0;
                &&& !old(self).live().contains(p)
                &&& final(self).live() == old(self).live().insert(p)
                &&& final(self).memory@ == old(self).memory@.insert(p, zero_page())
                &&& old(self).memory@.contains_key(p)
                &&& p * 1024 + 255 <= usize::MAX
                &&& final(self).allocator@.available() == old(self).allocator@.available() - 1
            },
            r is None ==> final(self).memory@ == old(self).memory@,
            r is None ==> old(self).allocated_into(final(self), Set::empty()),
            r is Some ==> old(self).allocated_into(final(self), set![r->0]),
            r is Some ==> old(self).changes_within(final(self), set![r->0]),
    {
        proof {
            crate::frame_allocator::lemma_alloc_fresh(self.allocator@);
        }
        let r = self.allocator.alloc_frame();
        if let Some(p) = r {
            self.memory.zero_frame(p);
            assert(self.live() =~= old(self).live().union(set![p]));
            assert(self.memory@.dom() =~= old(self).memory@.dom());
        } else {
            assert(self.live() =~= old(self).live().union(Set::empty()));
        }
        r
    }

    /// Gives a live frame back.
    pub fn frame_dealloc(&mut self, ppn: usize)
        requires
            old(self).wf(),
            old(self).live().contains(ppn),
        ensures
            final(self).wf(),
            final(self).allocator@ == old(self).allocator@.dealloc_step(ppn),
            final(self).live() == old(self).live().remove(ppn),
            final(self).memory@ == old(self).memory@,
            final(self).allocator@.end == old(self).allocator@.end,
            final(self).allocator@.available() == old(self).allocator@.available() + 1,
    {
        self.allocator.dealloc_frame(ppn);
    }
}

} // verus!
