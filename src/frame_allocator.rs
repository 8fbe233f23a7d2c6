//! A stack-like allocator of physical frame numbers.
//!
//! Frames freed most recently are handed out first; when nothing has been
//! freed, the allocator advances a bound through the untouched frames.
use vstd::prelude::*;

verus! {

/// The mathematical state of a [`StackFrameAllocator`].
pub struct FrameAllocState {
    pub start: int,
    pub current: int,
    pub end: int,
    pub recycled: Seq<usize>,
}

impl FrameAllocState {
    pub open spec fn wf(self) -> bool {
        &&& 0 <= self.start <= self.current <= self.end <= usize::MAX
        &&& self.recycled.no_duplicates()
        &&& forall|i: int|
            0 <= i < self.recycled.len() ==> self.start <= #[trigger] self.recycled[i] < self.current
    }

    /// The frames that are currently handed out.
    pub open spec fn live(self) -> Set<usize> {
        Set::new(|p: usize| self.start <= p < self.current && !self.recycled.contains(p))
    }

    /// How many more frames can be handed out before exhaustion.
    pub open spec fn available(self) -> int {
        (self.end - self.current) + self.recycled.len()
    }

    /// One allocation: the most recently freed frame, else the next untouched one.
    pub open spec fn alloc_step(self) -> (FrameAllocState, Option<usize>) {
        if self.recycled.len() > 0 {
            (
                FrameAllocState { recycled: self.recycled.drop_last(), ..self },
                Some(self.recycled.last()),
            )
        } else if self.current == self.end {
            (self, None)
        } else {
            (FrameAllocState { current: self.current + 1, ..self }, Some(self.current as usize))
        }
    }

    /// One release of a frame.
    pub open spec fn dealloc_step(self, ppn: usize) -> FrameAllocState {
        FrameAllocState { recycled: self.recycled.push(ppn), ..self }
    }

    /// Releases every frame of `ppns`, first to last.
    pub open spec fn dealloc_all(self, ppns: Seq<usize>) -> FrameAllocState
        decreases ppns.len(),
    {
        if ppns.len() == 0 {
            self
        } else {
            self.dealloc_step(ppns[0]).dealloc_all(ppns.drop_first())
        }
    }

    /// `n` allocations in a row all succeed.
    pub open spec fn allocs_succeed(self, n: nat) -> bool
        decreases n,
    {
        n == 0 || (self.alloc_step().1 is Some && self.alloc_step().0.allocs_succeed(
            (n - 1) as nat,
        ))
    }
}

/// Allocation hands out a frame that is not live, and only when one is available;
/// the state stays well formed.
pub proof fn lemma_alloc_fresh(s: FrameAllocState)
    requires
        s.wf(),
    ensures
        s.alloc_step().0.wf(),
        s.alloc_step().1 is None <==> s.available() == 0,
        s.alloc_step().0.available() == if s.available() == 0 {
            0
        } else {
            s.available() - 1
        },
        s.alloc_step().1 is Some ==> {
            let p = s.alloc_step().1->0;
            &&& !s.live().contains(p)
            &&& s.alloc_step().0.live() == s.live().insert(p)
            &&& s.start <= p < s.end
        },
        s.alloc_step().1 is None ==> s.alloc_step().0 == s,
{
    let (t, r) = s.alloc_step();
    if s.recycled.len() > 0 {
        let p = s.recycled.last();
        assert(s.recycled.drop_last().no_duplicates());
        assert forall|i: int| 0 <= i < t.recycled.len() implies t.start <= #[trigger] t.recycled[i] < t.current by {
            assert(t.recycled[i] == s.recycled[i]);
        }
        assert(s.recycled.contains(p)) by {
            assert(s.recycled[s.recycled.len() - 1] == p);
        }
        assert(!t.recycled.contains(p)) by {
            if t.recycled.contains(p) {
                let j = choose|j: int| 0 <= j < t.recycled.len() && t.recycled[j] == p;
                assert(s.recycled[j] == s.recycled[s.recycled.len() - 1]);
            }
        }
        assert forall|q: usize| t.live().contains(q) <==> s.live().insert(p).contains(q) by {
            if q != p {
                if t.recycled.contains(q) {
                    let j = choose|j: int| 0 <= j < t.recycled.len() && t.recycled[j] == q;
                    assert(s.recycled[j] == q);
                }
                if s.recycled.contains(q) {
                    let j = choose|j: int| 0 <= j < s.recycled.len() && s.recycled[j] == q;
                    assert(j != s.recycled.len() - 1);
                    assert(t.recycled[j] == q);
                }
            }
        }
        assert(t.live() =~= s.live().insert(p));
    } else if s.current == s.end {
    } else {
        let p = s.current as usize;
        assert(!s.recycled.contains(p)) by {
            if s.recycled.contains(p) {
                let j = choose|j: int| 0 <= j < s.recycled.len() && s.recycled[j] == p;
            }
        }
        assert(t.live() =~= s.live().insert(p));
    }
}

/// Releasing a live frame keeps the state well formed, removes the frame from
/// the live set and makes one more frame available.
pub proof fn lemma_dealloc_step(s: FrameAllocState, ppn: usize)
    requires
        s.wf(),
        s.live().contains(ppn),
    ensures
        s.dealloc_step(ppn).wf(),
        s.dealloc_step(ppn).live() == s.live().remove(ppn),
        s.dealloc_step(ppn).available() == s.available() + 1,
{
    let t = s.dealloc_step(ppn);
    assert forall|i: int| 0 <= i < t.recycled.len() implies t.start <= #[trigger] t.recycled[i] < t.current by {
        if i < s.recycled.len() {
            assert(t.recycled[i] == s.recycled[i]);
        }
    }
    assert(t.recycled.no_duplicates()) by {
        assert forall|i: int, j: int|
            0 <= i < t.recycled.len() && 0 <= j < t.recycled.len() && i != j implies t.recycled[i]
            != t.recycled[j] by {
            if i < s.recycled.len() && j < s.recycled.len() {
            } else if i < s.recycled.len() {
                assert(s.recycled.contains(t.recycled[i]));
            } else {
                assert(s.recycled.contains(t.recycled[j]));
            }
        }
    }
    assert forall|q: usize| t.live().contains(q) <==> s.live().remove(ppn).contains(q) by {
        if q != ppn {
            if t.recycled.contains(q) {
                let j = choose|j: int| 0 <= j < t.recycled.len() && t.recycled[j] == q;
                assert(s.recycled[j] == q);
            }
            if s.recycled.contains(q) {
                let j = choose|j: int| 0 <= j < s.recycled.len() && s.recycled[j] == q;
                assert(t.recycled[j] == q);
            }
        } else {
            assert(t.recycled[t.recycled.len() - 1] == ppn);
        }
    }
    assert(t.live() =~= s.live().remove(ppn));
}

/// Allocation succeeds as many times in a row as there are frames available.
pub proof fn lemma_available_allocs(s: FrameAllocState, n: nat)
    requires
        s.wf(),
        n <= s.available(),
    ensures
        s.allocs_succeed(n),
    decreases n,
{
    if n > 0 {
        lemma_alloc_fresh(s);
        lemma_available_allocs(s.alloc_step().0, (n - 1) as nat);
    }
}

/// After `ppns.len()` distinct live frames are released, at least that many
/// allocations in a row succeed, and none of the released frames is live.
pub proof fn lemma_freed_frames_reusable(s: FrameAllocState, ppns: Seq<usize>)
    requires
        s.wf(),
        ppns.no_duplicates(),
        forall|i: int| 0 <= i < ppns.len() ==> s.live().contains(#[trigger] ppns[i]),
    ensures
        s.dealloc_all(ppns).wf(),
        s.dealloc_all(ppns).available() == s.available() + ppns.len(),
        s.dealloc_all(ppns).live() == s.live().difference(ppns.to_set()),
        s.dealloc_all(ppns).allocs_succeed(ppns.len()),
    decreases ppns.len(),
{
    if ppns.len() == 0 {
        assert(s.live().difference(ppns.to_set()) =~= s.live());
        lemma_available_allocs(s, 0);
    } else {
        let p = ppns[0];
        let rest = ppns.drop_first();
        lemma_dealloc_step(s, p);
        let t = s.dealloc_step(p);
        assert forall|i: int| 0 <= i < rest.len() implies t.live().contains(#[trigger] rest[i]) by {
            assert(rest[i] == ppns[i + 1]);
        }
        assert(rest.no_duplicates()) by {
            assert forall|i: int, j: int|
                0 <= i < rest.len() && 0 <= j < rest.len() && i != j implies rest[i] != rest[j] by {
                assert(rest[i] == ppns[i + 1] && rest[j] == ppns[j + 1]);
            }
        }
        lemma_freed_frames_reusable(t, rest);
        assert(t.live().difference(rest.to_set()) =~= s.live().difference(ppns.to_set())) by {
            assert forall|q: usize| ppns.to_set().contains(q) <==> (q == p || rest.to_set().contains(q)) by {
                if ppns.to_set().contains(q) {
                    let j = choose|j: int| 0 <= j < ppns.len() && ppns[j] == q;
                    if j > 0 {
                        assert(rest[j - 1] == q);
                    }
                }
                if rest.to_set().contains(q) {
                    let j = choose|j: int| 0 <= j < rest.len() && rest[j] == q;
                    assert(ppns[j + 1] == q);
                }
                if q == p {
                    assert(ppns[0] == q);
                }
            }
        }
        lemma_available_allocs(s.dealloc_all(ppns), ppns.len());
    }
}

/// An allocator of physical frame numbers; see the module documentation.
pub struct StackFrameAllocator {
    start: usize,
    current: usize,
    end: usize,
    recycled: Vec<usize>,
}

impl View for StackFrameAllocator {
    type V = FrameAllocState;

    closed spec fn view(&self) -> FrameAllocState {
        FrameAllocState {
            start: self.start as int,
            current: self.current as int,
            end: self.end as int,
            recycled: self.recycled@,
        }
    }
}

impl StackFrameAllocator {
    /// An allocator with an empty range.
    pub fn new() -> (r: Self)
        ensures
            r@.wf(),
            r@.start == 0 && r@.current == 0 && r@.end == 0,
            r@.recycled.len() == 0,
            r@.live().is_empty(),
    {
        let r = StackFrameAllocator { start: 0, current: 0, end: 0, recycled: Vec::new() };
        assert(r@.live() =~= Set::empty());
        r
    }

    /// Hands out the frames `[l, r)`; nothing may be live yet.
    pub fn init(&mut self, l: usize, r: usize)
        requires
            l <= r,
        ensures
            final(self)@ == (FrameAllocState {
                start: l as int,
                current: l as int,
                end: r as int,
                recycled: Seq::empty(),
            }),
            final(self)@.wf(),
            final(self)@.live().is_empty(),
    {
        self.start = l;
        self.current = l;
        self.end = r;
        self.recycled = Vec::new();
        assert(self@.live() =~= Set::empty());
    }

    /// Returns a frame that is not live, or `None` when all are handed out.
    pub fn alloc_frame(&mut self) -> (r: Option<usize>)
        requires
            old(self)@.wf(),
        ensures
            (final(self)@, r) == old(self)@.alloc_step(),
            final(self)@.wf(),
            r is None <==> old(self)@.available() == 0,
            r is Some ==> !old(self)@.live().contains(r->0) && final(self)@.live() == old(
                self,
            )@.live().insert(r->0),
    {
        proof {
            lemma_alloc_fresh(self@);
        }
        if let Some(ppn) = self.recycled.pop() {
            Some(ppn)
        } else if self.current == self.end {
            None
        } else {
            self.current = self.current + 1;
            Some(self.current - 1)
        }
    }

    /// Takes back a live frame.
    pub fn dealloc_frame(&mut self, ppn: usize)
        requires
            old(self)@.wf(),
            old(self)@.live().contains(ppn),
        ensures
            final(self)@ == old(self)@.dealloc_step(ppn),
            final(self)@.wf(),
            final(self)@.live() == old(self)@.live().remove(ppn),
            final(self)@.available() == old(self)@.available() + 1,
    {
        proof {
            lemma_dealloc_step(self@, ppn);
        }
        self.recycled.push(ppn);
    }
}

} // verus!
