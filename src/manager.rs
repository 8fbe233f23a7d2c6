//! The ready queue: tasks waiting to run, first in, first out.
use std::collections::VecDeque;
use vstd::prelude::*;

verus! {

/// One scheduling step on a ready queue: the head runs and, yielding,
/// goes back to the tail. Returns the new queue and the task that ran.
pub open spec fn yield_step(q: Seq<usize>) -> (Seq<usize>, usize) {
    (q.drop_first().push(q[0]), q[0])
}

/// `k` scheduling steps: the queue afterwards and the tasks that ran, in order.
pub open spec fn yield_rounds(q: Seq<usize>, k: nat) -> (Seq<usize>, Seq<usize>)
    decreases k,
{
    if k == 0 {
        (q, Seq::empty())
    } else {
        let (q1, ran) = yield_rounds(q, (k - 1) as nat);
        let (q2, t) = yield_step(q1);
        (q2, ran.push(t))
    }
}

/// With the queue's tasks each yielding once, the first `k` steps run the
/// first `k` tasks in queue order and rotate them to the tail.
pub proof fn lemma_yield_rounds(q: Seq<usize>, k: nat)
    requires
        k <= q.len(),
    ensures
        yield_rounds(q, k).1 == q.take(k as int),
        yield_rounds(q, k).0 == q.skip(k as int) + q.take(k as int),
    decreases k,
{
    if k == 0 {
        assert(q.skip(0) + q.take(0) =~= q);
        assert(q.take(0) =~= Seq::<usize>::empty());
    } else {
        lemma_yield_rounds(q, (k - 1) as nat);
        let q1 = q.skip(k - 1) + q.take(k - 1);
        assert(q1[0] == q[k - 1]);
        assert(q.take(k - 1).push(q[k - 1]) =~= q.take(k as int));
        assert(q1.drop_first().push(q1[0]) =~= q.skip(k as int) + q.take(k as int));
    }
}

/// FIFO fairness: with N ready tasks each yielding exactly once, all N run
/// exactly once, in queue order, before any runs a second time, and the
/// queue is back as it was.
pub proof fn lemma_fifo_fairness(q: Seq<usize>)
    requires
        q.no_duplicates(),
    ensures
        yield_rounds(q, q.len()).1 == q,
        yield_rounds(q, q.len()).0 == q,
        yield_rounds(q, q.len()).1.no_duplicates(),
{
    lemma_yield_rounds(q, q.len());
    assert(q.take(q.len() as int) =~= q);
    assert(q.skip(q.len() as int) + q.take(q.len() as int) =~= q);
}

/// The queue of ready tasks, by pid.
pub struct TaskManager {
    ready_queue: VecDeque<usize>,
}

impl View for TaskManager {
    type V = Seq<usize>;

    closed spec fn view(&self) -> Seq<usize> {
        self.ready_queue@
    }
}

impl TaskManager {
    pub fn new() -> (r: Self)
        ensures
            r@ == Seq::<usize>::empty(),
    {
        TaskManager { ready_queue: VecDeque::new() }
    }

    /// Appends a task at the tail.
    pub fn add(&mut self, pid: usize)
        ensures
            final(self)@ == old(self)@.push(pid),
    {
        self.ready_queue.push_back(pid);
    }

    /// Takes the task at the head, if any.
    pub fn fetch(&mut self) -> (r: Option<usize>)
        ensures
            old(self)@.len() == 0 ==> r is None && final(self)@ == old(self)@,
            old(self)@.len() > 0 ==> r == Some(old(self)@[0]) && final(self)@ == old(self)@.drop_first(),
    {
        self.ready_queue.pop_front()
    }

    pub fn len(&self) -> (r: usize)
        ensures
            r == self@.len(),
    {
        self.ready_queue.len()
    }
}

} // verus!
