//! A job queue with two ends.

use vstd::prelude::*;

verus! {

/// The number of jobs that a queue has space for.
pub const MAX_JOBS: usize = 4096;

/// A double-ended job queue: jobs are pushed and popped at its private end, and stolen
/// from the other end.
pub struct Queue<J> {
    buf: Vec<Option<J>>,
    top: usize,
    bottom: usize,
}

impl<J> Queue<J> {
    /// The jobs in the queue, the one to be stolen next in front.
    pub closed spec fn view(&self) -> Seq<J> {
        Seq::new(
            (self.bottom - self.top) as nat,
            |k: int| self.buf@[(self.top + 1 + k) % MAX_JOBS as int]->0,
        )
    }

    /// There is a job in each slot between the ends.
    pub closed spec fn wf(&self) -> bool {
        &&& self.buf@.len() == MAX_JOBS
        &&& self.top <= self.bottom <= self.top + MAX_JOBS
        &&& forall|k: int|
            self.top < k <= self.bottom ==> #[trigger] self.buf@[k % MAX_JOBS as int] is Some
    }

    /// The number of jobs that were stolen.
    pub closed spec fn spec_top(&self) -> int {
        self.top as int
    }

    /// The number of the job that was pushed last.
    pub closed spec fn spec_bottom(&self) -> int {
        self.bottom as int
    }

    /// Whether there is space for another job, and a number for it.
    pub open spec fn has_room(&self) -> bool {
        self.spec_bottom() - self.spec_top() < MAX_JOBS && self.spec_bottom() < usize::MAX
    }

    /// The jobs in the queue are those between its ends.
    pub proof fn lemma_ends(&self)
        requires
            self.wf(),
        ensures
            0 <= self.spec_top() <= self.spec_bottom() <= usize::MAX,
            self@.len() == self.spec_bottom() - self.spec_top(),
            self@.len() <= MAX_JOBS,
    {
    }

    /// A queue without jobs.
    pub fn new() -> (r: Queue<J>)
        ensures
            r.wf(),
            r@ == Seq::<J>::empty(),
            r.spec_top() == 0,
            r.spec_bottom() == 0,
    {
        let mut buf: Vec<Option<J>> = Vec::with_capacity(MAX_JOBS);
        while buf.len() < MAX_JOBS
            invariant
                buf@.len() <= MAX_JOBS,
            decreases MAX_JOBS - buf@.len(),
        {
            buf.push(None);
        }
        let r = Queue { buf, top: 0, bottom: 0 };
        assert(r@ =~= Seq::<J>::empty());
        r
    }

    /// Whether another job can be pushed.
    pub fn can_push(&self) -> (r: bool)
        requires
            self.wf(),
        ensures
            r == self.has_room(),
    {
        self.bottom - self.top < MAX_JOBS && self.bottom < usize::MAX
    }

    /// Push a job onto the private end of the queue.
    pub fn push(&mut self, job: J)
        requires
            old(self).wf(),
            old(self).has_room(),
        ensures
            final(self).wf(),
            final(self)@ == old(self)@.push(job),
            final(self).spec_top() == old(self).spec_top(),
            final(self).spec_bottom() == old(self).spec_bottom() + 1,
    {
        let b: usize = self.bottom + 1;
        self.buf.set(b % MAX_JOBS, Some(job));
        self.bottom = b;
        proof {
            let t = self.top as int;
            assert forall|k: int| t < k < b implies #[trigger] self.buf@[k % MAX_JOBS as int] == old(
                self,
            ).buf@[k % MAX_JOBS as int] by {
                lemma_other_slot(k, b as int);
            }
            assert(self@ =~= old(self)@.push(job));
        }
    }

    /// Pop a job from the private end of the queue.
    pub fn pop(&mut self) -> (r: Option<J>)
        requires
            old(self).wf(),
        ensures
            final(self).wf(),
            match r {
                Some(job) => {
                    &&& 0 < old(self)@.len()
                    &&& job == old(self)@.last()
                    &&& final(self)@ == old(self)@.drop_last()
                    &&& final(self).spec_top() == old(self).spec_top()
                    &&& final(self).spec_bottom() == old(self).spec_bottom() - 1
                },
                None => {
                    &&& old(self)@.len() == 0
                    &&& *final(self) == *old(self)
                },
            },
    {
        let b: usize = self.bottom;
        let t: usize = self.top;
        if b > t {
            // at least one job. decrement bottom
            self.bottom = b - 1;
            let mut slot: Option<J> = None;
            core::mem::swap(&mut self.buf[b % MAX_JOBS], &mut slot);
            proof {
                assert(old(self).buf@[b as int % MAX_JOBS as int] is Some);
                assert forall|k: int| t < k < b implies #[trigger] self.buf@[k % MAX_JOBS as int]
                    == old(self).buf@[k % MAX_JOBS as int] by {
                    lemma_other_slot(k, b as int);
                }
                assert(self@ =~= old(self)@.drop_last());
            }
            slot
        } else {
            // no jobs.
            None
        }
    }

    /// Steal a job from the public end of the queue.
    pub fn steal(&mut self) -> (r: Option<J>)
        requires
            old(self).wf(),
        ensures
            final(self).wf(),
            match r {
                Some(job) => {
                    &&& 0 < old(self)@.len()
                    &&& job == old(self)@[0]
                    &&& final(self)@ == old(self)@.drop_first()
                    &&& final(self).spec_top() == old(self).spec_top() + 1
                    &&& final(self).spec_bottom() == old(self).spec_bottom()
                },
                None => {
                    &&& old(self)@.len() == 0
                    &&& *final(self) == *old(self)
                },
            },
    {
        let b: usize = self.bottom;
        let t: usize = self.top;
        if b > t {
            // at least one job. increment top.
            self.top = t + 1;
            let mut slot: Option<J> = None;
            core::mem::swap(&mut self.buf[(t + 1) % MAX_JOBS], &mut slot);
            proof {
                assert(old(self).buf@[(t + 1) % MAX_JOBS as int] is Some);
                assert forall|k: int| t + 1 < k <= b implies #[trigger] self.buf@[k
                    % MAX_JOBS as int] == old(self).buf@[k % MAX_JOBS as int] by {
                    lemma_other_slot(t + 1, k);
                }
                assert(self@ =~= old(self)@.drop_first());
            }
            slot
        } else {
            None
        }
    }

    /// The number of jobs in the queue.
    pub fn len(&self) -> (r: usize)
        requires
            self.wf(),
        ensures
            r == self@.len(),
    {
        self.bottom - self.top
    }
}

// jobs whose numbers are not too far apart have slots of their own.
proof fn lemma_other_slot(a: int, b: int)
    requires
        a < b < a + MAX_JOBS,
    ensures
        a % MAX_JOBS as int != b % MAX_JOBS as int,
{
}

/// Another job can be pushed as long as there are fewer than 4096, and numbers for them.
pub proof fn law_queues_hold_4096_jobs<J>(q: &Queue<J>, r: bool)
    requires
        q.wf(),
        call_ensures(Queue::<J>::can_push, (q,), r),
    ensures
        r <==> q@.len() < 4096 && q.spec_bottom() < usize::MAX,
{
    q.lemma_ends();
}

/// What is pushed is popped first and stolen last, and pushing and popping leaves the others as
/// they were.
pub proof fn law_both_ends_of_a_queue<J>(job: J, popped: Option<J>, stolen: Option<J>, others: Seq<J>)
    ensures
        forall|q: &mut Queue<J>|
            q@ == others && #[trigger] call_ensures(Queue::<J>::push, (q, job), ()) ==> final(q)@
                == others.push(job),
        forall|q: &mut Queue<J>|
            q@ == others.push(job) && #[trigger] call_ensures(Queue::<J>::pop, (q,), popped)
                ==> popped == Some(job) && final(q)@ == others,
        forall|q: &mut Queue<J>|
            q@ == seq![job] + others && #[trigger] call_ensures(Queue::<J>::steal, (q,), stolen)
                ==> stolen == Some(job) && final(q)@ == others,
{
    assert(others.push(job).drop_last() =~= others);
    assert((seq![job] + others).drop_first() =~= others);
}

} // verus!
