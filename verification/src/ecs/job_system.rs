//! A work-stealing fork-join queue used by the ECS to perform processors' work asynchronously.
//! This is intended to be short-lived. Long running asynchronous tasks should use another method.

use vstd::prelude::*;
use super::work_pool::{busiest, ClearOutcome, PoolLeader, Sweep, ToLeader, ToWorker};
use super::work_pool;
use super::work_queue::Queue;
use super::work_queue;
use crate::memory::allocator::Allocator;
use crate::memory::collections::raw_vec;
use crate::memory::collections::vector::Vector;

verus! {

/// The size in bytes of a job.
pub const JOB_SIZE: usize = 256;

/// The number of words for a function's environment.
pub const ARR_SIZE: usize = (JOB_SIZE / 8) - 1;

/// The number of jobs that a queue or a pool has space for.
pub const MAX_JOBS: usize = 4096;

/// The result of a computation.
pub struct JobResult<R> {
    flag: bool,
    result: Option<R>,
}

impl<R> JobResult<R> {
    /// Whether the result was set.
    pub closed spec fn done(&self) -> bool {
        self.flag
    }

    /// The result, until it is taken.
    pub closed spec fn view(&self) -> Option<R> {
        self.result
    }

    /// A result is there only once it was set.
    pub open spec fn wf(&self) -> bool {
        self@ is Some ==> self.done()
    }

    /// No result yet.
    pub fn new() -> (r: JobResult<R>)
        ensures
            r.wf(),
            !r.done(),
            r@ is None,
    {
        JobResult { flag: false, result: None }
    }

    /// Sets the result, which must not be there yet.
    pub fn set(&mut self, res: R)
        requires
            old(self)@ is None,
        ensures
            final(self).wf(),
            final(self).done(),
            final(self)@ == Some(res),
    {
        // write the result before setting flag to true.
        self.result = Some(res);
        self.flag = true;
    }

    /// Whether the result is fully written.
    pub fn is_done(&self) -> (r: bool)
        ensures
            r == self.done(),
    {
        self.flag
    }

    /// Takes the result, if the computation is done.
    pub fn get(&mut self) -> (r: Option<R>)
        requires
            old(self).wf(),
        ensures
            r == old(self)@,
            final(self).wf(),
            final(self).done() == old(self).done(),
            final(self)@ is None,
    {
        if self.is_done() {
            self.result.take()
        } else {
            None
        }
    }
}

/// A function and the number of the result that it computes.
pub struct CodeImpl<F> {
    func: F,
    dest: usize,
}

/// Whether a function can be made into a job: with its destination it is not too
/// large, nor its alignment requirement too high.
pub open spec fn fits_in_job<F>() -> bool {
    &&& vstd::layout::align_of::<CodeImpl<F>>() <= 8
    &&& vstd::layout::size_of::<CodeImpl<F>>() <= ARR_SIZE * 8
}

/// Whether a function can be made into a job.
pub fn can_be_job<F>() -> (r: bool)
    ensures
        r == fits_in_job::<F>(),
{
    core::mem::align_of::<CodeImpl<F>>() <= 8 && core::mem::size_of::<CodeImpl<F>>() <= ARR_SIZE * 8
}

/// A job is a function of the worker that runs it, with a destination to write the
/// result to after it is called.
pub struct Job<F> {
    code: CodeImpl<F>,
}

impl<F> Job<F> {
    /// The function.
    pub closed spec fn func(&self) -> F {
        self.code.func
    }

    /// The number of the result.
    pub closed spec fn dest(&self) -> usize {
        self.code.dest
    }
}

impl<R, F: FnOnce(Worker) -> R> Job<F> {
    /// Create a new job with a destination to write the result to after it is called.
    pub fn new(f: F, dest: usize) -> (r: Job<F>)
        requires
            fits_in_job::<F>(),
        ensures
            r.func() == f,
            r.dest() == dest,
    {
        Job { code: CodeImpl { func: f, dest } }
    }

    /// Runs the job, and writes its result to the destination.
    pub fn call(self, worker: Worker, results: &mut Vec<JobResult<R>>)
        requires
            call_requires(self.func(), (worker,)),
            self.dest() < old(results)@.len(),
            old(results)@[self.dest() as int]@ is None,
        ensures
            final(results)@.len() == old(results)@.len(),
            final(results)@[self.dest() as int].done(),
            final(results)@[self.dest() as int]@ is Some,
            call_ensures(
                self.func(),
                (worker,),
                final(results)@[self.dest() as int]@->0,
            ),
            forall|i: int|
                0 <= i < old(results)@.len() && i != self.dest() ==> #[trigger] final(results)@[i]
                    == old(results)@[i],
    {
        let f = self.code.func;
        let res = f(worker);
        results[self.code.dest].set(res);
    }
}

/// A pool allocator for jobs: each worker has one.
pub struct Pool<J> {
    buf: Vec<Option<J>>,
    cur: usize,
    last_reset: usize,
}

impl<J> Pool<J> {
    /// The number of jobs that were ever stored.
    pub closed spec fn stored(&self) -> int {
        self.cur as int
    }

    /// The number of jobs that were stored before the last reset.
    pub closed spec fn reset_at(&self) -> int {
        self.last_reset as int
    }

    /// The job in the given slot.
    pub closed spec fn slot(&self, i: int) -> Option<J> {
        self.buf@[i]
    }

    /// No more jobs were stored since the last reset than there are slots.
    pub closed spec fn wf(&self) -> bool {
        &&& self.buf@.len() == MAX_JOBS
        &&& self.last_reset <= self.cur <= self.last_reset + MAX_JOBS
    }

    /// Whether there is a slot for another job, and a number for it.
    pub open spec fn has_room(&self) -> bool {
        self.stored() < self.reset_at() + MAX_JOBS && self.stored() < usize::MAX
    }

    /// A pool without jobs.
    pub fn new() -> (r: Pool<J>)
        ensures
            r.wf(),
            r.stored() == 0,
            r.reset_at() == 0,
            forall|i: int| 0 <= i < MAX_JOBS ==> #[trigger] r.slot(i) is None,
    {
        let mut buf: Vec<Option<J>> = Vec::with_capacity(MAX_JOBS);
        while buf.len() < MAX_JOBS
            invariant
                buf@.len() <= MAX_JOBS,
                forall|i: int| 0 <= i < buf@.len() ==> #[trigger] buf@[i] is None,
            decreases MAX_JOBS - buf@.len(),
        {
            buf.push(None);
        }
        Pool { buf, cur: 0, last_reset: 0 }
    }

    /// Whether there is a slot for another job.
    pub fn can_store(&self) -> (r: bool)
        requires
            self.wf(),
        ensures
            r == self.has_room(),
    {
        self.cur - self.last_reset < MAX_JOBS && self.cur < usize::MAX
    }

    /// Push a job onto the end of the pool and get the number of its slot.
    pub fn store(&mut self, job: J) -> (idx: usize)
        requires
            old(self).wf(),
            old(self).has_room(),
        ensures
            final(self).wf(),
            idx == old(self).stored() % MAX_JOBS as int,
            idx < MAX_JOBS,
            final(self).stored() == old(self).stored() + 1,
            final(self).reset_at() == old(self).reset_at(),
            final(self).slot(idx as int) == Some(job),
            forall|i: int|
                0 <= i < MAX_JOBS && i != idx ==> #[trigger] final(self).slot(i) == old(self).slot(
                    i,
                ),
    {
        let idx: usize = self.cur % MAX_JOBS;
        self.cur = self.cur + 1;
        self.buf.set(idx, Some(job));
        idx
    }

    /// Takes a job out of its slot.
    pub fn take(&mut self, idx: usize) -> (r: Option<J>)
        requires
            old(self).wf(),
            idx < MAX_JOBS,
        ensures
            final(self).wf(),
            r == old(self).slot(idx as int),
            final(self).stored() == old(self).stored(),
            final(self).reset_at() == old(self).reset_at(),
            final(self).slot(idx as int) is None,
            forall|i: int|
                0 <= i < MAX_JOBS && i != idx ==> #[trigger] final(self).slot(i) == old(self).slot(
                    i,
                ),
    {
        let mut job: Option<J> = None;
        core::mem::swap(&mut self.buf[idx], &mut job);
        job
    }

    /// All jobs are done: their slots can be used again.
    pub fn reset(&mut self)
        requires
            old(self).wf(),
        ensures
            final(self).wf(),
            final(self).stored() == old(self).stored(),
            final(self).reset_at() == old(self).stored(),
            forall|i: int|
                0 <= i < MAX_JOBS ==> #[trigger] final(self).slot(i) == old(self).slot(i),
    {
        self.last_reset = self.cur;
    }

    /// As long as no more jobs are stored between resets than there are slots, two
    /// jobs stored since the last reset are in different slots.
    pub proof fn law_slots_are_distinct(&self, a: int, b: int)
        requires
            self.wf(),
            self.reset_at() <= a < b < self.stored(),
        ensures
            a % MAX_JOBS as int != b % MAX_JOBS as int,
    {
    }
}

/// All queues are well formed, and none of the owners is popping.
pub open spec fn queues_ok<J: Copy, A: Allocator>(queues: Seq<Queue<J, A>>) -> bool {
    forall|i: int|
        0 <= i < queues.len() ==> (#[trigger] queues[i]).wf() && queues[i].owner() is Idle
}

/// The lengths of the queues.
pub open spec fn lens_of<J: Copy, A: Allocator>(queues: Seq<Queue<J, A>>) -> Seq<int> {
    queues.map_values(|q: Queue<J, A>| q@.len() as int)
}

/// The queues are the same but for one.
pub open spec fn changed_at<J: Copy, A: Allocator>(
    before: Seq<Queue<J, A>>,
    after: Seq<Queue<J, A>>,
    i: int,
) -> bool {
    &&& after.len() == before.len()
    &&& forall|j: int| 0 <= j < before.len() && j != i ==> #[trigger] after[j] == before[j]
}

/// The queues hold the same jobs.
pub open spec fn same_jobs<J: Copy, A: Allocator>(
    before: Seq<Queue<J, A>>,
    after: Seq<Queue<J, A>>,
) -> bool {
    &&& after.len() == before.len()
    &&& forall|j: int| 0 <= j < before.len() ==> (#[trigger] after[j])@ == before[j]@
}

/// One of the workers of a job system.
#[derive(Clone, Copy, Debug, PartialEq, Eq, Structural)]
pub struct Worker {
    // the index of this worker's queue.
    pub queue: usize,
}

impl Worker {
    /// Try to pop a job or steal one from the queue with the most jobs.
    pub fn get_job<J: Copy, A: Allocator>(&self, queues: &mut Vector<Queue<J, A>, A>) -> (r: Option<J>)
        requires
            self.queue < old(queues)@.len(),
            old(queues).wf(),
            queues_ok(old(queues)@),
        ensures
            final(queues).wf(),
            queues_ok(final(queues)@),
            ({
                let before = old(queues)@;
                let after = final(queues)@;
                let own = self.queue as int;
                if 0 < before[own]@.len() {
                    &&& r == Some(before[own]@.last())
                    &&& after[own]@ == before[own]@.drop_last()
                    &&& changed_at(before, after, own)
                } else {
                    match r {
                        Some(job) => exists|i: int|
                            {
                                &&& #[trigger] work_pool::is_busiest(lens_of(before), -1, i)
                                &&& job == before[i]@[0]
                                &&& after[i]@ == before[i]@.drop_first()
                                &&& forall|j: int|
                                    0 <= j < before.len() && j != i ==> (#[trigger] after[j])@
                                        == before[j]@
                            },
                        None => {
                            &&& forall|i: int|
                                0 <= i < before.len() ==> (#[trigger] before[i])@.len() == 0
                            &&& same_jobs(before, after)
                        },
                    }
                }
            }),
    {
        let own: usize = self.queue;
        let ghost before = queues@;
        if let Some(job) = queues.index_mut(own).pop() {
            assert(changed_at(before, queues@, own as int));
            return Some(job);
        }
        let ghost mid = queues@;
        assert(same_jobs(before, mid));
        let mut lens: Vec<usize> = Vec::with_capacity(queues.len());
        let mut n: usize = 0;
        while n < queues.len()
            invariant
                n <= queues@.len(),
                queues@ == mid,
                queues.wf(),
                queues_ok(mid),
                lens@.len() == n,
                forall|k: int| 0 <= k < n ==> #[trigger] lens@[k] == mid[k]@.len(),
            decreases queues@.len() - n,
        {
            lens.push(queues.as_vec()[n].len());
            n = n + 1;
        }
        proof {
            assert(lens@.map_values(|n: usize| n as int) =~= lens_of(before)) by {
                assert forall|k: int| 0 <= k < before.len() implies lens@[k] as int
                    == #[trigger] lens_of(before)[k] by {
                    assert(mid[k]@ == before[k]@);
                }
            }
        }
        match busiest(&lens, usize::MAX) {
            Some(i) => {
                let ghost at = i as int;
                proof {
                    assert(lens_of(before)[at] == before[at]@.len());
                    assert(mid[at]@ == before[at]@);
                }
                let r = queues.index_mut(i).steal();
                proof {
                    let lens = lens_of(before);
                    assert(work_pool::is_busiest(lens, -1, at)) by {
                        assert(work_pool::is_busiest(lens, usize::MAX as int, at));
                    }
                    assert forall|j: int| 0 <= j < before.len() && j != at implies (
                    #[trigger] queues@[j])@ == before[j]@ by {
                        assert(queues@[j] == mid[j]);
                        assert(mid[j]@ == before[j]@);
                    }
                }
                r
            },
            None => {
                assert forall|i: int| 0 <= i < before.len() implies (#[trigger] before[i])@.len()
                    == 0 by {
                    assert(lens@[i] == 0);
                    assert(mid[i]@ == before[i]@);
                }
                None
            },
        }
    }

    /// One step of a sweep of each queue, including the worker's own: the next job to run,
    /// before the sweep goes on. Once there is none, the sweep is over, and says whether
    /// all queues were observed to be empty.
    ///
    /// Since jobs can spawn new jobs, the end of a sweep is not necessarily an indication
    /// that all queues are now empty. If all queues are empty upon first inspection, and
    /// all workers have observed this state, all jobs have finished.
    pub fn clear_sweep<J: Copy, A: Allocator>(
        &self,
        sweep: &mut Sweep,
        queues: &mut Vector<Queue<J, A>, A>,
    ) -> (r: Option<J>)
        requires
            old(queues).wf(),
            queues_ok(old(queues)@),
            old(sweep).at <= old(queues)@.len(),
        ensures
            final(queues).wf(),
            queues_ok(final(queues)@),
            final(queues)@.len() == old(queues)@.len(),
            ({
                let before = old(queues)@;
                let after = final(queues)@;
                let i = final(sweep).at as int;
                match r {
                    Some(job) => {
                        &&& old(sweep).at <= i < before.len()
                        &&& forall|j: int|
                            old(sweep).at <= j < i ==> (#[trigger] before[j])@.len() == 0
                        &&& 0 < before[i]@.len()
                        &&& job == before[i]@[0]
                        &&& after[i]@ == before[i]@.drop_first()
                        &&& forall|j: int|
                            0 <= j < before.len() && j != i ==> (#[trigger] after[j])@
                                == before[j]@
                        &&& !final(sweep).all_clear
                    },
                    None => {
                        &&& i == before.len()
                        &&& forall|j: int|
                            old(sweep).at <= j < i ==> (#[trigger] before[j])@.len() == 0
                        &&& same_jobs(before, after)
                        &&& final(sweep).all_clear == old(sweep).all_clear
                    },
                }
            }),
    {
        let ghost before = queues@;
        while sweep.at < queues.len()
            invariant
                before == old(queues)@,
                queues.wf(),
                queues_ok(queues@),
                same_jobs(before, queues@),
                sweep.all_clear == old(sweep).all_clear,
                old(sweep).at <= sweep.at <= before.len(),
                forall|j: int| old(sweep).at <= j < sweep.at ==> (#[trigger] before[j])@.len() == 0,
            decreases before.len() - sweep.at,
        {
            let i: usize = sweep.at;
            let ghost mid = queues@;
            assert(mid[i as int]@ == before[i as int]@);
            let found = queues.index_mut(i).steal();
            proof {
                assert forall|j: int| 0 <= j < before.len() && j != i implies (
                #[trigger] queues@[j])@ == before[j]@ by {
                    assert(queues@[j] == mid[j]);
                    assert(mid[j]@ == before[j]@);
                }
            }
            if found.is_some() {
                sweep.all_clear = false;
                return found;
            }
            sweep.at = i + 1;
        }
        None
    }
}

/// The queue was just made: it is empty, and as long as a queue of jobs is.
pub open spec fn is_new<J: Copy, A: Allocator>(q: Queue<J, A>) -> bool {
    &&& q@ == Seq::<J>::empty()
    &&& q.spec_capacity() == MAX_JOBS
    &&& q.has_room()
}

/// Whether a copy of the allocator that is asked for the memory for `cap` values of type `T`
/// can be left in a new state, or else answer with an error.
pub open spec fn copy_can_supply<T, A: Allocator + Clone>(
    alloc: A,
    cap: int,
    answer: Result<A, A::Error>,
) -> bool {
    exists|copy: A| #[trigger]
        cloned(alloc, copy) && raw_vec::can_supply::<T, A>(copy, cap, answer)
}

/// A new queue for one of the workers, with memory from the allocator.
pub fn make_queue<J: Copy, A: Allocator>(alloc: A) -> (r: Result<Queue<J, A>, A::Error>)
    requires
        raw_vec::capacity_allowed::<Option<J>>(MAX_JOBS as int),
    ensures
        r matches Ok(q) ==> q.wf() && q.owner() is Idle && is_new(q),
        match r {
            Ok(q) => raw_vec::can_supply::<Option<J>, A>(
                alloc,
                MAX_JOBS as int,
                Ok(q.spec_alloc()),
            ),
            Err(e) => raw_vec::can_supply::<Option<J>, A>(alloc, MAX_JOBS as int, Err(e)),
        },
{
    proof {
        work_queue::lemma_pow2_4096();
    }
    Queue::new(MAX_JOBS, alloc)
}

/// The job system manages worker threads in a
/// work-stealing fork-join thread pool.
pub struct JobSystem {
    leader: PoolLeader,
}

impl JobSystem {
    /// What the job system knows of its workers.
    pub closed spec fn spec_leader(&self) -> PoolLeader {
        self.leader
    }

    /// The workers run, or are paused.
    pub open spec fn wf(&self) -> bool {
        self.spec_leader().wf()
    }

    /// Creates a job system with `n` worker threads, not including
    /// the local thread, backed by the given allocator, and the message that each worker
    /// must be sent: the workers start at once. There is a queue for the local thread, and
    /// one for each worker.
    pub fn new<J: Copy, A: Allocator + Clone>(n: usize, alloc: A) -> (r: Result<
        (JobSystem, Vector<Queue<J, A>, A>, ToWorker),
        A::Error,
    >)
        requires
            n < usize::MAX,
            raw_vec::capacity_allowed::<Queue<J, A>>(n + 1),
            raw_vec::capacity_allowed::<Option<J>>(MAX_JOBS as int),
        ensures
            r matches Ok((system, queues, msg)) ==> {
                &&& system.wf()
                &&& system.spec_leader().spec_workers() == n
                &&& system.spec_leader().spec_state() == work_pool::State::Running
                &&& !system.spec_leader().is_clearing()
                &&& system.spec_leader().sent() == seq![msg]
                &&& msg == ToWorker::Start
                &&& queues.wf()
                &&& queues@.len() == n + 1
                &&& queues_ok(queues@)
                &&& copy_can_supply::<Queue<J, A>, A>(alloc, n + 1, Ok(queues.spec_alloc()))
                &&& forall|i: int|
                    0 <= i < queues@.len() ==> {
                        &&& is_new(#[trigger] queues@[i])
                        &&& copy_can_supply::<Option<J>, A>(
                            alloc,
                            MAX_JOBS as int,
                            Ok(queues@[i].spec_alloc()),
                        )
                    }
            },
            r matches Err(e) ==> {
                ||| copy_can_supply::<Queue<J, A>, A>(alloc, n + 1, Err(e))
                ||| copy_can_supply::<Option<J>, A>(alloc, MAX_JOBS as int, Err(e))
            },
    {
        let copy = alloc.clone();
        assert(cloned(alloc, copy));
        let mut queues: Vector<Queue<J, A>, A> = match Vector::with_alloc_and_capacity(
            copy,
            n + 1,
        ) {
            Ok(queues) => queues,
            Err(e) => {
                return Err(e);
            },
        };
        while queues.len() < n + 1
            invariant
                n < usize::MAX,
                raw_vec::capacity_allowed::<Option<J>>(MAX_JOBS as int),
                queues.wf(),
                queues.spec_capacity() == raw_vec::initial_capacity::<Queue<J, A>>(n + 1),
                queues@.len() <= n + 1,
                queues_ok(queues@),
                copy_can_supply::<Queue<J, A>, A>(alloc, n + 1, Ok(queues.spec_alloc())),
                forall|i: int|
                    0 <= i < queues@.len() ==> {
                        &&& is_new(#[trigger] queues@[i])
                        &&& copy_can_supply::<Option<J>, A>(
                            alloc,
                            MAX_JOBS as int,
                            Ok(queues@[i].spec_alloc()),
                        )
                    },
            decreases n + 1 - queues@.len(),
        {
            let copy = alloc.clone();
            assert(cloned(alloc, copy));
            match make_queue(copy) {
                Ok(queue) => {
                    // there is space for as many.
                    match queues.push(queue) {
                        Ok(_) => {},
                        Err(e) => {
                            return Err(e);
                        },
                    }
                },
                Err(e) => {
                    return Err(e);
                },
            }
        }
        let mut leader = PoolLeader::paused(n);
        let _ = leader.scope();
        assert(leader.sent() =~= seq![ToWorker::Start]);
        Ok((JobSystem { leader }, queues, ToWorker::Start))
    }

    /// The worker for the thread with the given number.
    pub fn worker(&self, i: usize) -> (r: Worker)
        requires
            i <= self.spec_leader().spec_workers(),
        ensures
            r == (Worker { queue: i }),
    {
        Worker { queue: i }
    }

    /// Begins to tear down the job system. Returns the message that each worker must be
    /// sent.
    pub fn begin_drop(&mut self) -> (r: ToWorker)
        requires
            old(self).wf(),
            old(self).spec_leader().spec_state() == work_pool::State::Running,
            !old(self).spec_leader().is_clearing(),
        ensures
            final(self).wf(),
            final(self).spec_leader().is_clearing(),
            final(self).spec_leader().spec_workers() == old(self).spec_leader().spec_workers(),
            r == ToWorker::Clear,
            final(self).spec_leader().sent() == old(self).spec_leader().sent().push(r),
    {
        let _ = self.leader.synchronize();
        ToWorker::Clear
    }

    /// Tears down the job system once all workers have replied: tells what each worker
    /// must be sent now, or else that a worker failed to clear its queue.
    pub fn finish_drop(self, replies: &Vec<Option<ToLeader>>) -> (r: Result<ToWorker, ClearOutcome>)
        requires
            self.wf(),
            self.spec_leader().is_clearing(),
            replies@.len() == self.spec_leader().spec_workers(),
        ensures
            match r {
                Ok(msg) => {
                    &&& forall|k: int|
                        0 <= k < replies@.len() ==> #[trigger] replies@[k] == Some(
                            ToLeader::Cleared,
                        )
                    &&& msg == ToWorker::Shutdown
                    &&& work_pool::all_expected(self.spec_leader().sent().push(msg))
                },
                Err(outcome) => {
                    &&& outcome != ClearOutcome::Cleared
                    &&& outcome == work_pool::clear_outcome(replies@)
                },
            },
    {
        let mut leader = self.leader;
        match leader.finish_clear(replies) {
            ClearOutcome::Cleared => {
                proof {
                    assert forall|k: int| 0 <= k < replies@.len() implies #[trigger] replies@[k]
                        == Some(ToLeader::Cleared) by {
                        assert(replies@[k] is Some);
                        assert(replies@[k] != Some(ToLeader::Panicked));
                    }
                }
                Ok(leader.shut_down())
            },
            outcome => Err(outcome),
        }
    }
}

/// A function can be made into a job if together with its destination it is aligned to 8 bytes at
/// most and has 248 bytes at most.
pub proof fn law_jobs_are_small<F>(r: bool)
    requires
        call_ensures(can_be_job::<F>, (), r),
    ensures
        r <==> vstd::layout::align_of::<CodeImpl<F>>() <= 8 && vstd::layout::size_of::<CodeImpl<F>>()
            <= 248,
{
}

/// A pool has a slot for another job as long as fewer than 4096 were stored since the last reset,
/// and numbers for them.
pub proof fn law_pools_hold_4096_jobs<J>(p: &Pool<J>, r: bool)
    requires
        p.wf(),
        call_ensures(Pool::<J>::can_store, (p,), r),
    ensures
        r <==> p.stored() - p.reset_at() < 4096 && p.stored() < usize::MAX,
{
}

/// A new queue has space for 4096 jobs, and none in it.
pub proof fn law_new_queues_hold_4096_jobs<J: Copy, A: Allocator>(alloc: A, q: Queue<J, A>)
    requires
        call_ensures(make_queue::<J, A>, (alloc,), Ok::<Queue<J, A>, A::Error>(q)),
    ensures
        q@.len() == 0,
        q.spec_capacity() == 4096,
        q.spec_bottom() < isize::MAX,
{
}

/// A worker takes the job that was pushed last from its own queue. Only if that is empty it takes
/// the job that was pushed first from the queue with the most jobs. All other jobs stay where they
/// are, and a job is found if there is any.
pub proof fn law_own_jobs_come_first<J: Copy, A: Allocator>(worker: &Worker, r: Option<J>)
    ensures
        forall|queues: &mut Vector<Queue<J, A>, A>| #[trigger]
            call_ensures(Worker::get_job::<J, A>, (worker, queues), r) && worker.queue
                < queues@.len() ==> {
                let before = queues@;
                let after = final(queues)@;
                let own = worker.queue as int;
                &&& r is None <==> forall|j: int|
                    0 <= j < before.len() ==> (#[trigger] before[j])@.len() == 0
                &&& r is Some ==> exists|i: int|
                    {
                        &&& 0 <= i < before.len()
                        &&& (#[trigger] before[i])@.len() > 0
                        &&& i == own ==> r == Some(before[i]@.last()) && after[i]@
                            == before[i]@.drop_last()
                        &&& i != own ==> {
                            &&& before[own]@.len() == 0
                            &&& r == Some(before[i]@[0])
                            &&& after[i]@ == before[i]@.drop_first()
                            &&& forall|j: int|
                                0 <= j < before.len() ==> (#[trigger] before[j])@.len()
                                    <= before[i]@.len()
                            &&& forall|j: int|
                                0 <= j < i ==> (#[trigger] before[j])@.len() < before[i]@.len()
                        }
                        &&& forall|j: int|
                            0 <= j < before.len() && j != i ==> (#[trigger] after[j])@
                                == before[j]@
                    }
                &&& r is None ==> forall|j: int|
                    0 <= j < before.len() ==> (#[trigger] after[j])@ == before[j]@
            },
{
    assert forall|queues: &mut Vector<Queue<J, A>, A>|
        #[trigger] call_ensures(Worker::get_job::<J, A>, (worker, queues), r) && worker.queue
            < queues@.len() && r is Some && queues@[worker.queue as int]@.len() == 0 implies {
        let before = queues@;
        let after = final(queues)@;
        let own = worker.queue as int;
        exists|i: int|
            {
                &&& 0 <= i < before.len()
                &&& (#[trigger] before[i])@.len() > 0
                &&& i != own
                &&& r == Some(before[i]@[0])
                &&& after[i]@ == before[i]@.drop_first()
                &&& forall|j: int|
                    0 <= j < before.len() ==> (#[trigger] before[j])@.len() <= before[i]@.len()
                &&& forall|j: int| 0 <= j < i ==> (#[trigger] before[j])@.len() < before[i]@.len()
                &&& forall|j: int|
                    0 <= j < before.len() && j != i ==> (#[trigger] after[j])@ == before[j]@
            }
    } by {
        let before = queues@;
        let after = final(queues)@;
        let i = choose|i: int|
            {
                &&& #[trigger] work_pool::is_busiest(lens_of(before), -1, i)
                &&& r == Some(before[i]@[0])
                &&& after[i]@ == before[i]@.drop_first()
                &&& forall|j: int|
                    0 <= j < before.len() && j != i ==> (#[trigger] after[j])@ == before[j]@
            };
        assert(lens_of(before)[i] == before[i]@.len());
        assert forall|j: int| 0 <= j < before.len() implies (#[trigger] before[j])@.len()
            <= before[i]@.len() by {
            assert(lens_of(before)[j] <= lens_of(before)[i]);
        }
        assert forall|j: int| 0 <= j < i implies (#[trigger] before[j])@.len()
            < before[i]@.len() by {
            assert(lens_of(before)[j] < lens_of(before)[i]);
        }
        assert(before[i]@.len() > 0);
    }
    assert forall|queues: &mut Vector<Queue<J, A>, A>|
        #[trigger] call_ensures(Worker::get_job::<J, A>, (worker, queues), r) && worker.queue
            < queues@.len() && queues@[worker.queue as int]@.len() > 0 implies r is Some by {
        let i = worker.queue as int;
        assert(queues@[i]@.len() > 0);
    }
}

/// A sweep takes the job that was pushed first from the first queue that is not empty, and goes on
/// from there. It is over once there is no job from there on, and is clear if it found none at all.
pub proof fn law_sweeps_go_from_queue_to_queue<J: Copy, A: Allocator>(worker: &Worker, r: Option<J>)
    ensures
        forall|sweep: &mut Sweep, queues: &mut Vector<Queue<J, A>, A>| #[trigger]
            call_ensures(Worker::clear_sweep::<J, A>, (worker, sweep, queues), r) ==> {
                let before = queues@;
                let after = final(queues)@;
                let i = final(sweep).at as int;
                &&& r is None <==> forall|j: int|
                    sweep.at <= j < before.len() ==> (#[trigger] before[j])@.len() == 0
                &&& r is None ==> i == before.len() && final(sweep).all_clear == sweep.all_clear
                &&& r is Some ==> {
                    &&& sweep.at <= i < before.len()
                    &&& forall|j: int| sweep.at <= j < i ==> (#[trigger] before[j])@.len() == 0
                    &&& r == Some(before[i]@[0])
                    &&& before[i]@ == seq![r->0] + after[i]@
                    &&& !final(sweep).all_clear
                }
                &&& forall|j: int|
                    0 <= j < before.len() && (r is None || j != i) ==> (#[trigger] after[j])@
                        == before[j]@
            },
{
    assert forall|sweep: &mut Sweep, queues: &mut Vector<Queue<J, A>, A>|
        #[trigger] call_ensures(Worker::clear_sweep::<J, A>, (worker, sweep, queues), r)
            && r is Some implies {
        let i = final(sweep).at as int;
        queues@[i]@ == seq![r->0] + final(queues)@[i]@ && queues@[i]@.len() > 0
    } by {
        let i = final(sweep).at as int;
        assert(queues@[i]@ =~= seq![r->0] + final(queues)@[i]@);
    }
}

} // verus!
