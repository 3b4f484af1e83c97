//! A work-stealing fork-join pool used by the ECS to perform processors' work asynchronously.
//! This is intended to be short-lived. Long running asynchronous tasks should use another method.
//!
//! The pool consists of a leader and of workers. What each of them does next is
//! decided here, from its state and from the messages it receives.

use vstd::prelude::*;
use crate::util::work_pool::queue::Queue;

verus! {

/// Messages to workers.
#[derive(Clone, Copy, Debug, PartialEq, Eq, Structural)]
pub enum ToWorker {
    /// Start running jobs.
    Start,
    /// Run all jobs to completion, then reset the pool.
    Clear,
    /// All workers are clear and no jobs are running. Safe to tear down pools.
    Shutdown,
}

/// Messages to the leader from workers.
#[derive(Clone, Copy, Debug, PartialEq, Eq, Structural)]
pub enum ToLeader {
    /// Done clearing. Will wait for start or shutdown.
    Cleared,
    /// For propagating panics.
    Panicked,
}

/// Finite state machine for controlling workers.
#[derive(Clone, Copy, Debug, PartialEq, Eq, Structural)]
pub enum State {
    /// Running jobs normally. Waiting for state change.
    Running,
    /// Paused, waiting for start or shutdown message.
    Paused,
}

/// What a worker gets when it looks for a message.
#[derive(Clone, Copy, Debug, PartialEq, Eq, Structural)]
pub enum Event {
    /// A message of the leader.
    Message(ToWorker),
    /// No message is there yet.
    Nothing,
    /// The leader is gone.
    HungUp,
}

/// What a worker does next.
#[derive(Clone, Copy, Debug, PartialEq, Eq, Structural)]
pub enum Action {
    /// Run the next job, if there is one.
    RunNext,
    /// Run all jobs to completion, and tell the leader.
    Clear,
    /// Look for a message.
    Wait,
    /// Stop.
    Stop,
    /// Panic: the leader hung up on the worker.
    FailHungUp,
    /// Panic: the leader sent a message that the worker does not expect now.
    FailUnexpected,
}

/// What a worker does next, and the state it is in afterwards. Only a paused worker
/// can be started or shut down, and only a running one can be told to clear.
pub open spec fn spec_worker_step(state: State, event: Event) -> (State, Action) {
    match (state, event) {
        (_, Event::HungUp) => (state, Action::FailHungUp),
        (State::Running, Event::Message(ToWorker::Clear)) => (State::Paused, Action::Clear),
        (State::Running, Event::Message(_)) => (state, Action::FailUnexpected),
        (State::Running, Event::Nothing) => (state, Action::RunNext),
        (State::Paused, Event::Message(ToWorker::Start)) => (State::Running, Action::Wait),
        (State::Paused, Event::Message(ToWorker::Shutdown)) => (state, Action::Stop),
        (State::Paused, Event::Message(_)) => (state, Action::FailUnexpected),
        (State::Paused, Event::Nothing) => (state, Action::Wait),
    }
}

/// Decides what a worker does next.
pub fn worker_step(state: State, event: Event) -> (r: (State, Action))
    ensures
        r == spec_worker_step(state, event),
{
    match event {
        Event::HungUp => (state, Action::FailHungUp),
        Event::Nothing => match state {
            // check for state change, otherwise run the next job
            State::Running => (state, Action::RunNext),
            // wait for start or shutdown
            State::Paused => (state, Action::Wait),
        },
        Event::Message(msg) => match state {
            State::Running => match msg {
                ToWorker::Clear => (State::Paused, Action::Clear),
                _ => (state, Action::FailUnexpected),
            },
            State::Paused => match msg {
                ToWorker::Start => (State::Running, Action::Wait),
                ToWorker::Shutdown => (state, Action::Stop),
                ToWorker::Clear => (state, Action::FailUnexpected),
            },
        },
    }
}

/// The state of a worker after it has received the given messages; `None` if it has
/// stopped, or if a message was not expected.
pub open spec fn state_after(msgs: Seq<ToWorker>) -> Option<State>
    decreases msgs.len(),
{
    if msgs.len() == 0 {
        Some(State::Paused)
    } else {
        match state_after(msgs.drop_last()) {
            None => None,
            Some(state) => {
                let (next, action) = spec_worker_step(state, Event::Message(msgs.last()));
                if action == Action::FailUnexpected || action == Action::Stop {
                    None
                } else {
                    Some(next)
                }
            },
        }
    }
}

/// The worker expects each of the messages when it receives it.
pub open spec fn all_expected(msgs: Seq<ToWorker>) -> bool {
    forall|k: int|
        0 <= k < msgs.len() ==> {
            let state = #[trigger] state_after(msgs.take(k));
            &&& state is Some
            &&& spec_worker_step(state->0, Event::Message(msgs[k])).1 != Action::FailUnexpected
        }
}

// one more message that the worker expects.
proof fn lemma_one_more(msgs: Seq<ToWorker>, msg: ToWorker)
    requires
        all_expected(msgs),
        state_after(msgs) is Some,
        spec_worker_step(state_after(msgs)->0, Event::Message(msg)).1 != Action::FailUnexpected,
    ensures
        all_expected(msgs.push(msg)),
        msg != ToWorker::Shutdown ==> state_after(msgs.push(msg)) == Some(
            spec_worker_step(state_after(msgs)->0, Event::Message(msg)).0,
        ),
{
    let more = msgs.push(msg);
    assert(more.drop_last() =~= msgs);
    assert forall|k: int| 0 <= k < more.len() implies {
        let state = #[trigger] state_after(more.take(k));
        &&& state is Some
        &&& spec_worker_step(state->0, Event::Message(more[k])).1 != Action::FailUnexpected
    } by {
        if k < msgs.len() {
            assert(more.take(k) =~= msgs.take(k));
            assert(state_after(msgs.take(k)) is Some);
        } else {
            assert(more.take(k) =~= msgs);
        }
    }
}

/// Whether queue `i` is the one to steal from: of those that are not the worker's own
/// it has the most jobs, and is the first that has as many.
pub open spec fn is_busiest(lens: Seq<int>, own: int, i: int) -> bool {
    &&& 0 <= i < lens.len()
    &&& i != own
    &&& 0 < lens[i]
    &&& forall|j: int| 0 <= j < lens.len() && j != own ==> #[trigger] lens[j] <= lens[i]
    &&& forall|j: int| 0 <= j < i && j != own ==> #[trigger] lens[j] < lens[i]
}

/// No queue but the worker's own has jobs.
pub open spec fn others_idle(lens: Seq<usize>, own: int) -> bool {
    forall|j: int| 0 <= j < lens.len() && j != own ==> #[trigger] lens[j] == 0
}

/// Finds the queue with the most work, other than the worker's own.
pub fn busiest(lens: &Vec<usize>, own: usize) -> (r: Option<usize>)
    ensures
        match r {
            Some(i) => is_busiest(lens@.map_values(|n: usize| n as int), own as int, i as int),
            None => forall|j: int|
                0 <= j < lens@.len() && j != own ==> #[trigger] lens@[j] == 0,
        },
        r is None ==> others_idle(lens@, own as int),
{
    let mut most_work: usize = 0;
    let mut most_idx: Option<usize> = None;
    let mut idx: usize = 0;
    while idx < lens.len()
        invariant
            idx <= lens@.len(),
            forall|j: int| 0 <= j < idx && j != own ==> #[trigger] lens@[j] <= most_work,
            match most_idx {
                Some(i) => {
                    &&& i < idx
                    &&& i != own
                    &&& 0 < most_work == lens@[i as int]
                    &&& forall|j: int| 0 <= j < i && j != own ==> #[trigger] lens@[j] < most_work
                },
                None => most_work == 0,
            },
        decreases lens@.len() - idx,
    {
        let work: usize = lens[idx];
        if work > most_work && idx != own {
            most_work = work;
            most_idx = Some(idx);
        }
        idx = idx + 1;
    }
    most_idx
}

/// All queues are well formed.
pub open spec fn queues_ok<J>(queues: Seq<Queue<J>>) -> bool {
    forall|i: int| 0 <= i < queues.len() ==> (#[trigger] queues[i]).wf()
}

/// The lengths of the queues.
pub open spec fn lens_of<J>(queues: Seq<Queue<J>>) -> Seq<int> {
    queues.map_values(|q: Queue<J>| q@.len() as int)
}

/// The queues are the same but for one.
pub open spec fn changed_at<J>(before: Seq<Queue<J>>, after: Seq<Queue<J>>, i: int) -> bool {
    &&& after.len() == before.len()
    &&& forall|j: int| 0 <= j < before.len() && j != i ==> #[trigger] after[j] == before[j]
}

/// One of the workers of a pool.
#[derive(Clone, Copy, Debug, PartialEq, Eq, Structural)]
pub struct Worker {
    // the index of this worker's queue and pool.
    pub idx: usize,
}

impl Worker {
    /// Pop a job from the worker's queue, or steal one from the queue with the most work.
    pub fn pop_or_steal<J>(&self, queues: &mut Vec<Queue<J>>) -> (r: Option<J>)
        requires
            self.idx < old(queues)@.len(),
            queues_ok(old(queues)@),
        ensures
            queues_ok(final(queues)@),
            ({
                let before = old(queues)@;
                let after = final(queues)@;
                let own = self.idx as int;
                if 0 < before[own]@.len() {
                    &&& r == Some(before[own]@.last())
                    &&& after[own]@ == before[own]@.drop_last()
                    &&& changed_at(before, after, own)
                } else {
                    match r {
                        Some(job) => exists|i: int|
                            {
                                &&& #[trigger] is_busiest(lens_of(before), own, i)
                                &&& job == before[i]@[0]
                                &&& after[i]@ == before[i]@.drop_first()
                                &&& changed_at(before, after, i)
                            },
                        None => {
                            &&& forall|i: int|
                                0 <= i < before.len() ==> (#[trigger] before[i])@.len() == 0
                            &&& after == before
                        },
                    }
                }
            }),
    {
        let own: usize = self.idx;
        let ghost before = queues@;
        if let Some(job) = queues[own].pop() {
            assert(changed_at(before, queues@, own as int));
            return Some(job);
        }
        assert(queues@ =~= before);
        let lens = lens_of_queues(queues);
        assert(lens@.map_values(|n: usize| n as int) =~= lens_of(before));
        match busiest(&lens, own) {
            Some(i) => {
                let ghost at = i as int;
                assert(lens_of(before)[at] == before[at]@.len());
                let r = queues[i].steal();
                proof {
                    assert(changed_at(before, queues@, at));
                    assert(is_busiest(lens_of(before), own as int, at));
                }
                r
            },
            None => {
                assert forall|i: int| 0 <= i < before.len() implies (#[trigger] before[i])@.len()
                    == 0 by {
                    if i != own {
                        assert(lens@[i] == 0);
                    }
                }
                None
            },
        }
    }
}

// how many jobs there are in each queue.
fn lens_of_queues<J>(queues: &Vec<Queue<J>>) -> (r: Vec<usize>)
    requires
        queues_ok(queues@),
    ensures
        r@.len() == queues@.len(),
        forall|i: int| 0 <= i < r@.len() ==> #[trigger] r@[i] == queues@[i]@.len(),
{
    let mut r: Vec<usize> = Vec::with_capacity(queues.len());
    let mut i: usize = 0;
    while i < queues.len()
        invariant
            i <= queues@.len(),
            queues_ok(queues@),
            r@.len() == i,
            forall|k: int| 0 <= k < i ==> #[trigger] r@[k] == queues@[k]@.len(),
        decreases queues@.len() - i,
    {
        r.push(queues[i].len());
        i = i + 1;
    }
    r
}

/// A sweep through all the queues, which runs all jobs that it finds and says whether
/// all queues were observed to be empty.
#[derive(Clone, Copy, Debug, PartialEq, Eq, Structural)]
pub struct Sweep {
    /// The queue that is being emptied.
    pub at: usize,
    /// Whether no job was found so far.
    pub all_clear: bool,
}

impl Sweep {
    /// A sweep that has not begun.
    pub fn new() -> (r: Sweep)
        ensures
            r == (Sweep { at: 0, all_clear: true }),
    {
        Sweep { at: 0, all_clear: true }
    }

    /// The next job that the worker finds, to be run before the sweep goes on. Once
    /// there is none, the sweep is over.
    pub fn next_job<J>(&mut self, worker: Worker, queues: &mut Vec<Queue<J>>) -> (r: Option<J>)
        requires
            queues_ok(old(queues)@),
            old(self).at <= old(queues)@.len(),
        ensures
            queues_ok(final(queues)@),
            ({
                let before = old(queues)@;
                let after = final(queues)@;
                let i = final(self).at as int;
                match r {
                    Some(job) => {
                        &&& old(self).at <= i < before.len()
                        &&& forall|j: int|
                            old(self).at <= j < i ==> (#[trigger] before[j])@.len() == 0
                        &&& 0 < before[i]@.len()
                        &&& changed_at(before, after, i)
                        &&& if i == worker.idx {
                            job == before[i]@.last() && after[i]@ == before[i]@.drop_last()
                        } else {
                            job == before[i]@[0] && after[i]@ == before[i]@.drop_first()
                        }
                        &&& !final(self).all_clear
                    },
                    None => {
                        &&& i == before.len()
                        &&& forall|j: int|
                            old(self).at <= j < i ==> (#[trigger] before[j])@.len() == 0
                        &&& after == before
                        &&& final(self).all_clear == old(self).all_clear
                    },
                }
            }),
    {
        let ghost before = queues@;
        while self.at < queues.len()
            invariant
                queues@ == before,
                before == old(queues)@,
                queues_ok(before),
                old(self).at <= self.at <= before.len(),
                self.all_clear == old(self).all_clear,
                forall|j: int| old(self).at <= j < self.at ==> (#[trigger] before[j])@.len() == 0,
            decreases before.len() - self.at,
        {
            let i: usize = self.at;
            let found = if i != worker.idx {
                queues[i].steal()
            } else {
                queues[i].pop()
            };
            if found.is_some() {
                self.all_clear = false;
                assert(changed_at(before, queues@, i as int));
                return found;
            }
            assert(queues@ =~= before);
            self.at = i + 1;
        }
        None
    }
}

/// A job spawner associated with a specific scope: it counts the jobs of the scope
/// that are not done.
#[derive(Clone, Copy, Debug, PartialEq, Eq, Structural)]
pub struct Spawner {
    /// The worker whose queue takes the jobs.
    pub worker: Worker,
    /// The number of jobs that are not done.
    pub counter: usize,
}

impl Spawner {
    /// A spawner without jobs.
    pub fn new(worker: Worker) -> (r: Spawner)
        ensures
            r == (Spawner { worker, counter: 0 }),
    {
        Spawner { worker, counter: 0 }
    }

    /// Execute a job: it goes to the worker's queue.
    pub fn execute<J>(&mut self, queue: &mut Queue<J>, job: J)
        requires
            old(queue).wf(),
            old(queue).has_room(),
            old(self).counter < usize::MAX,
        ensures
            final(queue).wf(),
            final(queue)@ == old(queue)@.push(job),
            final(queue).spec_top() == old(queue).spec_top(),
            final(queue).spec_bottom() == old(queue).spec_bottom() + 1,
            *final(self) == (Spawner {
                counter: (old(self).counter + 1) as usize,
                ..*old(self)
            }),
    {
        // increment the counter first just in case, somehow, this job
        // gets grabbed before we have a chance to increment it,
        // and we wait for all jobs to complete.
        self.counter = self.counter + 1;
        queue.push(job);
    }

    /// A job of the scope is done.
    pub fn job_done(&mut self)
        requires
            0 < old(self).counter,
        ensures
            *final(self) == (Spawner {
                counter: (old(self).counter - 1) as usize,
                ..*old(self)
            }),
    {
        self.counter = self.counter - 1;
    }

    /// Whether all jobs submitted in the scope are complete.
    pub fn is_complete(&self) -> (r: bool)
        ensures
            r == (self.counter == 0),
    {
        self.counter == 0
    }

    /// Construct a new spawning scope smaller than the one this spawner resides in.
    pub fn scope(&self) -> (r: Spawner)
        ensures
            r == (Spawner { worker: self.worker, counter: 0 }),
    {
        Spawner::new(self.worker)
    }
}

/// What became of the leader's request to clear.
#[derive(Clone, Copy, Debug, PartialEq, Eq, Structural)]
pub enum ClearOutcome {
    /// All workers are clear.
    Cleared,
    /// A worker panicked. The panic is to be propagated.
    Panicked,
    /// A worker hung up on the pool.
    HungUp,
}

/// What the replies of the workers come to.
pub open spec fn clear_outcome(replies: Seq<Option<ToLeader>>) -> ClearOutcome {
    if exists|k: int| 0 <= k < replies.len() && (#[trigger] replies[k]) is None {
        ClearOutcome::HungUp
    } else if exists|k: int|
        0 <= k < replies.len() && (#[trigger] replies[k]) == Some(ToLeader::Panicked) {
        ClearOutcome::Panicked
    } else {
        ClearOutcome::Cleared
    }
}

/// The leader of a pool of workers in a work-stealing fork-join thread pool.
pub struct PoolLeader {
    workers: usize,
    state: State,
    clearing: bool,
    // the messages sent to each worker so far.
    sent: Ghost<Seq<ToWorker>>,
}

impl PoolLeader {
    /// The number of worker threads.
    pub closed spec fn spec_workers(&self) -> usize {
        self.workers
    }

    /// The messages sent to each worker so far.
    pub closed spec fn sent(&self) -> Seq<ToWorker> {
        self.sent@
    }

    /// The state that the workers are in once they have received what was sent.
    pub closed spec fn spec_state(&self) -> State {
        self.state
    }

    /// Whether the leader waits for the workers to clear.
    pub closed spec fn is_clearing(&self) -> bool {
        self.clearing
    }

    /// The workers expect what was sent, and come to be in the leader's state.
    pub closed spec fn wf(&self) -> bool {
        &&& all_expected(self.sent@)
        &&& state_after(self.sent@) == Some(
            if self.clearing {
                State::Paused
            } else {
                self.state
            },
        )
        &&& self.clearing ==> self.state == State::Running
    }

    // the leader of `n` worker threads that are paused.
    pub(crate) fn paused(n: usize) -> (r: PoolLeader)
        ensures
            r.wf(),
            r.spec_workers() == n,
            r.spec_state() == State::Paused,
            !r.is_clearing(),
            r.sent() == Seq::<ToWorker>::empty(),
    {
        PoolLeader { workers: n, state: State::Paused, clearing: false, sent: Ghost(Seq::empty()) }
    }

    /// The leader of a pool with `n` worker threads, which are paused, and the queues of
    /// the pool: one for the leader, and one for each worker thread.
    pub fn new<J>(n: usize) -> (r: (PoolLeader, Vec<Queue<J>>))
        requires
            n < usize::MAX,
        ensures
            r.0.wf(),
            r.0.spec_workers() == n,
            r.0.spec_state() == State::Paused,
            !r.0.is_clearing(),
            r.0.sent() == Seq::<ToWorker>::empty(),
            r.1@.len() == n + 1,
            queues_ok(r.1@),
            forall|i: int| 0 <= i < r.1@.len() ==> (#[trigger] r.1@[i])@ == Seq::<J>::empty(),
    {
        let mut queues: Vec<Queue<J>> = Vec::new();
        while queues.len() < n + 1
            invariant
                n < usize::MAX,
                queues@.len() <= n + 1,
                queues_ok(queues@),
                forall|i: int|
                    0 <= i < queues@.len() ==> (#[trigger] queues@[i])@ == Seq::<J>::empty(),
            decreases n + 1 - queues@.len(),
        {
            queues.push(Queue::new());
        }
        (PoolLeader::paused(n), queues)
    }

    /// The workers of the pool: the leader itself is the first, and each of the others
    /// gets a thread.
    pub fn worker(&self, i: usize) -> (r: Worker)
        requires
            i <= self.spec_workers(),
        ensures
            r == (Worker { idx: i }),
    {
        Worker { idx: i }
    }

    /// Begins a new spawning scope. Returns the message that each worker must be sent.
    pub fn scope(&mut self) -> (r: Option<ToWorker>)
        requires
            old(self).wf(),
            !old(self).is_clearing(),
        ensures
            final(self).wf(),
            final(self).spec_workers() == old(self).spec_workers(),
            final(self).spec_state() == State::Running,
            !final(self).is_clearing(),
            if old(self).spec_state() == State::Running {
                r is None && final(self).sent() == old(self).sent()
            } else {
                &&& r == Some(ToWorker::Start)
                &&& final(self).sent() == old(self).sent().push(ToWorker::Start)
            },
    {
        if self.state != State::Running {
            self.state = State::Running;
            proof {
                lemma_one_more(self.sent@, ToWorker::Start);
                self.sent = Ghost(self.sent@.push(ToWorker::Start));
            }
            Some(ToWorker::Start)
        } else {
            None
        }
    }

    /// Begins to finish all jobs. Returns the message that each worker must be sent; if
    /// there is one, the leader runs all jobs to completion, and then hands the replies
    /// of the workers to `finish_clear`.
    pub fn synchronize(&mut self) -> (r: Option<ToWorker>)
        requires
            old(self).wf(),
            !old(self).is_clearing(),
        ensures
            final(self).wf(),
            final(self).spec_workers() == old(self).spec_workers(),
            final(self).spec_state() == old(self).spec_state(),
            if old(self).spec_state() == State::Paused {
                &&& r is None
                &&& !final(self).is_clearing()
                &&& final(self).sent() == old(self).sent()
            } else {
                &&& r == Some(ToWorker::Clear)
                &&& final(self).is_clearing()
                &&& final(self).sent() == old(self).sent().push(ToWorker::Clear)
            },
    {
        if self.state == State::Paused {
            return None;
        }
        self.clearing = true;
        proof {
            lemma_one_more(self.sent@, ToWorker::Clear);
            self.sent = Ghost(self.sent@.push(ToWorker::Clear));
        }
        Some(ToWorker::Clear)
    }

    /// What the leader makes of the replies of all workers to a request to clear: `None`
    /// stands for a worker that hung up. The pool is paused once all workers are clear.
    pub fn finish_clear(&mut self, replies: &Vec<Option<ToLeader>>) -> (r: ClearOutcome)
        requires
            old(self).wf(),
            old(self).is_clearing(),
            replies@.len() == old(self).spec_workers(),
        ensures
            r == clear_outcome(replies@),
            final(self).wf(),
            final(self).spec_workers() == old(self).spec_workers(),
            final(self).sent() == old(self).sent(),
            if r == ClearOutcome::Cleared {
                !final(self).is_clearing() && final(self).spec_state() == State::Paused
            } else {
                final(self).is_clearing() && final(self).spec_state() == State::Running
            },
    {
        let mut panicked = false;
        let mut k: usize = 0;
        // wait for confirmation from each worker.
        // the queues are not guaranteed to be empty until the last one responds!
        while k < replies.len()
            invariant
                k <= replies@.len(),
                *self == *old(self),
                self.wf(),
                self.is_clearing(),
                forall|j: int| 0 <= j < k ==> (#[trigger] replies@[j]) is Some,
                panicked == exists|j: int|
                    0 <= j < k && (#[trigger] replies@[j]) == Some(ToLeader::Panicked),
            decreases replies@.len() - k,
        {
            match replies[k] {
                None => {
                    assert(replies@[k as int] is None);
                    return ClearOutcome::HungUp;
                },
                Some(ToLeader::Panicked) => {
                    panicked = true;
                    assert(replies@[k as int] == Some(ToLeader::Panicked));
                },
                Some(ToLeader::Cleared) => {},
            }
            k = k + 1;
        }
        if panicked {
            return ClearOutcome::Panicked;
        }
        self.clearing = false;
        self.state = State::Paused;
        ClearOutcome::Cleared
    }

    /// Tears down the pool, which must be paused. Returns the message that each worker
    /// must be sent.
    pub fn shut_down(self) -> (r: ToWorker)
        requires
            self.wf(),
            self.spec_state() == State::Paused,
        ensures
            r == ToWorker::Shutdown,
            all_expected(self.sent().push(r)),
    {
        proof {
            lemma_one_more(self.sent@, ToWorker::Shutdown);
        }
        ToWorker::Shutdown
    }

    /// No worker ever receives a message that it does not expect.
    pub proof fn law_workers_expect_what_is_sent(&self)
        requires
            self.wf(),
        ensures
            all_expected(self.sent()),
            state_after(self.sent()) is Some,
    {
    }
}

/// What a worker does next: it fails if the leader is gone, or if it is told to start or shut down
/// while it runs, or to clear while it is paused. It stops if it is told to shut down. It clears,
/// and is paused then, if it is told so, and runs once it is told to start. Without a message it
/// runs jobs, or waits while it is paused.
pub proof fn law_workers_do_as_they_are_told(state: State, event: Event, r: (State, Action))
    requires
        call_ensures(worker_step, (state, event), r),
    ensures
        r.1 == Action::FailHungUp <==> event is HungUp,
        r.1 == Action::Stop <==> state is Paused && event == Event::Message(ToWorker::Shutdown),
        r.1 == Action::Clear <==> state is Running && event == Event::Message(ToWorker::Clear),
        r.1 == Action::RunNext <==> state is Running && event is Nothing,
        r.1 == Action::FailUnexpected <==> {
            ||| state is Running && event == Event::Message(ToWorker::Start)
            ||| state is Running && event == Event::Message(ToWorker::Shutdown)
            ||| state is Paused && event == Event::Message(ToWorker::Clear)
        },
        r.0 != state <==> {
            ||| state is Running && event == Event::Message(ToWorker::Clear)
            ||| state is Paused && event == Event::Message(ToWorker::Start)
        },
{
}

// after an even number of messages the worker is paused, and else it runs.
proof fn lemma_state_after(msgs: Seq<ToWorker>, k: int)
    requires
        all_expected(msgs),
        0 <= k < msgs.len(),
    ensures
        state_after(msgs.take(k)) == Some(
            if k % 2 == 0 {
                State::Paused
            } else {
                State::Running
            },
        ),
    decreases k,
{
    assert(state_after(msgs.take(k)) is Some);
    if k > 0 {
        lemma_state_after(msgs, k - 1);
        assert(msgs.take(k).drop_last() =~= msgs.take(k - 1));
        assert(msgs.take(k).last() == msgs[k - 1]);
    }
}

/// The messages that a worker expects are to start and to clear in turn, beginning with the first
/// start. In place of a start it can be told to shut down, and then no message follows.
pub proof fn law_expected_messages_alternate(msgs: Seq<ToWorker>, k: int)
    requires
        all_expected(msgs),
        0 <= k < msgs.len(),
    ensures
        k % 2 == 1 ==> msgs[k] == ToWorker::Clear,
        k % 2 == 0 ==> msgs[k] == ToWorker::Start || (msgs[k] == ToWorker::Shutdown && k
            == msgs.len() - 1),
{
    lemma_state_after(msgs, k);
    if k < msgs.len() - 1 {
        lemma_state_after(msgs, k + 1);
        assert(msgs.take(k + 1).drop_last() =~= msgs.take(k));
        assert(msgs.take(k + 1).last() == msgs[k]);
    }
}

/// Work is found in the queue that has the most jobs of those that are not the worker's own, the
/// first of them if there are several. None is found only if these queues are all empty.
pub proof fn law_the_most_work_is_found(lens: &Vec<usize>, own: usize, r: Option<usize>)
    requires
        call_ensures(busiest, (lens, own), r),
    ensures
        r is None <==> forall|j: int| 0 <= j < lens@.len() && j != own ==> #[trigger] lens@[j] == 0,
        r matches Some(i) ==> {
            &&& i < lens@.len()
            &&& i != own
            &&& lens@[i as int] > 0
            &&& forall|j: int|
                0 <= j < lens@.len() && j != own ==> #[trigger] lens@[j] <= lens@[i as int]
            &&& forall|j: int| 0 <= j < i && j != own ==> #[trigger] lens@[j] < lens@[i as int]
        },
{
    let ints = lens@.map_values(|n: usize| n as int);
    if let Some(i) = r {
        assert(is_busiest(ints, own as int, i as int));
        assert(ints[i as int] == lens@[i as int]);
        assert(i != own && lens@[i as int] != 0);
        assert forall|j: int| 0 <= j < lens@.len() && j != own implies #[trigger] lens@[j]
            <= lens@[i as int] by {
            assert(ints[j] == lens@[j]);
        }
        assert forall|j: int| 0 <= j < i && j != own implies #[trigger] lens@[j]
            < lens@[i as int] by {
            assert(ints[j] == lens@[j]);
        }
    } else {
        assert(others_idle(lens@, own as int));
    }
}

/// A worker takes the job that was pushed last from its own queue. Only if that is empty it takes
/// the job that was pushed first from the queue with the most jobs. All other jobs stay where they
/// are, and a job is found if there is any.
pub proof fn law_own_jobs_come_first<J>(worker: &Worker, r: Option<J>)
    ensures
        forall|queues: &mut Vec<Queue<J>>| #[trigger]
            call_ensures(Worker::pop_or_steal::<J>, (worker, queues), r) && worker.idx
                < queues@.len() ==> {
                let before = queues@;
                let after = final(queues)@;
                let own = worker.idx as int;
                &&& r is None <==> forall|j: int|
                    0 <= j < before.len() ==> (#[trigger] before[j])@.len() == 0
                &&& r is None ==> after == before
                &&& r is Some ==> after.len() == before.len() && exists|i: int|
                    {
                        &&& 0 <= i < before.len()
                        &&& (#[trigger] before[i])@.len() > 0
                        &&& i == own ==> r == Some(before[i]@.last()) && after[i]@
                            == before[i]@.drop_last()
                        &&& i != own ==> {
                            &&& before[own]@.len() == 0
                            &&& r == Some(before[i]@[0])
                            &&& after[i]@ == before[i]@.drop_first()
                            &&& forall|j: int|
                                0 <= j < before.len() ==> (#[trigger] before[j])@.len()
                                    <= before[i]@.len()
                            &&& forall|j: int|
                                0 <= j < i ==> (#[trigger] before[j])@.len() < before[i]@.len()
                        }
                        &&& forall|j: int|
                            0 <= j < before.len() && j != i ==> #[trigger] after[j] == before[j]
                    }
            },
{
    assert forall|queues: &mut Vec<Queue<J>>|
        #[trigger] call_ensures(Worker::pop_or_steal::<J>, (worker, queues), r) && worker.idx
            < queues@.len() && r is Some && queues@[worker.idx as int]@.len() == 0 implies {
        let before = queues@;
        let after = final(queues)@;
        let own = worker.idx as int;
        exists|i: int|
            {
                &&& 0 <= i < before.len()
                &&& (#[trigger] before[i])@.len() > 0
                &&& i != own
                &&& r == Some(before[i]@[0])
                &&& after[i]@ == before[i]@.drop_first()
                &&& after.len() == before.len()
                &&& forall|j: int|
                    0 <= j < before.len() ==> (#[trigger] before[j])@.len() <= before[i]@.len()
                &&& forall|j: int| 0 <= j < i ==> (#[trigger] before[j])@.len() < before[i]@.len()
                &&& forall|j: int|
                    0 <= j < before.len() && j != i ==> #[trigger] after[j] == before[j]
            }
    } by {
        let before = queues@;
        let after = final(queues)@;
        let own = worker.idx as int;
        let i = choose|i: int|
            {
                &&& #[trigger] is_busiest(lens_of(before), own, i)
                &&& r == Some(before[i]@[0])
                &&& after[i]@ == before[i]@.drop_first()
                &&& changed_at(before, after, i)
            };
        assert(lens_of(before)[i] == before[i]@.len());
        assert forall|j: int| 0 <= j < before.len() implies (#[trigger] before[j])@.len()
            <= before[i]@.len() by {
            if j != own {
                assert(lens_of(before)[j] <= lens_of(before)[i]);
            }
        }
        assert forall|j: int| 0 <= j < i implies (#[trigger] before[j])@.len()
            < before[i]@.len() by {
            if j != own {
                assert(lens_of(before)[j] < lens_of(before)[i]);
            }
        }
        assert(before[i]@.len() > 0);
    }
    assert forall|queues: &mut Vec<Queue<J>>|
        #[trigger] call_ensures(Worker::pop_or_steal::<J>, (worker, queues), r) && worker.idx
            < queues@.len() && queues@[worker.idx as int]@.len() > 0 implies r is Some by {
        let i = worker.idx as int;
        assert(queues@[i]@.len() > 0);
    }
}

/// All workers are clear only if each of them says so. The leader finds that one hung up if one of
/// them gives no reply, and else that one panicked if one says so.
pub proof fn law_replies_are_all_heard(replies: &Vec<Option<ToLeader>>, r: ClearOutcome)
    ensures
        forall|leader: &mut PoolLeader| #[trigger]
            call_ensures(PoolLeader::finish_clear, (leader, replies), r) ==> {
                &&& r == ClearOutcome::Cleared <==> forall|k: int|
                    0 <= k < replies@.len() ==> #[trigger] replies@[k] == Some(ToLeader::Cleared)
                &&& r == ClearOutcome::HungUp <==> exists|k: int|
                    0 <= k < replies@.len() && (#[trigger] replies@[k]) is None
                &&& r == ClearOutcome::Cleared <==> final(leader).spec_state() == State::Paused
            },
{
    assert(clear_outcome(replies@) == ClearOutcome::Cleared <==> forall|k: int|
        0 <= k < replies@.len() ==> #[trigger] replies@[k] == Some(ToLeader::Cleared)) by {
        if clear_outcome(replies@) == ClearOutcome::Cleared {
            assert forall|k: int| 0 <= k < replies@.len() implies #[trigger] replies@[k] == Some(
                ToLeader::Cleared,
            ) by {
                assert(!(replies@[k] is None));
                assert(replies@[k] != Some(ToLeader::Panicked));
                match replies@[k]->0 {
                    ToLeader::Cleared => {},
                    ToLeader::Panicked => {},
                }
            }
        }
    }
}

/// A sweep takes a job from the first queue that is not empty, and goes on from there: the one that
/// was pushed first, or last if the queue is the worker's own. It is over once there is no job from
/// there on, and is clear if it found none at all. All other jobs stay where they are.
pub proof fn law_sweeps_go_from_queue_to_queue<J>(worker: Worker, r: Option<J>)
    ensures
        forall|sweep: &mut Sweep, queues: &mut Vec<Queue<J>>| #[trigger]
            call_ensures(Sweep::next_job::<J>, (sweep, worker, queues), r) ==> {
                let before = queues@;
                let after = final(queues)@;
                let i = final(sweep).at as int;
                &&& r is None <==> forall|j: int|
                    sweep.at <= j < before.len() ==> (#[trigger] before[j])@.len() == 0
                &&& r is None ==> after == before && i == before.len() && final(sweep).all_clear
                    == sweep.all_clear
                &&& r is Some ==> {
                    &&& sweep.at <= i < before.len() == after.len()
                    &&& forall|j: int| sweep.at <= j < i ==> (#[trigger] before[j])@.len() == 0
                    &&& i == worker.idx ==> before[i]@ == after[i]@.push(r->0)
                    &&& i != worker.idx ==> before[i]@ == seq![r->0] + after[i]@
                    &&& forall|j: int|
                        0 <= j < before.len() && j != i ==> #[trigger] after[j] == before[j]
                    &&& !final(sweep).all_clear
                }
            },
{
    assert forall|sweep: &mut Sweep, queues: &mut Vec<Queue<J>>|
        #[trigger] call_ensures(Sweep::next_job::<J>, (sweep, worker, queues), r)
            && r is Some implies {
        let i = final(sweep).at as int;
        &&& queues@[i]@.len() > 0
        &&& i == worker.idx ==> queues@[i]@ == final(queues)@[i]@.push(r->0)
        &&& i != worker.idx ==> queues@[i]@ == seq![r->0] + final(queues)@[i]@
    } by {
        let i = final(sweep).at as int;
        if i == worker.idx {
            assert(queues@[i]@ =~= final(queues)@[i]@.push(r->0));
        } else {
            assert(queues@[i]@ =~= seq![r->0] + final(queues)@[i]@);
        }
    }
}

} // verus!
