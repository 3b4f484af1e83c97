//! A work-stealing queue used by the ECS to perform processors' work asynchronously.

use vstd::arithmetic::power2::*;
use vstd::multiset::Multiset;
use vstd::prelude::*;
use crate::memory::allocator::Allocator;
use crate::memory::arith::is_power_of_two;
use crate::memory::boxed::AllocSlice;
use crate::memory::collections::raw_vec::check_capacity;
use crate::memory::collections::raw_vec;
use crate::memory::collections::vector::Vector;

verus! {

/// The size in bytes of a job.
pub const JOB_SIZE: usize = 64;

/// The number of words for a function's environment.
pub const ARR_SIZE: usize = (JOB_SIZE / 8) - 1;

/// Whether a function can be made into a job: its environment is not too large,
/// nor its alignment requirement too high.
pub open spec fn fits_in_job<F>() -> bool {
    &&& vstd::layout::align_of::<F>() <= 8
    &&& vstd::layout::size_of::<F>() <= ARR_SIZE * 8
}

/// Whether a function can be made into a job.
pub fn can_be_job<F>() -> (r: bool)
    ensures
        r == fits_in_job::<F>(),
{
    core::mem::align_of::<F>() <= 8 && core::mem::size_of::<F>() <= ARR_SIZE * 8
}

/// A job is a function, with an environment of no more than a cache line.
pub struct Job<F> {
    func: F,
}

impl<F> Job<F> {
    /// The function.
    pub closed spec fn view(&self) -> F {
        self.func
    }
}

impl<R, F: FnOnce() -> R> Job<F> {
    /// Makes a function into a job.
    pub fn new(f: F) -> (r: Job<F>)
        requires
            fits_in_job::<F>(),
        ensures
            r@ == f,
    {
        Job { func: f }
    }

    /// Runs the job.
    pub fn call(self) -> (r: R)
        requires
            call_requires(self@, ()),
        ensures
            call_ensures(self@, (), r),
    {
        let f = self.func;
        f()
    }
}

/// Transforms a (possibly negative) index into a wrapped index in the range
/// [0, len - 1].
pub fn wraparound_index(idx: isize, len: usize) -> (r: usize)
    requires
        0 < len <= isize::MAX,
    ensures
        r == idx as int % len as int,
        r < len,
{
    if idx >= 0 {
        idx as usize % len
    } else {
        let back: usize = (-(idx + 1)) as usize;
        proof {
            lemma_wrap_back(back as int, len as int);
        }
        len - 1 - back % len
    }
}

/// Whether a queue can have the given length: a power of two, for which there may be
/// memory.
pub fn valid_length<J>(len: usize) -> (r: bool)
    ensures
        r == (is_pow2(len as int) && len <= isize::MAX && raw_vec::capacity_allowed::<Option<J>>(
            len as int,
        )),
{
    is_power_of_two(len) && len <= isize::MAX as usize && check_capacity::<Option<J>>(len)
}

// a common length.
pub proof fn lemma_pow2_4096()
    ensures
        is_pow2(4096),
{
    reveal_with_fuel(is_pow2, 14);
}

// counting back from the end.
proof fn lemma_wrap_back(back: int, len: int)
    requires
        0 <= back,
        0 < len,
    ensures
        (-(back + 1)) % len == len - 1 - back % len,
{
    let q = back / len;
    let m = back % len;
    vstd::arithmetic::div_mod::lemma_fundamental_div_mod(back, len);
    vstd::arithmetic::div_mod::lemma_mod_bound(back, len);
    assert(-(back + 1) == len * (-q - 1) + (len - 1 - m)) by (nonlinear_arith)
        requires
            back == len * q + m,
    ;
    vstd::arithmetic::div_mod::lemma_fundamental_div_mod_converse_mod(
        -(back + 1),
        len,
        -q - 1,
        len - 1 - m,
    );
}

// indices that are not too far apart have slots of their own.
proof fn lemma_other_slot(a: int, b: int, len: int)
    requires
        0 < len,
        a < b < a + len,
    ensures
        a % len != b % len,
{
    vstd::arithmetic::div_mod::lemma_fundamental_div_mod(a, len);
    vstd::arithmetic::div_mod::lemma_fundamental_div_mod(b, len);
    if a % len == b % len {
        let qa = a / len;
        let qb = b / len;
        assert(b - a == len * (qb - qa)) by (nonlinear_arith)
            requires
                a == len * qa + a % len,
                b == len * qb + b % len,
                a % len == b % len,
        ;
        assert(false) by (nonlinear_arith)
            requires
                b - a == len * (qb - qa),
                0 < b - a < len,
        ;
    }
}

/// What the owner of a queue is doing.
pub enum OwnerState {
    /// Nothing.
    Idle,
    /// The owner is about to pop the last job: it has lowered the bottom.
    Popping,
    /// The owner is about to pop the only job, and may be racing against thieves.
    Racing,
}

/// A job that a thief is about to steal.
pub struct Offer<J> {
    pub at: int,
    pub job: J,
}

/// A pop that the owner has begun.
pub struct PopTicket {
    new_bottom: isize,
}

/// A pop of the only job.
pub struct RaceTicket {
    top: isize,
}

/// A steal that has begun.
pub struct StealTicket {
    top: isize,
}

/// A steal of a job that the thief has seen.
pub struct StealOffer<J> {
    top: isize,
    job: J,
}

/// How far a pop got.
pub enum PopStep<J> {
    /// There are many jobs in the queue: this is the last one.
    Taken(J),
    /// The queue is empty.
    Empty,
    /// There is only one job in the queue.
    Race(RaceTicket),
}

/// A fixed size ring buffer for storing jobs.
/// Each worker will have one of these, as well as a
/// reference to the other workers'.
///
/// This is lock-free, built upon the assumption that
/// a worker manages the private, bottom end of its queue.
/// Other workers, when idle, may steal from the public, top end of the queue.
///
/// The methods that take part in popping and stealing each read or change the ends
/// of the queue once. Owner and thieves may make these calls in any order.
#[verifier::reject_recursive_types(J)]
pub struct Queue<J, A: Allocator> {
    buf: AllocSlice<Option<J>, A>,
    top: isize,
    bottom: isize,
    len: usize,
    owner: Ghost<OwnerState>,
    offers: Ghost<Set<Offer<J>>>,
    pushed: Ghost<Multiset<J>>,
    taken: Ghost<Multiset<J>>,
}

impl<J: Copy> StealOffer<J> {
    /// What the thief has seen.
    pub closed spec fn view(&self) -> Offer<J> {
        Offer { at: self.top as int, job: self.job }
    }
}

impl PopTicket {
    /// The bottom as the owner has lowered it.
    pub closed spec fn view(&self) -> int {
        self.new_bottom as int
    }
}

impl RaceTicket {
    /// The top as the owner has seen it.
    pub closed spec fn view(&self) -> int {
        self.top as int
    }
}

impl StealTicket {
    /// The top as the thief has seen it.
    pub closed spec fn view(&self) -> int {
        self.top as int
    }
}

impl<J: Copy, A: Allocator> Queue<J, A> {
    // the end of the jobs that no one has taken.
    spec fn end(&self) -> int {
        match self.owner@ {
            OwnerState::Idle => self.bottom as int,
            _ => self.bottom + 1,
        }
    }

    // the job with the given number.
    spec fn slot(&self, k: int) -> Option<J> {
        self.buf@[k % self.len as int]
    }

    /// The jobs that no one has taken, the one to be stolen next in front.
    pub closed spec fn view(&self) -> Seq<J> {
        Seq::new((self.end() - self.top) as nat, |k: int| self.slot(self.top + k)->0)
    }

    /// What the owner is doing.
    pub closed spec fn owner(&self) -> OwnerState {
        self.owner@
    }

    /// The jobs that thieves have seen.
    pub closed spec fn offers(&self) -> Set<Offer<J>> {
        self.offers@
    }

    /// All jobs that were ever pushed.
    pub closed spec fn pushed(&self) -> Multiset<J> {
        self.pushed@
    }

    /// All jobs that were ever popped or stolen.
    pub closed spec fn taken(&self) -> Multiset<J> {
        self.taken@
    }

    /// The number of jobs that the queue has space for.
    pub closed spec fn spec_capacity(&self) -> int {
        self.len as int
    }

    /// The number of the job at the top.
    pub closed spec fn spec_top(&self) -> int {
        self.top as int
    }

    /// The bottom of the queue.
    pub closed spec fn spec_bottom(&self) -> int {
        self.bottom as int
    }

    /// Whether another job can be pushed: there is a slot for it, and a number.
    pub open spec fn has_room(&self) -> bool {
        &&& self.spec_bottom() - self.spec_top() < self.spec_capacity()
        &&& self.spec_bottom() < isize::MAX
    }

    /// As long as the owner is idle, the jobs that no one has taken are those between the
    /// ends of the queue.
    pub proof fn lemma_ends(&self)
        requires
            self.wf(),
            self.owner() is Idle,
        ensures
            0 <= self.spec_top() <= self.spec_bottom() <= isize::MAX,
            self@.len() == self.spec_bottom() - self.spec_top(),
            self@.len() <= self.spec_capacity(),
    {
    }

    /// There is a job in each slot between the ends, a thief who can still succeed
    /// has seen the job at the top, and no job was lost.
    pub closed spec fn wf(&self) -> bool {
        &&& self.buf@.len() == self.len
        &&& 0 < self.len <= isize::MAX
        &&& 0 <= self.top <= self.end() <= self.top + self.len
        &&& self.end() <= isize::MAX
        &&& self.bottom < isize::MAX || self.owner@ is Idle
        &&& self.owner@ is Racing ==> self.bottom <= self.top
        &&& forall|k: int|
            self.top <= k < self.end() ==> #[trigger] self.slot(k) is Some
        &&& forall|o: Offer<J>| #[trigger]
            self.offers@.contains(o) ==> {
                &&& o.at <= self.top
                &&& o.at == self.top ==> {
                    &&& o.at < self.end()
                    &&& self.slot(o.at) == Some(o.job)
                }
            }
        &&& self.pushed@ == self.taken@.add(self@.to_multiset())
    }

    /// The allocator that the memory comes from.
    pub closed spec fn spec_alloc(&self) -> A {
        self.buf.spec_alloc()
    }

    /// Create a new queue with the given length using memory from the allocator.
    /// The length must be a power of two.
    pub fn new(len: usize, allocator: A) -> (r: Result<Self, A::Error>)
        requires
            is_pow2(len as int),
            len <= isize::MAX,
            raw_vec::capacity_allowed::<Option<J>>(len as int),
        ensures
            r matches Ok(q) ==> {
                &&& q.wf()
                &&& q@ == Seq::<J>::empty()
                &&& q.owner() is Idle
                &&& q.offers() == Set::<Offer<J>>::empty()
                &&& q.pushed() == Multiset::<J>::empty()
                &&& q.taken() == Multiset::<J>::empty()
                &&& q.spec_capacity() == len
                &&& q.spec_top() == 0
                &&& q.spec_bottom() == 0
                &&& q.has_room()
            },
            match r {
                Ok(q) => raw_vec::can_supply::<Option<J>, A>(
                    allocator,
                    len as int,
                    Ok(q.spec_alloc()),
                ),
                Err(e) => raw_vec::can_supply::<Option<J>, A>(allocator, len as int, Err(e)),
            },
    {
        let mut v: Vector<Option<J>, A> = match Vector::with_alloc_and_capacity(allocator, len) {
            Ok(v) => v,
            Err(e) => {
                return Err(e);
            },
        };
        proof {
            reveal(is_pow2);
        }
        let mut n: usize = 0;
        while n < len
            invariant
                n <= len,
                v.wf(),
                v@.len() == n,
                v.spec_capacity() == raw_vec::initial_capacity::<Option<J>>(len as int),
                raw_vec::can_supply::<Option<J>, A>(allocator, len as int, Ok(v.spec_alloc())),
                len <= isize::MAX,
            decreases len - n,
        {
            match v.push(None) {
                Ok(_) => {},
                Err(e) => {
                    return Err(e);
                },
            }
            n = n + 1;
        }
        match v.into_boxed_slice() {
            Ok(buf) => {
                let r = Queue {
                    buf,
                    top: 0,
                    bottom: 0,
                    len,
                    owner: Ghost(OwnerState::Idle),
                    offers: Ghost(Set::empty()),
                    pushed: Ghost(Multiset::empty()),
                    taken: Ghost(Multiset::empty()),
                };
                proof {
                    assert(r@ =~= Seq::<J>::empty());
                    assert(r@.to_multiset() =~= Multiset::<J>::empty()) by {
                        broadcast use vstd::seq_lib::group_to_multiset_ensures;
                    }
                    assert(r.pushed@ =~= r.taken@.add(r@.to_multiset()));
                }
                Ok(r)
            },
            Err(e) => Err(e),
        }
    }

    /// Whether another job can be pushed.
    pub fn can_push(&self) -> (r: bool)
        requires
            self.wf(),
            self.owner() is Idle,
        ensures
            r == self.has_room(),
    {
        self.bottom < isize::MAX && ((self.bottom - self.top) as usize) < self.len
    }

    /// Push a job onto the private end of the queue.
    /// This can only be done by the owner of this queue, who must not be popping.
    pub fn push(&mut self, job: J)
        requires
            old(self).wf(),
            old(self).owner() is Idle,
            old(self).has_room(),
        ensures
            final(self).wf(),
            final(self).owner() is Idle,
            final(self).offers() == old(self).offers(),
            final(self)@ == old(self)@.push(job),
            final(self).pushed() == old(self).pushed().insert(job),
            final(self).taken() == old(self).taken(),
            final(self).spec_capacity() == old(self).spec_capacity(),
            final(self).spec_top() == old(self).spec_top(),
            final(self).spec_bottom() == old(self).spec_bottom() + 1,
    {
        let bottom: isize = self.bottom;
        let idx: usize = wraparound_index(bottom, self.len);
        *self.buf.index_mut(idx) = Some(job);
        self.bottom = bottom + 1;
        proof {
            self.pushed = Ghost(self.pushed@.insert(job));
            assert forall|k: int| self.top <= k < bottom implies #[trigger] self.slot(k) == old(
                self,
            ).slot(k) by {
                lemma_other_slot(k, bottom as int, self.len as int);
            }
            assert(self.slot(bottom as int) == Some(job));
            assert(self@ =~= old(self)@.push(job));
            assert(self@.to_multiset() =~= old(self)@.to_multiset().insert(job)) by {
                broadcast use vstd::seq_lib::group_to_multiset_ensures;
            }
            assert(self.pushed@ =~= self.taken@.add(self@.to_multiset()));
        }
    }

    /// The owner begins to pop a job: it lowers the bottom.
    pub fn begin_pop(&mut self) -> (t: PopTicket)
        requires
            old(self).wf(),
            old(self).owner() is Idle,
        ensures
            final(self).wf(),
            final(self).owner() is Popping,
            final(self).spec_bottom() == t@,
            final(self).spec_bottom() == old(self).spec_bottom() - 1,
            final(self).spec_top() == old(self).spec_top(),
            final(self).same_jobs(old(self)),
    {
        let new_bottom: isize = self.bottom - 1;
        self.bottom = new_bottom;
        proof {
            self.owner = Ghost(OwnerState::Popping);
            self.lemma_same(old(self));
        }
        PopTicket { new_bottom }
    }

    /// The owner looks at the top, to see whether there is a job to pop.
    pub fn look_pop(&mut self, ticket: PopTicket) -> (r: PopStep<J>)
        requires
            old(self).wf(),
            old(self).owner() is Popping,
            old(self).spec_bottom() == ticket@,
        ensures
            final(self).wf(),
            final(self).spec_top() == old(self).spec_top(),
            match r {
                PopStep::Taken(job) => {
                    &&& final(self).owner() is Idle
                    &&& final(self).spec_bottom() == old(self).spec_bottom()
                    &&& 1 < old(self)@.len()
                    &&& job == old(self)@.last()
                    &&& final(self)@ == old(self)@.drop_last()
                    &&& final(self).offers() == old(self).offers()
                    &&& final(self).pushed() == old(self).pushed()
                    &&& final(self).taken() == old(self).taken().insert(job)
                    &&& final(self).spec_capacity() == old(self).spec_capacity()
                },
                PopStep::Empty => {
                    &&& final(self).owner() is Idle
                    &&& final(self).spec_bottom() == old(self).spec_top()
                    &&& old(self)@.len() == 0
                    &&& final(self).same_jobs(old(self))
                },
                PopStep::Race(t) => {
                    &&& final(self).owner() is Racing
                    &&& old(self)@.len() == 1
                    &&& t@ == old(self).spec_bottom()
                    &&& final(self).spec_bottom() == old(self).spec_bottom()
                    &&& final(self).same_jobs(old(self))
                },
            },
    {
        let new_bottom: isize = ticket.new_bottom;
        let top: isize = self.top;
        if new_bottom < top {
            // empty queue.
            // set bottom = top just in case it wasn't already
            self.bottom = top;
            proof {
                self.owner = Ghost(OwnerState::Idle);
                self.lemma_same(old(self));
            }
            PopStep::Empty
        } else if top != new_bottom {
            // many items in queue.
            let idx: usize = wraparound_index(new_bottom, self.len);
            assert(self.slot(new_bottom as int) is Some);
            let job: J = self.buf.as_vec()[idx].unwrap();
            proof {
                self.owner = Ghost(OwnerState::Idle);
                self.taken = Ghost(self.taken@.insert(job));
                assert forall|k: int| #[trigger] self.slot(k) == old(self).slot(k) by {
                }
                assert(self@ =~= old(self)@.drop_last());
                lemma_last_taken(old(self)@);
                assert(self.pushed@ =~= self.taken@.add(self@.to_multiset()));
            }
            PopStep::Taken(job)
        } else {
            proof {
                self.owner = Ghost(OwnerState::Racing);
                self.lemma_same(old(self));
            }
            PopStep::Race(RaceTicket { top })
        }
    }

    /// The owner tries to pop the only job. It may be racing against a steal
    /// operation, so it tries to increment the top and sees what the state is.
    pub fn race_pop(&mut self, ticket: RaceTicket) -> (r: Option<J>)
        requires
            old(self).wf(),
            old(self).owner() is Racing,
            old(self).spec_bottom() == ticket@,
        ensures
            final(self).wf(),
            final(self).owner() is Idle,
            final(self).spec_top() == old(self).spec_bottom() + 1,
            final(self).spec_bottom() == old(self).spec_bottom() + 1,
            match r {
                Some(job) => {
                    &&& old(self)@.len() == 1
                    &&& job == old(self)@[0]
                    &&& final(self)@ == Seq::<J>::empty()
                    &&& final(self).offers() == old(self).offers()
                    &&& final(self).pushed() == old(self).pushed()
                    &&& final(self).taken() == old(self).taken().insert(job)
                    &&& final(self).spec_capacity() == old(self).spec_capacity()
                },
                None => {
                    &&& old(self)@.len() == 0
                    &&& final(self).same_jobs(old(self))
                },
            },
    {
        let top: isize = ticket.top;
        if self.top != top {
            // lost a race. set bottom to top + 1
            // since the queue is now empty, and the steal
            // must have incremented top
            self.bottom = top + 1;
            proof {
                self.owner = Ghost(OwnerState::Idle);
                self.lemma_same(old(self));
            }
            None
        } else {
            // won the race (if there was one).
            // set bottom = top + 1 and the job slot to None.
            let idx: usize = wraparound_index(top, self.len);
            assert(self.slot(top as int) is Some);
            let job: J = self.buf.as_vec()[idx].unwrap();
            self.top = top + 1;
            *self.buf.index_mut(idx) = None;
            self.bottom = top + 1;
            proof {
                self.owner = Ghost(OwnerState::Idle);
                self.taken = Ghost(self.taken@.insert(job));
                assert(self@ =~= Seq::<J>::empty());
                assert(old(self)@.drop_last() =~= Seq::<J>::empty());
                lemma_last_taken(old(self)@);
                assert(self.pushed@ =~= self.taken@.add(self@.to_multiset()));
            }
            Some(job)
        }
    }

    /// A thief begins to steal: it looks at the top.
    pub fn begin_steal(&self) -> (t: StealTicket)
        requires
            self.wf(),
        ensures
            t@ == self.spec_top(),
    {
        StealTicket { top: self.top }
    }

    /// The thief looks at the bottom. If the queue is not empty, it reads the job at
    /// the top that it has seen.
    pub fn look_steal(&mut self, ticket: StealTicket) -> (r: Option<StealOffer<J>>)
        requires
            old(self).wf(),
            0 <= ticket@ <= old(self).spec_top(),
        ensures
            final(self).wf(),
            final(self).owner() == old(self).owner(),
            final(self).spec_bottom() == old(self).spec_bottom(),
            final(self).spec_top() == old(self).spec_top(),
            match r {
                Some(offer) => {
                    &&& offer@.at == ticket@ < old(self).spec_bottom()
                    &&& final(self).offers() == old(self).offers().insert(offer@)
                    &&& final(self).same_jobs_but_offers(old(self))
                },
                None => final(self).same_jobs(old(self)) && (old(self).spec_bottom() <= ticket@
                    || ticket@ < old(self).spec_top()),
            },
    {
        let top: isize = ticket.top;
        if self.bottom <= top {
            // empty queue.
            proof {
                self.lemma_same(old(self));
            }
            None
        } else {
            // non-empty queue.
            let idx: usize = wraparound_index(top, self.len);
            match self.buf.as_vec()[idx] {
                Some(job) => {
                    let offer = StealOffer { top, job };
                    proof {
                        self.offers = Ghost(self.offers@.insert(offer@));
                        assert forall|k: int| #[trigger] self.slot(k) == old(self).slot(k) by {
                        }
                        assert(self@ =~= old(self)@);
                    }
                    Some(offer)
                },
                None => {
                    // the job that the thief has seen is gone.
                    proof {
                        assert(top == self.top ==> self.slot(top as int) is Some);
                        self.lemma_same(old(self));
                    }
                    None
                },
            }
        }
    }

    /// The thief tries to take the job that it has seen. It may be competing with
    /// concurrent pop or steal calls.
    pub fn finish_steal(&mut self, offer: StealOffer<J>) -> (r: Option<J>)
        requires
            old(self).wf(),
            old(self).offers().contains(offer@),
        ensures
            final(self).wf(),
            final(self).owner() == old(self).owner(),
            final(self).spec_bottom() == old(self).spec_bottom(),
            match r {
                Some(job) => {
                    &&& final(self).spec_top() == old(self).spec_top() + 1
                    &&& offer@.at == old(self).spec_top()
                    &&& job == offer@.job
                    &&& 0 < old(self)@.len()
                    &&& job == old(self)@[0]
                    &&& final(self)@ == old(self)@.drop_first()
                    &&& final(self).offers() == old(self).offers()
                    &&& final(self).pushed() == old(self).pushed()
                    &&& final(self).taken() == old(self).taken().insert(job)
                    &&& final(self).spec_capacity() == old(self).spec_capacity()
                },
                None => {
                    &&& final(self).spec_top() == old(self).spec_top()
                    &&& offer@.at < old(self).spec_top()
                    &&& final(self).same_jobs(old(self))
                },
            },
    {
        let top: isize = offer.top;
        if self.top != top {
            // lost a race.
            proof {
                self.lemma_same(old(self));
            }
            None
        } else {
            // won a race. store `None` in the job slot again.
            let idx: usize = wraparound_index(top, self.len);
            self.top = top + 1;
            *self.buf.index_mut(idx) = None;
            proof {
                let job = offer.job;
                self.taken = Ghost(self.taken@.insert(job));
                assert forall|k: int| top + 1 <= k < self.end() implies #[trigger] self.slot(k)
                    == old(self).slot(k) by {
                    lemma_other_slot(top as int, k, self.len as int);
                }
                assert(self@ =~= old(self)@.drop_first());
                lemma_first_taken(old(self)@);
                assert(self.pushed@ =~= self.taken@.add(self@.to_multiset()));
            }
            Some(offer.job)
        }
    }

    /// The queue holds the same jobs.
    pub open spec fn same_jobs(&self, before: &Queue<J, A>) -> bool {
        &&& self.same_jobs_but_offers(before)
        &&& self.offers() == before.offers()
    }

    /// The queue holds the same jobs, but thieves may have seen more.
    pub open spec fn same_jobs_but_offers(&self, before: &Queue<J, A>) -> bool {
        &&& self@ == before@
        &&& self.pushed() == before.pushed()
        &&& self.taken() == before.taken()
        &&& self.spec_capacity() == before.spec_capacity()
    }

    // the same jobs in the same slots.
    proof fn lemma_same(&self, before: &Queue<J, A>)
        requires
            before.wf(),
            self.buf == before.buf,
            self.top == before.top,
            self.len == before.len,
            self.end() == before.end(),
            self.bottom < isize::MAX || self.owner@ is Idle,
            self.owner@ is Racing ==> self.bottom <= self.top,
            self.offers@ == before.offers@,
            self.pushed@ == before.pushed@,
            self.taken@ == before.taken@,
        ensures
            self.wf(),
            self.same_jobs(before),
    {
        assert(self@ =~= before@);
        assert forall|k: int| #[trigger] self.slot(k) == before.slot(k) by {
        }
    }

    /// Pop a job from the private end of the queue.
    /// This can only be done by the owner of this queue.
    pub fn pop(&mut self) -> (r: Option<J>)
        requires
            old(self).wf(),
            old(self).owner() is Idle,
        ensures
            final(self).wf(),
            final(self).owner() is Idle,
            final(self).offers() == old(self).offers(),
            final(self).pushed() == old(self).pushed(),
            final(self).spec_capacity() == old(self).spec_capacity(),
            match r {
                Some(job) => {
                    &&& 0 < old(self)@.len()
                    &&& job == old(self)@.last()
                    &&& final(self)@ == old(self)@.drop_last()
                    &&& final(self).taken() == old(self).taken().insert(job)
                    &&& final(self).spec_top() == if old(self)@.len() == 1 {
                        old(self).spec_top() + 1
                    } else {
                        old(self).spec_top()
                    }
                    &&& final(self).spec_bottom() == if old(self)@.len() == 1 {
                        old(self).spec_bottom()
                    } else {
                        old(self).spec_bottom() - 1
                    }
                },
                None => {
                    &&& old(self)@.len() == 0
                    &&& final(self)@ == old(self)@
                    &&& final(self).taken() == old(self).taken()
                    &&& final(self).spec_top() == old(self).spec_top()
                    &&& final(self).spec_bottom() == old(self).spec_bottom()
                },
            },
    {
        let ticket = self.begin_pop();
        match self.look_pop(ticket) {
            PopStep::Taken(job) => Some(job),
            PopStep::Empty => None,
            PopStep::Race(race) => {
                let r = self.race_pop(race);
                assert(old(self)@.drop_last() =~= Seq::<J>::empty());
                r
            },
        }
    }

    /// Try to steal a job from the public end of the queue.
    pub fn steal(&mut self) -> (r: Option<J>)
        requires
            old(self).wf(),
            old(self).owner() is Idle,
        ensures
            final(self).wf(),
            final(self).owner() is Idle,
            final(self).pushed() == old(self).pushed(),
            final(self).spec_capacity() == old(self).spec_capacity(),
            final(self).spec_bottom() == old(self).spec_bottom(),
            match r {
                Some(job) => {
                    &&& 0 < old(self)@.len()
                    &&& job == old(self)@[0]
                    &&& final(self)@ == old(self)@.drop_first()
                    &&& final(self).taken() == old(self).taken().insert(job)
                    &&& final(self).spec_top() == old(self).spec_top() + 1
                },
                None => {
                    &&& old(self)@.len() == 0
                    &&& final(self)@ == old(self)@
                    &&& final(self).taken() == old(self).taken()
                    &&& final(self).spec_top() == old(self).spec_top()
                },
            },
    {
        let ticket = self.begin_steal();
        match self.look_steal(ticket) {
            None => None,
            Some(offer) => self.finish_steal(offer),
        }
    }

    /// The number of jobs in the queue.
    pub fn len(&self) -> (r: usize)
        requires
            self.wf(),
            self.owner() is Idle,
        ensures
            r == self@.len(),
    {
        (self.bottom - self.top) as usize
    }

    /// No job is lost, and none is taken twice, however pops and steals interleave:
    /// the jobs that were taken and those that no one has taken are the jobs that
    /// were pushed.
    pub proof fn law_each_job_is_taken_once(&self)
        requires
            self.wf(),
        ensures
            self.pushed() == self.taken().add(self@.to_multiset()),
            self@.len() == 0 ==> self.taken() == self.pushed(),
    {
        if self@.len() == 0 {
            assert(self@.to_multiset() =~= Multiset::<J>::empty()) by {
                assert(self@ =~= Seq::<J>::empty());
                broadcast use vstd::seq_lib::group_to_multiset_ensures;
            }
            assert(self.taken().add(Multiset::<J>::empty()) =~= self.taken());
        }
    }
}

// the jobs without the last one.
proof fn lemma_last_taken<J>(s: Seq<J>)
    requires
        0 < s.len(),
    ensures
        s.to_multiset() == s.drop_last().to_multiset().insert(s.last()),
{
    broadcast use vstd::seq_lib::group_to_multiset_ensures;

    assert(s.drop_last().push(s.last()) =~= s);
}

// the jobs without the first one.
proof fn lemma_first_taken<J>(s: Seq<J>)
    requires
        0 < s.len(),
    ensures
        s.to_multiset() == s.drop_first().to_multiset().insert(s[0]),
{
    broadcast use vstd::seq_lib::group_to_multiset_ensures;

    assert(s.drop_first() =~= s.remove(0));
    assert(s.to_multiset().count(s[0]) > 0) by {
        assert(s.contains(s[0]));
    }
    assert(s.to_multiset() =~= s.to_multiset().remove(s[0]).insert(s[0]));
}

/// Another job can be pushed as long as there are fewer than the queue has space for, and numbers
/// for them.
pub proof fn law_queues_hold_their_capacity<J: Copy, A: Allocator>(q: &Queue<J, A>, r: bool)
    requires
        q.wf(),
        q.owner() is Idle,
        call_ensures(Queue::<J, A>::can_push, (q,), r),
    ensures
        r <==> q@.len() < q.spec_capacity() && q.spec_bottom() < isize::MAX,
{
    q.lemma_ends();
}

/// What is pushed is popped first and stolen last, and pushing and popping leaves the others as
/// they were.
pub proof fn law_both_ends_of_a_queue<J: Copy, A: Allocator>(
    job: J,
    popped: Option<J>,
    stolen: Option<J>,
    others: Seq<J>,
)
    ensures
        forall|q: &mut Queue<J, A>|
            q@ == others && #[trigger] call_ensures(Queue::<J, A>::push, (q, job), ()) ==> final(
                q)@ == others.push(job),
        forall|q: &mut Queue<J, A>|
            q@ == others.push(job) && #[trigger] call_ensures(Queue::<J, A>::pop, (q,), popped)
                ==> popped == Some(job) && final(q)@ == others,
        forall|q: &mut Queue<J, A>|
            q@ == seq![job] + others && #[trigger] call_ensures(
                Queue::<J, A>::steal,
                (q,),
                stolen,
            ) ==> stolen == Some(job) && final(q)@ == others,
{
    assert(others.push(job).drop_last() =~= others);
    assert((seq![job] + others).drop_first() =~= others);
}

/// No step of a pop or of a steal takes a job but the one that gives it out: until then all jobs
/// are there.
pub proof fn law_only_the_last_step_takes_a_job<J: Copy, A: Allocator>(
    pop: PopTicket,
    steal: StealTicket,
    begun: PopTicket,
    looked: PopStep<J>,
    seen: Option<StealOffer<J>>,
    race: RaceTicket,
    offer: StealOffer<J>,
)
    ensures
        forall|q: &mut Queue<J, A>| #[trigger]
            call_ensures(Queue::<J, A>::begin_pop, (q,), begun) ==> final(q)@ == q@ && final(
                q).taken() == q.taken() && final(q).pushed() == q.pushed(),
        forall|q: &mut Queue<J, A>| #[trigger]
            call_ensures(Queue::<J, A>::look_pop, (q, pop), looked) && !(looked is Taken) ==> final(
                q)@ == q@ && final(q).taken() == q.taken() && final(q).pushed() == q.pushed(),
        forall|q: &mut Queue<J, A>| #[trigger]
            call_ensures(Queue::<J, A>::race_pop, (q, race), None::<J>) ==> final(q)@ == q@
                && final(q).taken() == q.taken() && final(q).pushed() == q.pushed(),
        forall|q: &mut Queue<J, A>| #[trigger]
            call_ensures(Queue::<J, A>::look_steal, (q, steal), seen) ==> final(q)@ == q@ && final(
                q).taken() == q.taken() && final(q).pushed() == q.pushed(),
        forall|q: &mut Queue<J, A>| #[trigger]
            call_ensures(Queue::<J, A>::finish_steal, (q, offer), None::<J>) ==> final(q)@ == q@
                && final(q).taken() == q.taken() && final(q).pushed() == q.pushed(),
{
}

/// A function can be made into a job if it is aligned to 8 bytes at most and has 56 bytes at most.
pub proof fn law_jobs_are_small<F>(r: bool)
    requires
        call_ensures(can_be_job::<F>, (), r),
    ensures
        r <==> vstd::layout::align_of::<F>() <= 8 && vstd::layout::size_of::<F>() <= 56,
{
}

/// A queue can be as long as a power of two for which there may be memory.
pub proof fn law_lengths_are_powers_of_two<J>(len: usize, r: bool, may_ask: bool)
    requires
        call_ensures(valid_length::<J>, (len,), r),
        call_ensures(check_capacity::<Option<J>>, (len,), may_ask),
    ensures
        r <==> is_pow2(len as int) && len <= isize::MAX && may_ask,
{
}

} // verus!
