//! A read-write lock whose users spin until they can have it.
//!
//! Each method that takes part in the acquisition of the lock makes one access to
//! the lock's shared words. Threads that acquire and release the lock make these
//! calls in any order, each thread its own in turn. What holds after any calls
//! therefore holds however the threads interleave.

use vstd::prelude::*;

verus! {

/// A flag for the word of the writers.
/// This indicates an active writer when set.
pub const ACTIVE_FLAG: usize = usize::MAX / 2 + 1;

/// The word of the writers: the number of pending writers, and the flag if there
/// is an active one.
pub open spec fn writers_word(pending: int, active: bool) -> int {
    if active {
        pending + ACTIVE_FLAG
    } else {
        pending
    }
}

/// Whether readers may begin: there is no writer, pending or active.
pub fn readers_may_begin(writers: usize) -> (r: bool)
    ensures
        r == (writers == writers_word(0, false)),
{
    writers == 0
}

/// The word after a pending writer becomes active, if there is no active one.
pub fn activate(writers: usize) -> (r: Option<usize>)
    requires
        writers != 0,
    ensures
        match r {
            Some(word) => {
                &&& writers < ACTIVE_FLAG
                &&& word == writers_word(writers - 1, true)
            },
            None => writers >= ACTIVE_FLAG,
        },
{
    if writers < ACTIVE_FLAG {
        Some((writers - 1) + ACTIVE_FLAG)
    } else {
        None
    }
}

/// The word after the active writer is done.
pub fn deactivate(writers: usize) -> (r: usize)
    ensures
        writers >= ACTIVE_FLAG ==> r == writers - ACTIVE_FLAG,
        writers < ACTIVE_FLAG ==> r == writers,
{
    if writers >= ACTIVE_FLAG {
        writers - ACTIVE_FLAG
    } else {
        writers
    }
}

/// A reader that has announced itself, and may have to give way.
pub struct ReadTicket {
    id: Ghost<int>,
}

/// A writer that has announced itself, and waits for the readers.
pub struct WriteTicket {
    id: Ghost<int>,
}

/// A writer that has seen the last reader leave, and waits for other writers.
pub struct WriteTurn {
    id: Ghost<int>,
}

/// A reading guard yielded by an `RwSpinLock`
pub struct ReadGuard {
    id: Ghost<int>,
}

/// A writing guard yielded by an `RwSpinLock`
pub struct WriteGuard {
    id: Ghost<int>,
}

impl ReadTicket {
    /// What tells the reader from the others.
    pub closed spec fn id(&self) -> int {
        self.id@
    }
}

impl WriteTicket {
    /// What tells the writer from the others.
    pub closed spec fn id(&self) -> int {
        self.id@
    }
}

impl WriteTurn {
    /// What tells the writer from the others.
    pub closed spec fn id(&self) -> int {
        self.id@
    }
}

impl ReadGuard {
    /// What tells the reader from the others.
    pub closed spec fn id(&self) -> int {
        self.id@
    }
}

impl WriteGuard {
    /// What tells the writer from the others.
    pub closed spec fn id(&self) -> int {
        self.id@
    }
}

/// A guard of a lock that is poisoned.
pub struct PoisonError<G> {
    pub guard: G,
}

/// Who takes part in the use of a lock.
pub struct Users {
    /// Readers that have announced themselves.
    pub arriving: Set<int>,
    /// Readers that hold a guard.
    pub reading: Set<int>,
    /// Writers that wait for the readers.
    pub waiting: Set<int>,
    /// Writers that wait for other writers.
    pub ready: Set<int>,
    /// The writer that holds a guard.
    pub writing: Option<int>,
}

impl Users {
    /// No one.
    pub open spec fn none() -> Users {
        Users {
            arriving: Set::empty(),
            reading: Set::empty(),
            waiting: Set::empty(),
            ready: Set::empty(),
            writing: None,
        }
    }

    /// No writer is pending or active.
    pub open spec fn no_writers(self) -> bool {
        &&& self.waiting == Set::<int>::empty()
        &&& self.ready == Set::<int>::empty()
        &&& self.writing is None
    }

    /// Everyone who takes part is below `next`.
    pub open spec fn below(self, next: int) -> bool {
        &&& forall|id: int| #[trigger] self.arriving.contains(id) ==> id < next
        &&& forall|id: int| #[trigger] self.reading.contains(id) ==> id < next
        &&& forall|id: int| #[trigger] self.waiting.contains(id) ==> id < next
        &&& forall|id: int| #[trigger] self.ready.contains(id) ==> id < next
        &&& self.writing is Some ==> self.writing->0 < next
    }

    /// No one takes part twice.
    pub open spec fn apart(self) -> bool {
        &&& self.arriving.disjoint(self.reading)
        &&& self.waiting.disjoint(self.ready)
        &&& self.writing is Some ==> !self.waiting.contains(self.writing->0)
            && !self.ready.contains(self.writing->0)
    }

    /// Readers and writers never hold the lock together: while a writer holds it, or
    /// has seen the last reader leave, no reader holds it.
    pub open spec fn exclusive(self) -> bool {
        self.writing is Some || self.ready != Set::<int>::empty() ==> self.reading == Set::<
            int,
        >::empty()
    }
}

/// A version of a Read-Write-Lock which spins until it can acquire a guard.
/// There may be an infinite amount of concurrent readers as long as there are no writers,
/// and there may be only one writer at a time.
/// This is only really practical in situations where wait times are
/// expected to be shorter than the cost of a context switch.
///
/// This implementation intentionally gives writers a higher priority than readers.
/// ReadGuards may become starved if writers hold the lock for too long.
/// If this is your use-case, a standard `RwLock` would probably be more useful,
/// since spinning + starvation are generally a bad combination.
pub struct RwSpinLock<T> {
    data: T,
    // simple count of the number of readers.
    readers: usize,
    // waiting writers + active writer flag.
    writers: usize,
    poison: bool,
    users: Ghost<Users>,
    next: Ghost<int>,
}

impl<T> RwSpinLock<T> {
    /// The data.
    pub closed spec fn view(&self) -> T {
        self.data
    }

    /// Who takes part in the use of the lock.
    pub closed spec fn users(&self) -> Users {
        self.users@
    }

    /// Whether a holder of a write lock has panicked.
    pub closed spec fn poisoned(&self) -> bool {
        self.poison
    }

    /// The words of the lock count those who take part, and readers and writers
    /// exclude each other.
    pub closed spec fn wf(&self) -> bool {
        let u = self.users@;
        &&& u.arriving.finite()
        &&& u.reading.finite()
        &&& u.waiting.finite()
        &&& u.ready.finite()
        &&& u.below(self.next@)
        &&& u.apart()
        &&& u.exclusive()
        &&& self.readers == u.arriving.len() + u.reading.len()
        &&& u.waiting.len() + u.ready.len() < ACTIVE_FLAG
        &&& self.writers == writers_word(
            (u.waiting.len() + u.ready.len()) as int,
            u.writing is Some,
        )
    }

    /// Create a new RwSpinLock wrapping the given data.
    pub fn new(data: T) -> (r: Self)
        ensures
            r.wf(),
            r@ == data,
            r.users() == Users::none(),
            !r.poisoned(),
    {
        RwSpinLock {
            data,
            readers: 0,
            writers: 0,
            poison: false,
            users: Ghost(Users::none()),
            next: Ghost(0),
        }
    }

    /// Whether a reader may announce itself now: all pending writers have finished.
    pub fn writers_gone(&self) -> (r: bool)
        requires
            self.wf(),
        ensures
            r == self.users().no_writers(),
    {
        proof {
            let u = self.users@;
            lemma_no_one(u.waiting);
            lemma_no_one(u.ready);
        }
        readers_may_begin(self.writers)
    }

    /// A reader announces itself.
    pub fn announce_read(&mut self) -> (t: ReadTicket)
        requires
            old(self).wf(),
            old(self).users().arriving.len() + old(self).users().reading.len() < usize::MAX,
        ensures
            final(self).wf(),
            final(self)@ == old(self)@,
            final(self).poisoned() == old(self).poisoned(),
            !old(self).users().arriving.contains(t.id()),
            !old(self).users().reading.contains(t.id()),
            final(self).users() == (Users {
                arriving: old(self).users().arriving.insert(t.id()),
                ..old(self).users()
            }),
    {
        let id: Ghost<int> = Ghost(self.next@);
        self.readers = self.readers + 1;
        proof {
            let u = self.users@;
            self.users = Ghost(Users { arriving: u.arriving.insert(id@), ..u });
            self.next = Ghost(id@ + 1);
        }
        ReadTicket { id }
    }

    /// A reader that has announced itself gets a guard, unless a new writer was
    /// faster: then the reader withdraws, to give it precedence.
    pub fn confirm_read(&mut self, ticket: ReadTicket) -> (r: Option<ReadGuard>)
        requires
            old(self).wf(),
            old(self).users().arriving.contains(ticket.id()),
        ensures
            final(self).wf(),
            final(self)@ == old(self)@,
            final(self).poisoned() == old(self).poisoned(),
            match r {
                Some(guard) => {
                    &&& old(self).users().no_writers()
                    &&& guard.id() == ticket.id()
                    &&& final(self).users() == (Users {
                        arriving: old(self).users().arriving.remove(ticket.id()),
                        reading: old(self).users().reading.insert(ticket.id()),
                        ..old(self).users()
                    })
                },
                None => {
                    &&& !old(self).users().no_writers()
                    &&& final(self).users() == (Users {
                        arriving: old(self).users().arriving.remove(ticket.id()),
                        ..old(self).users()
                    })
                },
            },
    {
        let ghost u = self.users@;
        if self.writers_gone() {
            // won the race. return a lock.
            // there is an edge case where a new writer
            // just declared itself pending, and we didn't have
            // the chance to see it. Although we didn't technically
            // win the race, the pending writer will wait for us.
            proof {
                self.users = Ghost(
                    Users {
                        arriving: u.arriving.remove(ticket.id()),
                        reading: u.reading.insert(ticket.id()),
                        ..u
                    },
                );
            }
            Some(ReadGuard { id: ticket.id })
        } else {
            // lost a race, try waiting again.
            self.readers = self.readers - 1;
            proof {
                self.users = Ghost(Users { arriving: u.arriving.remove(ticket.id()), ..u });
            }
            None
        }
    }

    /// A reader is done.
    pub fn release_read(&mut self, guard: ReadGuard)
        requires
            old(self).wf(),
            old(self).users().reading.contains(guard.id()),
        ensures
            final(self).wf(),
            final(self)@ == old(self)@,
            final(self).poisoned() == old(self).poisoned(),
            final(self).users() == (Users {
                reading: old(self).users().reading.remove(guard.id()),
                ..old(self).users()
            }),
    {
        self.readers = self.readers - 1;
        proof {
            let u = self.users@;
            self.users = Ghost(Users { reading: u.reading.remove(guard.id()), ..u });
            assert(u.exclusive());
            assert(u.reading.contains(guard.id()));
        }
    }

    /// A writer announces itself. Once this request has been made,
    /// no readers will begin executing until the lock has been released.
    pub fn announce_write(&mut self) -> (t: WriteTicket)
        requires
            old(self).wf(),
            old(self).users().waiting.len() + old(self).users().ready.len() + 1 < ACTIVE_FLAG,
        ensures
            final(self).wf(),
            final(self)@ == old(self)@,
            final(self).poisoned() == old(self).poisoned(),
            !old(self).users().waiting.contains(t.id()),
            !old(self).users().ready.contains(t.id()),
            old(self).users().writing != Some(t.id()),
            final(self).users() == (Users {
                waiting: old(self).users().waiting.insert(t.id()),
                ..old(self).users()
            }),
    {
        let id: Ghost<int> = Ghost(self.next@);
        self.writers = self.writers + 1;
        proof {
            let u = self.users@;
            self.users = Ghost(Users { waiting: u.waiting.insert(id@), ..u });
            self.next = Ghost(id@ + 1);
        }
        WriteTicket { id }
    }

    /// A writer looks whether the current readers have finished. No pending readers
    /// begin now that they see a pending writer.
    pub fn await_readers(&mut self, ticket: WriteTicket) -> (r: Result<WriteTurn, WriteTicket>)
        requires
            old(self).wf(),
            old(self).users().waiting.contains(ticket.id()),
        ensures
            final(self).wf(),
            final(self)@ == old(self)@,
            final(self).poisoned() == old(self).poisoned(),
            match r {
                Ok(turn) => {
                    &&& old(self).users().arriving == Set::<int>::empty()
                    &&& old(self).users().reading == Set::<int>::empty()
                    &&& turn.id() == ticket.id()
                    &&& final(self).users() == (Users {
                        waiting: old(self).users().waiting.remove(ticket.id()),
                        ready: old(self).users().ready.insert(ticket.id()),
                        ..old(self).users()
                    })
                },
                Err(t) => {
                    &&& old(self).users().arriving != Set::<int>::empty() || old(
                        self,
                    ).users().reading != Set::<int>::empty()
                    &&& t.id() == ticket.id()
                    &&& final(self).users() == old(self).users()
                },
            },
    {
        proof {
            let u = self.users@;
            lemma_no_one(u.arriving);
            lemma_no_one(u.reading);
        }
        if self.readers > 0 {
            return Err(ticket);
        }
        proof {
            let u = self.users@;
            self.users = Ghost(
                Users {
                    waiting: u.waiting.remove(ticket.id()),
                    ready: u.ready.insert(ticket.id()),
                    ..u
                },
            );
        }
        Ok(WriteTurn { id: ticket.id })
    }

    /// A writer tries to grab the open spot, which there is if no other writer is
    /// active.
    pub fn begin_write(&mut self, turn: WriteTurn) -> (r: Result<WriteGuard, WriteTurn>)
        requires
            old(self).wf(),
            old(self).users().ready.contains(turn.id()),
        ensures
            final(self).wf(),
            final(self)@ == old(self)@,
            final(self).poisoned() == old(self).poisoned(),
            match r {
                Ok(guard) => {
                    &&& old(self).users().writing is None
                    &&& guard.id() == turn.id()
                    &&& final(self).users() == (Users {
                        ready: old(self).users().ready.remove(turn.id()),
                        writing: Some(turn.id()),
                        ..old(self).users()
                    })
                },
                Err(t) => {
                    &&& old(self).users().writing is Some
                    &&& t.id() == turn.id()
                    &&& final(self).users() == old(self).users()
                },
            },
    {
        let ghost u = self.users@;
        proof {
            lemma_someone(u.ready, turn.id());
        }
        match activate(self.writers) {
            Some(word) => {
                self.writers = word;
                proof {
                    self.users = Ghost(
                        Users { ready: u.ready.remove(turn.id()), writing: Some(turn.id()), ..u },
                    );
                }
                Ok(WriteGuard { id: turn.id })
            },
            None => Err(turn),
        }
    }

    /// The active writer is done. If it panicked, the lock is poisoned.
    pub fn release_write(&mut self, guard: WriteGuard, panicking: bool)
        requires
            old(self).wf(),
            old(self).users().writing == Some(guard.id()),
        ensures
            final(self).wf(),
            final(self)@ == old(self)@,
            final(self).poisoned() == (old(self).poisoned() || panicking),
            final(self).users() == (Users { writing: None, ..old(self).users() }),
    {
        // unset the active flag and poison if necessary.
        if panicking {
            self.poison = true;
        }
        self.writers = deactivate(self.writers);
        proof {
            let u = self.users@;
            self.users = Ghost(Users { writing: None, ..u });
        }
    }

    /// Get a handle for reading the data.
    ///
    /// # Deadlock
    /// There must be no writer, who would never be released while this waits.
    pub fn read(&mut self) -> (r: Result<ReadGuard, PoisonError<ReadGuard>>)
        requires
            old(self).wf(),
            old(self).users().no_writers(),
            old(self).users().arriving.len() + old(self).users().reading.len() < usize::MAX,
        ensures
            final(self).wf(),
            final(self)@ == old(self)@,
            final(self).poisoned() == old(self).poisoned(),
            r is Err <==> old(self).poisoned(),
            ({
                let id = match r {
                    Ok(guard) => guard.id(),
                    Err(e) => e.guard.id(),
                };
                &&& !old(self).users().reading.contains(id)
                &&& final(self).users() == (Users {
                    reading: old(self).users().reading.insert(id),
                    ..old(self).users()
                })
            }),
    {
        let ticket = self.announce_read();
        match self.confirm_read(ticket) {
            Some(guard) => {
                assert(self.users().arriving =~= old(self).users().arriving);
                if self.poison {
                    Err(PoisonError { guard })
                } else {
                    Ok(guard)
                }
            },
            None => Err(PoisonError { guard: ReadGuard { id: Ghost(0) } }),
        }
    }

    /// Get a handle for writing the data.
    ///
    /// # Deadlock
    /// There must be no holder of the lock, who would never be released while this
    /// waits.
    pub fn write(&mut self) -> (r: Result<WriteGuard, PoisonError<WriteGuard>>)
        requires
            old(self).wf(),
            old(self).users().arriving == Set::<int>::empty(),
            old(self).users().reading == Set::<int>::empty(),
            old(self).users().writing is None,
            old(self).users().waiting.len() + old(self).users().ready.len() + 1 < ACTIVE_FLAG,
        ensures
            final(self).wf(),
            final(self)@ == old(self)@,
            final(self).poisoned() == old(self).poisoned(),
            r is Err <==> old(self).poisoned(),
            ({
                let id = match r {
                    Ok(guard) => guard.id(),
                    Err(e) => e.guard.id(),
                };
                final(self).users() == (Users { writing: Some(id), ..old(self).users() })
            }),
    {
        let ticket = self.announce_write();
        match self.await_readers(ticket) {
            Ok(turn) => match self.begin_write(turn) {
                Ok(guard) => {
                    assert(self.users().waiting =~= old(self).users().waiting);
                    assert(self.users().ready =~= old(self).users().ready);
                    if self.poison {
                        Err(PoisonError { guard })
                    } else {
                        Ok(guard)
                    }
                },
                Err(turn) => Err(PoisonError { guard: WriteGuard { id: turn.id } }),
            },
            Err(ticket) => Err(PoisonError { guard: WriteGuard { id: ticket.id } }),
        }
    }

    /// Whether this lock is "poisoned" or a holder of a write lock has panicked while
    /// holding it.
    pub fn is_poisoned(&self) -> (r: bool)
        ensures
            r == self.poisoned(),
    {
        self.poison
    }

    /// The data, for a holder of a read lock.
    pub fn get(&self, guard: &ReadGuard) -> (r: &T)
        requires
            self.users().reading.contains(guard.id()),
        ensures
            *r == self@,
    {
        &self.data
    }

    /// Access to the data, for the holder of the write lock.
    pub fn get_mut(&mut self, guard: &WriteGuard) -> (r: &mut T)
        requires
            old(self).wf(),
            old(self).users().writing == Some(guard.id()),
        ensures
            *r == old(self)@,
            final(self)@ == *final(r),
            final(self).wf(),
            final(self).users() == old(self).users(),
            final(self).poisoned() == old(self).poisoned(),
    {
        &mut self.data
    }

    /// Readers and writers exclude each other, and so do writers: while a writer
    /// holds the lock, no reader does.
    pub proof fn law_writers_exclude_readers(&self)
        requires
            self.wf(),
        ensures
            self.users().writing is Some ==> self.users().reading == Set::<int>::empty(),
            forall|id: int| #[trigger]
                self.users().reading.contains(id) ==> self.users().writing is None,
    {
    }
}

// a set without elements has no one in it.
proof fn lemma_no_one(s: Set<int>)
    requires
        s.finite(),
    ensures
        s.len() == 0 <==> s == Set::<int>::empty(),
{
    if s.len() == 0 {
        assert(s =~= Set::<int>::empty()) by {
            assert forall|x: int| !s.contains(x) by {
                if s.contains(x) {
                    lemma_someone(s, x);
                }
            }
        }
    }
}

// a set with someone in it is not empty.
proof fn lemma_someone(s: Set<int>, x: int)
    requires
        s.finite(),
        s.contains(x),
    ensures
        s.len() > 0,
{
    assert(s.remove(x).len() == s.len() - 1);
}

/// The word of the writers is zero just if there are none. A pending writer becomes active only if
/// no other is: then one less is pending, and once it is done the others still are.
pub proof fn law_words_count_the_writers(
    writers: usize,
    may_read: bool,
    active: Option<usize>,
    done: usize,
)
    requires
        call_ensures(readers_may_begin, (writers,), may_read),
        call_ensures(activate, (writers,), active),
        active is Some ==> call_ensures(deactivate, (active->0,), done),
        writers != 0,
    ensures
        !may_read,
        active is Some <==> writers <= usize::MAX / 2,
        active matches Some(word) ==> word == writers + usize::MAX / 2 && done == writers - 1,
{
}

/// Readers may begin just if no writer waits, is ready to write, or writes. Else a reader that has
/// announced itself withdraws.
pub proof fn law_readers_give_way<T>(
    lock: &RwSpinLock<T>,
    gone: bool,
    ticket: ReadTicket,
    guard: Option<ReadGuard>,
)
    requires
        lock.wf(),
        call_ensures(RwSpinLock::<T>::writers_gone, (lock,), gone),
    ensures
        gone <==> {
            &&& lock.users().writing is None
            &&& forall|id: int| !(#[trigger] lock.users().waiting.contains(id))
            &&& forall|id: int| !(#[trigger] lock.users().ready.contains(id))
        },
        forall|l: &mut RwSpinLock<T>| #[trigger]
            call_ensures(RwSpinLock::<T>::confirm_read, (l, ticket), guard) ==> {
                &&& guard is Some <==> {
                    &&& l.users().writing is None
                    &&& forall|id: int| !(#[trigger] l.users().waiting.contains(id))
                    &&& forall|id: int| !(#[trigger] l.users().ready.contains(id))
                }
                &&& !final(l).users().arriving.contains(ticket.id())
                &&& guard is Some ==> final(l).users().reading.contains(ticket.id())
                &&& guard is None ==> final(l).users().reading == l.users().reading
            },
{
    lemma_no_writers(lock.users());
    assert forall|l: &mut RwSpinLock<T>| #[trigger]
        call_ensures(RwSpinLock::<T>::confirm_read, (l, ticket), guard) implies (guard is Some <==> {
        &&& l.users().writing is None
        &&& forall|id: int| !(#[trigger] l.users().waiting.contains(id))
        &&& forall|id: int| !(#[trigger] l.users().ready.contains(id))
    }) by {
        lemma_no_writers(l.users());
    }
}

// what it means that there are no writers.
proof fn lemma_no_writers(u: Users)
    ensures
        u.no_writers() <==> {
            &&& u.writing is None
            &&& forall|id: int| !(#[trigger] u.waiting.contains(id))
            &&& forall|id: int| !(#[trigger] u.ready.contains(id))
        },
{
    if forall|id: int| !(#[trigger] u.waiting.contains(id)) {
        assert(u.waiting =~= Set::<int>::empty());
    }
    if forall|id: int| !(#[trigger] u.ready.contains(id)) {
        assert(u.ready =~= Set::<int>::empty());
    }
}

/// While a writer is about to write no reader holds the lock.
pub proof fn law_writers_see_the_readers_leave<T>(lock: &RwSpinLock<T>, writer: int, reader: int)
    requires
        lock.wf(),
        lock.users().ready.contains(writer) || lock.users().writing == Some(writer),
    ensures
        !lock.users().reading.contains(reader),
{
}

} // verus!
