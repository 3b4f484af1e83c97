//! Custom memory allocators.

use vstd::prelude::*;
use super::kind::{Alignment, Capacity, Kind, Record, Size};
use super::kind;

verus! {

/// A block of memory that an allocator gave out, with the values stored in it:
/// they fill the block from its start.
pub struct Block<T> {
    cells: Vec<T>,
    size: usize,
    align: usize,
}

/// The number of values of type `T` that fit in `size` bytes. There is no end to
/// values without a size.
pub open spec fn room_in<T>(size: int) -> int {
    if vstd::layout::size_of::<T>() == 0 {
        usize::MAX as int
    } else {
        size / vstd::layout::size_of::<T>() as int
    }
}

/// Whether a vector without elements can have space reserved for `n` of them: it is for
/// `Vec::try_reserve` to say.
pub open spec fn heap_answers<T>(n: usize, granted: bool) -> bool {
    exists|v: &mut Vec<T>, r: Result<(), std::collections::TryReserveError>|
        {
            &&& #[trigger] call_ensures(Vec::<T>::try_reserve, (v, n), r)
            &&& (*v)@ == Seq::<T>::empty()
            &&& granted == (r is Ok)
        }
}

/// What the heap can answer to a request for a block of a kind, when the block is for values
/// of type `T`: the request is granted, or not. The memory is aligned as the values need it;
/// a request for a stricter alignment is refused.
pub open spec fn heap_for<T>() -> spec_fn(Record, bool) -> bool {
    |kind: Record, granted: bool|
        if kind.align <= vstd::layout::align_of::<T>() {
            heap_answers::<T>(room_in::<T>(kind.size) as usize, granted)
        } else {
            !granted
        }
}

// the number of values of type `T` that fit in a block of the given kind.
fn room_for<T>(kind: &Kind) -> (r: usize)
    ensures
        r == room_in::<T>(kind@.size),
{
    let bytes: usize = kind.size().get();
    let size: usize = core::mem::size_of::<T>();
    proof {
        lemma_room::<T>(bytes as int);
    }
    if size == 0 {
        usize::MAX
    } else {
        bytes / size
    }
}

/// The start of a list, up to `n` entries.
pub open spec fn at_most<T>(s: Seq<T>, n: int) -> Seq<T> {
    if s.len() <= n {
        s
    } else {
        s.take(n)
    }
}

impl<T> Block<T> {
    /// The size and the alignment that the block was last asked for with.
    pub closed spec fn record(&self) -> Record {
        Record { size: self.size as int, align: self.align as int }
    }

    /// The values stored in the block.
    pub closed spec fn contents(&self) -> Seq<T> {
        self.cells@
    }

    /// The number of values that the block has room for.
    pub open spec fn room(&self) -> int {
        room_in::<T>(self.record().size)
    }

    /// The values fit in the block.
    pub open spec fn wf(&self) -> bool {
        self.contents().len() <= self.room()
    }

    /// Whether the block holds no memory: its cells are as `Vec::new` makes them, which does
    /// not allocate.
    pub closed spec fn unallocated(&self) -> bool {
        call_ensures(Vec::<T>::new, (), self.cells)
    }

    /// A block without memory.
    pub fn empty() -> (r: Block<T>)
        ensures
            r.wf(),
            r.unallocated(),
            r.record().size == 0,
            r.record().align == vstd::layout::align_of::<T>(),
            r.contents() == Seq::<T>::empty(),
    {
        proof {
            lemma_room::<T>(0);
        }
        Block { cells: Vec::new(), size: 0, align: core::mem::align_of::<T>() }
    }

    /// A block of the given kind, in the memory of a vector without elements.
    pub fn new(memory: Vec<T>, kind: Kind) -> (r: Block<T>)
        requires
            memory@.len() == 0,
        ensures
            r.wf(),
            r.record() == kind@,
            r.contents() == Seq::<T>::empty(),
    {
        let size: usize = kind.size().get();
        let align: usize = kind.align().get();
        proof {
            lemma_room::<T>(size as int);
        }
        Block { cells: memory, size, align }
    }

    /// The number of values stored in the block.
    pub fn len(&self) -> (r: usize)
        ensures
            r == self.contents().len(),
    {
        self.cells.len()
    }

    /// Stores another value in the block.
    pub fn push(&mut self, value: T)
        requires
            old(self).contents().len() < old(self).room(),
        ensures
            final(self).wf(),
            final(self).record() == old(self).record(),
            final(self).contents() == old(self).contents().push(value),
    {
        self.cells.push(value);
    }

    /// Takes the last value out of the block.
    pub fn pop(&mut self) -> (r: Option<T>)
        requires
            old(self).wf(),
        ensures
            final(self).wf(),
            final(self).record() == old(self).record(),
            match r {
                Some(v) => {
                    &&& 0 < old(self).contents().len()
                    &&& v == old(self).contents().last()
                    &&& final(self).contents() == old(self).contents().drop_last()
                },
                None => {
                    &&& old(self).contents().len() == 0
                    &&& final(self).contents() == old(self).contents()
                },
            },
    {
        self.cells.pop()
    }

    /// The values stored in the block.
    pub fn cells(&self) -> (r: &Vec<T>)
        ensures
            r@ == self.contents(),
    {
        &self.cells
    }

    /// Access to one of the values.
    pub fn cell_mut(&mut self, i: usize) -> (r: &mut T)
        requires
            i < old(self).contents().len(),
        ensures
            *r == old(self).contents()[i as int],
            final(self).record() == old(self).record(),
            final(self).contents() == old(self).contents().update(i as int, *final(r)),
        no_unwind
    {
        &mut self.cells[i]
    }

    /// Uses the block as one of another kind. Values that no longer fit are lost.
    pub fn reuse_as(&mut self, kind: Kind)
        requires
            old(self).wf(),
        ensures
            final(self).wf(),
            final(self).record() == kind@,
            final(self).contents() == at_most(old(self).contents(), room_in::<T>(kind@.size)),
    {
        let size: usize = kind.size().get();
        let align: usize = kind.align().get();
        let room: usize = room_for::<T>(&kind);
        if self.cells.len() > room {
            self.cells.truncate(room);
        }
        self.size = size;
        self.align = align;
    }

    /// Moves the values of another block into this one, as many as fit.
    pub fn refill(&mut self, other: &mut Block<T>)
        requires
            old(self).wf(),
            old(self).contents().len() == 0,
        ensures
            final(self).wf(),
            final(self).record() == old(self).record(),
            final(self).contents() == at_most(old(other).contents(), old(self).room()),
            final(other).record() == old(other).record(),
            final(other).contents().len() == 0,
    {
        core::mem::swap(&mut self.cells, &mut other.cells);
        let size: usize = core::mem::size_of::<T>();
        proof {
            lemma_room::<T>(self.size as int);
        }
        let len: usize = self.cells.len();
        if size > 0 {
            let room: usize = self.size / size;
            if len > room {
                self.cells.truncate(room);
            }
        }
    }
}

// there is room for a number of values that can be counted.
pub proof fn lemma_room<T>(size: int)
    requires
        0 <= size <= usize::MAX,
    ensures
        0 <= room_in::<T>(size) <= usize::MAX,
{
    let s = vstd::layout::size_of::<T>() as int;
    if s > 0 {
        assert(0 <= size / s <= size) by (nonlinear_arith)
            requires
                0 < s,
                0 <= size,
        ;
    }
}

/// Represents the combination of a block and its total capacity.
pub struct Excess<T>(pub Block<T>, pub Capacity);

/// What an allocator answered, apart from what it handed out.
pub open spec fn outcome<V, E>(r: Result<V, E>) -> Result<(), E> {
    match r {
        Ok(_) => Ok(()),
        Err(e) => Err(e),
    }
}

/// What the errors of all allocators have in common.
pub trait AllocError: Sized {
    /// The error for requests that are always illegal for any allocator.
    spec fn spec_invalid_input() -> Self;

    /// Whether the request was refused for want of memory.
    spec fn exhausted(&self) -> bool;

    /// Whether the request can never be satisfied.
    spec fn unsupported(&self) -> bool;

    /// Construct an error that indicates operation failure due to
    /// invalid input values for the request.
    ///
    /// This can be used, for example, to signal an overflow occurred
    /// during arithmetic computation. (However, since overflows
    /// frequently represent an allocation attempt that would exhaust
    /// memory, clients are alternatively allowed to construct an error
    /// representing memory exhaustion in such scenarios.)
    fn invalid_input() -> (r: Self)
        ensures
            r == Self::spec_invalid_input(),
    ;

    /// Returns true if the error is due to hitting some resource
    /// limit or otherwise running out of memory. This condition
    /// serves as a hint that some series of deallocations *might*
    /// allow a subsequent reissuing of the original allocation
    /// request to succeed.
    fn is_memory_exhausted(&self) -> (r: bool)
        ensures
            r == self.exhausted(),
    ;

    /// Returns true if the allocator is fundamentally incapable of
    /// satisfying the original request. This condition implies that
    /// such an allocation request will never succeed on this
    /// allocator, regardless of environment, memory pressure, or
    /// other contextual condtions.
    fn is_request_unsupported(&self) -> (r: bool)
        ensures
            r == self.unsupported(),
    ;
}

/// The `MemoryExhausted` error represents a blanket condition
/// that the given request was not satisifed for some reason beyond
/// any particular limitations of a given allocator.
///
/// Allocators that can in principle allocate any kind of legal input
/// might choose this as their associated error type.
#[derive(Copy, Clone, PartialEq, Eq, Debug, Structural)]
pub struct MemoryExhausted;

/// The `AllocErr` error specifies whether an allocation failure is
/// specifically due to resource exhaustion or if it is due to
/// something wrong when combining the given input arguments with this
/// allocator.
///
/// Allocators that only support certain classes of inputs might choose this
/// as their associated error type, so that clients can respond appropriately
/// to specific error failure scenarios.
#[derive(Copy, Clone, PartialEq, Eq, Debug, Structural)]
pub enum AllocErr {
    /// Error due to hitting some resource limit or otherwise running
    /// out of memory. This condition strongly implies that *some*
    /// series of deallocations would allow a subsequent reissuing of
    /// the original allocation request to succeed.
    Exhausted,
    /// Error due to allocator being fundamentally incapable of
    /// satisfying the original request. This condition implies that
    /// such an allocation request will never succeed on the given
    /// allocator, regardless of environment, memory pressure, or
    /// other contextual condtions.
    Unsupported,
}

impl AllocError for MemoryExhausted {
    open spec fn spec_invalid_input() -> Self {
        MemoryExhausted
    }

    open spec fn exhausted(&self) -> bool {
        true
    }

    open spec fn unsupported(&self) -> bool {
        false
    }

    fn invalid_input() -> (r: Self) {
        MemoryExhausted
    }

    fn is_memory_exhausted(&self) -> (r: bool) {
        true
    }

    fn is_request_unsupported(&self) -> (r: bool) {
        false
    }
}

impl AllocError for AllocErr {
    open spec fn spec_invalid_input() -> Self {
        AllocErr::Unsupported
    }

    open spec fn exhausted(&self) -> bool {
        *self == AllocErr::Exhausted
    }

    open spec fn unsupported(&self) -> bool {
        *self == AllocErr::Unsupported
    }

    fn invalid_input() -> (r: Self) {
        AllocErr::Unsupported
    }

    fn is_memory_exhausted(&self) -> (r: bool) {
        *self == AllocErr::Exhausted
    }

    fn is_request_unsupported(&self) -> (r: bool) {
        *self == AllocErr::Unsupported
    }
}

/// A block of one kind can be used as one of another kind, given the bounds on its usable
/// size.
pub open spec fn reusable(usable: (int, int), kind: Record, new_kind: Record) -> bool {
    usable.0 <= new_kind.size <= usable.1 && new_kind.align <= kind.align
}

/// An implementation of `Allocator` can allocate, reallocate, and
/// deallocate blocks of data described via `Kind`.
///
/// Some of the methods require that a kind *fit* a memory block: the block was
/// last asked for with that kind.
pub trait Allocator: Sized {
    /// When allocation requests cannot be satisified, an instance of
    /// this error is returned.
    ///
    /// Many allocators will want to use the zero-sized
    /// `MemoryExhausted` type for this.
    type Error: AllocError;

    /// The bounds on the usable size of a block of the given kind.
    spec fn usable(&self, kind: Record) -> (int, int);

    /// Whether the allocator can answer a request for a block of the given kind with this
    /// outcome, and be left in this state. What the heap can answer depends on the values
    /// that the block is for: `heap` says whether it can grant, or refuse, the memory.
    spec fn answers(
        heap: spec_fn(Record, bool) -> bool,
        before: Self,
        kind: Record,
        outcome: Result<(), Self::Error>,
        after: Self,
    ) -> bool;

    /// Whether the allocator can take back a block of the given kind with this outcome,
    /// and be left in this state.
    spec fn frees(
        before: Self,
        kind: Record,
        outcome: Result<(), Self::Error>,
        after: Self,
    ) -> bool;

    /// Whether the allocator can answer a request to make a block one of another kind with
    /// this outcome, and be left in this state.
    spec fn reallocates(
        heap: spec_fn(Record, bool) -> bool,
        before: Self,
        kind: Record,
        new_kind: Record,
        outcome: Result<(), Self::Error>,
        after: Self,
    ) -> bool;

    /// A block of which enough is usable can stay as it is.
    proof fn lemma_reuse(
        heap: spec_fn(Record, bool) -> bool,
        before: Self,
        kind: Record,
        new_kind: Record,
    )
        requires
            reusable(before.usable(kind), kind, new_kind),
        ensures
            Self::reallocates(heap, before, kind, new_kind, Ok(()), before),
    ;

    /// The values can move to a new block, and the old one be taken back, however that
    /// turns out.
    proof fn lemma_move(
        heap: spec_fn(Record, bool) -> bool,
        before: Self,
        kind: Record,
        new_kind: Record,
        between: Self,
        freed: Result<(), Self::Error>,
        after: Self,
    )
        requires
            !reusable(before.usable(kind), kind, new_kind),
            Self::answers(heap, before, new_kind, Ok(()), between),
            Self::frees(between, kind, freed, after),
        ensures
            Self::reallocates(heap, before, kind, new_kind, Ok(()), after),
    ;

    /// Without a new block for the values, the request is refused.
    proof fn lemma_refusal(
        heap: spec_fn(Record, bool) -> bool,
        before: Self,
        kind: Record,
        new_kind: Record,
        e: Self::Error,
        after: Self,
    )
        requires
            !reusable(before.usable(kind), kind, new_kind),
            Self::answers(heap, before, new_kind, Err(e), after),
        ensures
            Self::reallocates(heap, before, kind, new_kind, Err(e), after),
    ;

    /// Returns a block suitable for holding data described by
    /// `kind`, meeting its size and alignment guarantees. No value is stored in it.
    ///
    /// Returns `Err` if allocation fails or if `kind` does
    /// not meet allocator's size or alignment constraints.
    fn allocate<T>(&mut self, kind: Kind) -> (r: Result<Block<T>, Self::Error>)
        ensures
            r matches Ok(b) ==> {
                &&& b.wf()
                &&& b.record() == kind@
                &&& b.contents() == Seq::<T>::empty()
            },
            Self::answers(heap_for::<T>(), *old(self), kind@, outcome(r), *final(self)),
    ;

    /// Deallocate the memory of a block.
    ///
    /// `kind` must *fit* the provided block (see above).
    ///
    /// Returns `Err` only if deallocation fails in some fashion.
    /// In this case callers must assume that ownership of the block has
    /// been unrecoverably lost (memory may have been leaked).
    ///
    /// Note: Implementors are encouraged to avoid `Err`-failure from
    /// `dealloc`; most memory allocation APIs do not support
    /// signalling failure in their `free` routines.
    fn dealloc<T>(&mut self, block: Block<T>, kind: Kind) -> (r: Result<(), Self::Error>)
        requires
            block.record() == kind@,
        ensures
            Self::frees(*old(self), kind@, r, *final(self)),
    ;

    /// The maximum requestable size in bytes for memory blocks
    /// managed by this allocator.
    ///
    /// Returns `None` if this allocator has no explicit maximum size.
    /// (Note that such allocators may well still have an *implicit*
    /// maximum size; i.e. allocation requests can always fail.)
    fn max_size(&self) -> (r: Option<Size>)
        default_ensures
            r is None,
    {
        None
    }

    /// The maximum requestable alignment in bytes for memory blocks
    /// managed by this allocator.
    ///
    /// Returns `None` if this allocator has no assigned maximum
    /// alignment.  (Note that such allocators may well still have an
    /// *implicit* maximum alignment; i.e. allocation requests can
    /// always fail.)
    fn max_align(&self) -> (r: Option<Alignment>)
        default_ensures
            r is None,
    {
        None
    }

    /// Returns bounds on the guaranteed usable size of a successful
    /// allocation created with the specified `kind`.
    ///
    /// In particular, for a given kind `k`, if `usable_size(k)` returns
    /// `(l, m)`, then one can use a block of kind `k` as if it has any
    /// size in the range `[l, m]` (inclusive).
    ///
    /// Both the lower- and upper-bounds (`l` and `m` respectively) are
    /// provided: An allocator based on size classes could misbehave
    /// if one attempts to deallocate a block without providing a
    /// correct value for its size (i.e., one within the range `[l, m]`).
    fn usable_size(&self, kind: Kind) -> (r: (Capacity, Capacity))
        ensures
            r.0@ == self.usable(kind@).0,
            r.1@ == self.usable(kind@).1,
            r.0@ <= kind@.size <= r.1@,
    ;

    /// Makes a block suitable for holding data described by
    /// `new_kind`, meeting its size and alignment guarantees. To
    /// accomplish this, this may extend or shrink the allocation
    /// to fit `new_kind`, or move the data to another one.
    ///
    /// * `kind` must *fit* the block (see above). (The `new_kind`
    ///   argument need not fit it.)
    ///
    /// The values stored in the block stay, as far as they fit.
    ///
    /// If this method returns `Err`, then the block is unaltered.
    fn realloc<T>(&mut self, block: &mut Block<T>, kind: Kind, new_kind: Kind) -> (r: Result<
        (),
        Self::Error,
    >)
        requires
            old(block).wf(),
            old(block).record() == kind@,
        ensures
            match r {
                Ok(_) => {
                    &&& final(block).wf()
                    &&& final(block).record() == new_kind@
                    &&& final(block).contents() == at_most(
                        old(block).contents(),
                        room_in::<T>(new_kind@.size),
                    )
                },
                Err(_) => *final(block) == *old(block),
            },
            Self::reallocates(heap_for::<T>(), *old(self), kind@, new_kind@, r, *final(self)),
        default_ensures
            reusable(old(self).usable(kind@), kind@, new_kind@) ==> r is Ok && *final(self) == *old(
                self,
            ),
    {
        let (min, max) = self.usable_size(kind);
        let s: usize = new_kind.size().get();
        // All Kind alignments are powers of two, so a comparison
        // suffices here (rather than resorting to a `%` operation).
        if min.get() <= s && s <= max.get() && new_kind.align().get() <= kind.align().get() {
            proof {
                Self::lemma_reuse(heap_for::<T>(), *self, kind@, new_kind@);
            }
            block.reuse_as(new_kind);
            Ok(())
        } else {
            match self.allocate::<T>(new_kind) {
                Ok(mut moved) => {
                    moved.refill(block);
                    core::mem::swap(block, &mut moved);
                    // all we can do if the deallocation fails is either:
                    //
                    // 1. free the block we just finished moving
                    //    into and pass the error up,
                    // 2. panic (same as if we had called `unwrap`),
                    // 3. try to dealloc again, or
                    // 4. ignore the dealloc error.
                    //
                    // They are all terrible; (1.) and (2.) seem unjustifiable,
                    // and (3.) seems likely to yield an infinite loop.
                    // So we choose (4.): ignore the dealloc error.
                    let ghost between = *self;
                    let freed = self.dealloc(moved, kind);
                    proof {
                        Self::lemma_move(
                            heap_for::<T>(),
                            *old(self),
                            kind@,
                            new_kind@,
                            between,
                            freed,
                            *self,
                        );
                    }
                    Ok(())
                },
                Err(e) => {
                    proof {
                        Self::lemma_refusal(
                            heap_for::<T>(),
                            *old(self),
                            kind@,
                            new_kind@,
                            e,
                            *self,
                        );
                    }
                    Err(e)
                },
            }
        }
    }

    /// Behaves like `fn allocate`, but also returns the whole size of
    /// the returned block. For some `kind` inputs, like arrays, this
    /// may include extra storage usable for additional data.
    fn alloc_excess<T>(&mut self, kind: Kind) -> (r: Result<Excess<T>, Self::Error>)
        ensures
            r matches Ok(ex) ==> {
                &&& ex.0.wf()
                &&& ex.0.record() == kind@
                &&& ex.0.contents() == Seq::<T>::empty()
                &&& ex.1@ == final(self).usable(kind@).1
                &&& kind@.size <= ex.1@
            },
            Self::answers(heap_for::<T>(), *old(self), kind@, outcome(r), *final(self)),
    {
        match self.allocate::<T>(kind) {
            Ok(block) => {
                let (_, max) = self.usable_size(kind);
                Ok(Excess(block, max))
            },
            Err(e) => Err(e),
        }
    }

    /// Behaves like `fn realloc`, but also returns the whole size of
    /// the block. For some `kind` inputs, like arrays, this
    /// may include extra storage usable for additional data.
    fn realloc_excess<T>(&mut self, block: &mut Block<T>, kind: Kind, new_kind: Kind) -> (r: Result<
        Capacity,
        Self::Error,
    >)
        requires
            old(block).wf(),
            old(block).record() == kind@,
        ensures
            match r {
                Ok(capacity) => {
                    &&& final(block).wf()
                    &&& final(block).record() == new_kind@
                    &&& final(block).contents() == at_most(
                        old(block).contents(),
                        room_in::<T>(new_kind@.size),
                    )
                    &&& capacity@ == final(self).usable(new_kind@).1
                    &&& new_kind@.size <= capacity@
                },
                Err(_) => *final(block) == *old(block),
            },
            Self::reallocates(
                heap_for::<T>(),
                *old(self),
                kind@,
                new_kind@,
                outcome(r),
                *final(self),
            ),
    {
        match self.realloc(block, kind, new_kind) {
            Ok(done) => {
                assert(done == ());
                let (_, max) = self.usable_size(new_kind);
                Ok(max)
            },
            Err(e) => Err(e),
        }
    }

    /// Allocates a block suitable for holding an instance of `T`.
    ///
    /// Captures a common usage pattern for allocators.
    fn alloc_one<T>(&mut self) -> (r: Result<Block<T>, Self::Error>)
        ensures
            match r {
                Ok(b) => {
                    &&& 0 < vstd::layout::size_of::<T>()
                    &&& b.wf()
                    &&& b.record() == kind::record_of::<T>()
                    &&& b.contents() == Seq::<T>::empty()
                },
                Err(e) => vstd::layout::size_of::<T>() == 0 ==> e
                    == Self::Error::spec_invalid_input(),
            },
            if vstd::layout::size_of::<T>() == 0 {
                *final(self) == *old(self)
            } else {
                Self::answers(
                    heap_for::<T>(),
                    *old(self),
                    kind::record_of::<T>(),
                    outcome(r),
                    *final(self),
                )
            },
    {
        match Kind::new::<T>() {
            Some(k) => self.allocate::<T>(k),
            // (only occurs for zero-sized T)
            None => Err(Self::Error::invalid_input()),
        }
    }

    /// Deallocates a block suitable for holding an instance of `T`.
    ///
    /// Captures a common usage pattern for allocators.
    fn dealloc_one<T>(&mut self, block: Block<T>) -> (r: Result<(), Self::Error>)
        requires
            0 < vstd::layout::size_of::<T>(),
            block.record() == kind::record_of::<T>(),
        ensures
            Self::frees(*old(self), kind::record_of::<T>(), r, *final(self)),
    {
        match Kind::new::<T>() {
            Some(k) => self.dealloc(block, k),
            None => Err(Self::Error::invalid_input()),
        }
    }

    /// Allocates a block suitable for holding `n` instances of `T`.
    ///
    /// Captures a common usage pattern for allocators.
    fn alloc_array<T>(&mut self, n: usize) -> (r: Result<Block<T>, Self::Error>)
        ensures
            match r {
                Ok(b) => {
                    &&& kind::array_exists::<T>(n as int)
                    &&& b.wf()
                    &&& b.record() == kind::array_record::<T>(n as int)
                    &&& b.contents() == Seq::<T>::empty()
                },
                Err(e) => !kind::array_exists::<T>(n as int) ==> e
                    == Self::Error::spec_invalid_input(),
            },
            if kind::array_exists::<T>(n as int) {
                Self::answers(
                    heap_for::<T>(),
                    *old(self),
                    kind::array_record::<T>(n as int),
                    outcome(r),
                    *final(self),
                )
            } else {
                *final(self) == *old(self)
            },
    {
        match Kind::array::<T>(n) {
            Some(kind) => self.allocate::<T>(kind),
            None => Err(Self::Error::invalid_input()),
        }
    }

    /// Reallocates a block previously suitable for holding `n_old`
    /// instances of `T`, so that it is suitable for holding
    /// `n_new` instances of `T`.
    ///
    /// Captures a common usage pattern for allocators.
    fn realloc_array<T>(&mut self, block: &mut Block<T>, n_old: usize, n_new: usize) -> (r: Result<
        (),
        Self::Error,
    >)
        requires
            old(block).wf(),
            old(block).record() == kind::array_record::<T>(n_old as int),
        ensures
            match r {
                Ok(_) => {
                    &&& kind::array_exists::<T>(n_old as int)
                    &&& kind::array_exists::<T>(n_new as int)
                    &&& final(block).wf()
                    &&& final(block).record() == kind::array_record::<T>(n_new as int)
                    &&& final(block).contents() == at_most(old(block).contents(), n_new as int)
                },
                Err(e) => {
                    &&& *final(block) == *old(block)
                    &&& !kind::array_exists::<T>(n_old as int) || !kind::array_exists::<T>(
                        n_new as int,
                    ) ==> e == Self::Error::spec_invalid_input()
                },
            },
            if kind::array_exists::<T>(n_old as int) && kind::array_exists::<T>(n_new as int) {
                Self::reallocates(
                    heap_for::<T>(),
                    *old(self),
                    kind::array_record::<T>(n_old as int),
                    kind::array_record::<T>(n_new as int),
                    r,
                    *final(self),
                )
            } else {
                *final(self) == *old(self)
            },
    {
        match (Kind::array::<T>(n_old), Kind::array::<T>(n_new)) {
            (Some(k_old), Some(k_new)) => {
                proof {
                    lemma_array_room::<T>(n_new as int);
                }
                self.realloc(block, k_old, k_new)
            },
            _ => Err(Self::Error::invalid_input()),
        }
    }

    /// Deallocates a block suitable for holding `n` instances of `T`.
    ///
    /// Captures a common usage pattern for allocators.
    fn dealloc_array<T>(&mut self, block: Block<T>, n: usize) -> (r: Result<(), Self::Error>)
        requires
            block.record() == kind::array_record::<T>(n as int),
        ensures
            if kind::array_exists::<T>(n as int) {
                Self::frees(*old(self), kind::array_record::<T>(n as int), r, *final(self))
            } else {
                &&& r == Err::<(), Self::Error>(Self::Error::spec_invalid_input())
                &&& *final(self) == *old(self)
            },
    {
        match Kind::array::<T>(n) {
            Some(k) => self.dealloc(block, k),
            None => Err(Self::Error::invalid_input()),
        }
    }

    /// Returns a block suitable for holding data described by
    /// `kind`, meeting its size and alignment guarantees.
    ///
    /// Returns `None` if request unsatisfied.
    fn alloc_unchecked<T>(&mut self, kind: Kind) -> (r: Option<Block<T>>)
        ensures
            r matches Some(b) ==> {
                &&& b.wf()
                &&& b.record() == kind@
                &&& b.contents() == Seq::<T>::empty()
            },
            exists|out: Result<(), Self::Error>|
                {
                    &&& #[trigger] Self::answers(
                        heap_for::<T>(),
                        *old(self),
                        kind@,
                        out,
                        *final(self),
                    )
                    &&& r is Some <==> out is Ok
                },
    {
        // (default implementation carries checks, but impl's are free to omit them.)
        let r = self.allocate::<T>(kind);
        assert(Self::answers(heap_for::<T>(), *old(self), kind@, outcome(r), *self));
        r.ok()
    }

    /// Deallocate the memory of a block.
    ///
    /// `kind` must *fit* the provided block (see above).
    /// Returns `None` if the deallocation failed in some fashion.
    fn dealloc_unchecked<T>(&mut self, block: Block<T>, kind: Kind) -> (r: Option<()>)
        requires
            block.record() == kind@,
        ensures
            exists|out: Result<(), Self::Error>|
                {
                    &&& #[trigger] Self::frees(*old(self), kind@, out, *final(self))
                    &&& r is Some <==> out is Ok
                },
    {
        // (default implementation carries checks, but impl's are free to omit them.)
        let r = self.dealloc(block, kind);
        assert(Self::frees(*old(self), kind@, r, *self));
        r.ok()
    }

    /// Makes a block suitable for holding data described by
    /// `new_kind`, meeting its size and alignment guarantees.
    ///
    /// * `kind` must *fit* the block (see above). (The `new_kind`
    ///   argument need not fit it.)
    ///
    /// Returns `None` if reallocation fails; in this scenario, the
    /// block is unaltered.
    fn realloc_unchecked<T>(&mut self, block: &mut Block<T>, kind: Kind, new_kind: Kind) -> (r:
        Option<()>)
        requires
            old(block).wf(),
            old(block).record() == kind@,
        ensures
            match r {
                Some(_) => {
                    &&& final(block).wf()
                    &&& final(block).record() == new_kind@
                    &&& final(block).contents() == at_most(
                        old(block).contents(),
                        room_in::<T>(new_kind@.size),
                    )
                },
                None => *final(block) == *old(block),
            },
            exists|out: Result<(), Self::Error>|
                {
                    &&& #[trigger] Self::reallocates(
                        heap_for::<T>(),
                        *old(self),
                        kind@,
                        new_kind@,
                        out,
                        *final(self),
                    )
                    &&& r is Some <==> out is Ok
                },
    {
        // (default implementation carries checks, but impl's are free to omit them.)
        let r = self.realloc(block, kind, new_kind);
        assert(Self::reallocates(heap_for::<T>(), *old(self), kind@, new_kind@, r, *self));
        r.ok()
    }

    /// Behaves like `fn alloc_unchecked`, but also returns the whole
    /// size of the returned block.
    fn alloc_excess_unchecked<T>(&mut self, kind: Kind) -> (r: Option<Excess<T>>)
        ensures
            r matches Some(ex) ==> {
                &&& ex.0.wf()
                &&& ex.0.record() == kind@
                &&& ex.0.contents() == Seq::<T>::empty()
                &&& ex.1@ == final(self).usable(kind@).1
                &&& kind@.size <= ex.1@
            },
            exists|out: Result<(), Self::Error>|
                {
                    &&& #[trigger] Self::answers(
                        heap_for::<T>(),
                        *old(self),
                        kind@,
                        out,
                        *final(self),
                    )
                    &&& r is Some <==> out is Ok
                },
    {
        let r = self.alloc_excess::<T>(kind);
        assert(Self::answers(heap_for::<T>(), *old(self), kind@, outcome(r), *self));
        r.ok()
    }

    /// Behaves like `fn realloc_unchecked`, but also returns the
    /// whole size of the block.
    fn realloc_excess_unchecked<T>(
        &mut self,
        block: &mut Block<T>,
        kind: Kind,
        new_kind: Kind,
    ) -> (r: Option<Capacity>)
        requires
            old(block).wf(),
            old(block).record() == kind@,
        ensures
            match r {
                Some(capacity) => {
                    &&& final(block).wf()
                    &&& final(block).record() == new_kind@
                    &&& final(block).contents() == at_most(
                        old(block).contents(),
                        room_in::<T>(new_kind@.size),
                    )
                    &&& capacity@ == final(self).usable(new_kind@).1
                    &&& new_kind@.size <= capacity@
                },
                None => *final(block) == *old(block),
            },
            exists|out: Result<(), Self::Error>|
                {
                    &&& #[trigger] Self::reallocates(
                        heap_for::<T>(),
                        *old(self),
                        kind@,
                        new_kind@,
                        out,
                        *final(self),
                    )
                    &&& r is Some <==> out is Ok
                },
    {
        let r = self.realloc_excess(block, kind, new_kind);
        assert(Self::reallocates(heap_for::<T>(), *old(self), kind@, new_kind@, outcome(r), *self));
        r.ok()
    }

    /// Allocates a block suitable for holding `n` instances of `T`.
    ///
    /// Captures a common usage pattern for allocators.
    ///
    /// Requires inputs are non-zero and do not cause arithmetic
    /// overflow, and `T` is not zero sized.
    fn alloc_array_unchecked<T>(&mut self, n: usize) -> (r: Option<Block<T>>)
        requires
            kind::array_exists::<T>(n as int),
        ensures
            r matches Some(b) ==> {
                &&& b.wf()
                &&& b.record() == kind::array_record::<T>(n as int)
                &&& b.contents() == Seq::<T>::empty()
            },
            exists|out: Result<(), Self::Error>|
                {
                    &&& #[trigger] Self::answers(
                        heap_for::<T>(),
                        *old(self),
                        kind::array_record::<T>(n as int),
                        out,
                        *final(self),
                    )
                    &&& r is Some <==> out is Ok
                },
    {
        let kind = Kind::array_unchecked::<T>(n);
        self.alloc_unchecked::<T>(kind)
    }

    /// Reallocates a block suitable for holding `n_old` instances of `T`,
    /// so that it is suitable for holding `n_new` instances of `T`.
    ///
    /// Captures a common usage pattern for allocators.
    ///
    /// Requires inputs are non-zero and do not cause arithmetic
    /// overflow, and `T` is not zero sized.
    fn realloc_array_unchecked<T>(
        &mut self,
        block: &mut Block<T>,
        n_old: usize,
        n_new: usize,
    ) -> (r: Option<()>)
        requires
            old(block).wf(),
            old(block).record() == kind::array_record::<T>(n_old as int),
            kind::array_exists::<T>(n_old as int),
            kind::array_exists::<T>(n_new as int),
        ensures
            match r {
                Some(_) => {
                    &&& final(block).wf()
                    &&& final(block).record() == kind::array_record::<T>(n_new as int)
                    &&& final(block).contents() == at_most(old(block).contents(), n_new as int)
                },
                None => *final(block) == *old(block),
            },
            exists|out: Result<(), Self::Error>|
                {
                    &&& #[trigger] Self::reallocates(
                        heap_for::<T>(),
                        *old(self),
                        kind::array_record::<T>(n_old as int),
                        kind::array_record::<T>(n_new as int),
                        out,
                        *final(self),
                    )
                    &&& r is Some <==> out is Ok
                },
    {
        let k_old = Kind::array_unchecked::<T>(n_old);
        let k_new = Kind::array_unchecked::<T>(n_new);
        proof {
            lemma_array_room::<T>(n_new as int);
        }
        self.realloc_unchecked(block, k_old, k_new)
    }

    /// Deallocates a block suitable for holding `n` instances of `T`.
    ///
    /// Captures a common usage pattern for allocators.
    ///
    /// Requires inputs are non-zero and do not cause arithmetic
    /// overflow, and `T` is not zero sized.
    fn dealloc_array_unchecked<T>(&mut self, block: Block<T>, n: usize) -> (r: Option<()>)
        requires
            kind::array_exists::<T>(n as int),
            block.record() == kind::array_record::<T>(n as int),
        ensures
            exists|out: Result<(), Self::Error>|
                {
                    &&& #[trigger] Self::frees(
                        *old(self),
                        kind::array_record::<T>(n as int),
                        out,
                        *final(self),
                    )
                    &&& r is Some <==> out is Ok
                },
    {
        let kind = Kind::array_unchecked::<T>(n);
        self.dealloc_unchecked(block, kind)
    }
}

// an array has room for its values.
pub proof fn lemma_array_room<T>(n: int)
    requires
        kind::array_exists::<T>(n),
    ensures
        room_in::<T>(kind::array_record::<T>(n).size) == n,
{
    let s = vstd::layout::size_of::<T>() as int;
    assert((n * s) / s == n) by (nonlinear_arith)
        requires
            0 < s,
    ;
}

/// The Default Allocator is a stub defaulting to the heap.
#[derive(Clone, Copy, Debug)]
pub struct DefaultAllocator;

impl Default for DefaultAllocator {
    fn default() -> (r: DefaultAllocator)
        ensures
            r == DefaultAllocator,
    {
        DefaultAllocator
    }
}

impl Allocator for DefaultAllocator {
    type Error = MemoryExhausted;

    open spec fn usable(&self, kind: Record) -> (int, int) {
        (kind.size, kind.size)
    }

    /// The outcome is what the heap answers. There is nothing that the allocator remembers.
    open spec fn answers(
        heap: spec_fn(Record, bool) -> bool,
        before: Self,
        kind: Record,
        outcome: Result<(), MemoryExhausted>,
        after: Self,
    ) -> bool {
        heap(kind, outcome is Ok) && after == before
    }

    open spec fn frees(
        before: Self,
        kind: Record,
        outcome: Result<(), MemoryExhausted>,
        after: Self,
    ) -> bool {
        outcome is Ok && after == before
    }

    open spec fn reallocates(
        heap: spec_fn(Record, bool) -> bool,
        before: Self,
        kind: Record,
        new_kind: Record,
        outcome: Result<(), MemoryExhausted>,
        after: Self,
    ) -> bool {
        if reusable(before.usable(kind), kind, new_kind) {
            outcome is Ok && after == before
        } else {
            Self::answers(heap, before, new_kind, outcome, after)
        }
    }

    proof fn lemma_reuse(
        heap: spec_fn(Record, bool) -> bool,
        before: Self,
        kind: Record,
        new_kind: Record,
    ) {
    }

    proof fn lemma_move(
        heap: spec_fn(Record, bool) -> bool,
        before: Self,
        kind: Record,
        new_kind: Record,
        between: Self,
        freed: Result<(), MemoryExhausted>,
        after: Self,
    ) {
    }

    proof fn lemma_refusal(
        heap: spec_fn(Record, bool) -> bool,
        before: Self,
        kind: Record,
        new_kind: Record,
        e: MemoryExhausted,
        after: Self,
    ) {
    }

    fn allocate<T>(&mut self, kind: Kind) -> (r: Result<Block<T>, MemoryExhausted>)
        ensures
            heap_for::<T>()(kind@, r is Ok),
    {
        // the memory is aligned as the values are.
        if kind.align().get() > core::mem::align_of::<T>() {
            return Err(MemoryExhausted);
        }
        let mut memory: Vec<T> = Vec::new();
        match memory.try_reserve(room_for::<T>(&kind)) {
            Ok(_) => Ok(Block::new(memory, kind)),
            Err(_) => Err(MemoryExhausted),
        }
    }

    fn dealloc<T>(&mut self, block: Block<T>, kind: Kind) -> (r: Result<(), MemoryExhausted>)
        ensures
            r is Ok,
    {
        Ok(())
    }

    fn usable_size(&self, kind: Kind) -> (r: (Capacity, Capacity)) {
        proof {
            assert(self.usable(kind@) == (kind@.size, kind@.size));
        }
        (kind.size(), kind.size())
    }
}

/// `kept` is the start of a list: as many of its values as fit in the given number of bytes.
pub open spec fn as_many_as_fit<T>(kept: Seq<T>, all: Seq<T>, bytes: int) -> bool {
    let size = vstd::layout::size_of::<T>() as int;
    &&& kept.is_prefix_of(all)
    &&& kept.len() < all.len() ==> kept.len() * size <= bytes && bytes < (kept.len() + 1) * size
    &&& all.len() * size <= bytes ==> kept == all
}

// the start of a list that is kept is as much as fits.
proof fn lemma_as_many_as_fit<T>(all: Seq<T>, bytes: int)
    requires
        0 <= bytes <= usize::MAX,
        all.len() <= usize::MAX,
    ensures
        as_many_as_fit(at_most(all, room_in::<T>(bytes)), all, bytes),
{
    let size = vstd::layout::size_of::<T>() as int;
    let room = room_in::<T>(bytes);
    lemma_room::<T>(bytes);
    if size > 0 {
        vstd::arithmetic::div_mod::lemma_fundamental_div_mod(bytes, size);
        assert(room * size <= bytes < (room + 1) * size) by (nonlinear_arith)
            requires
                bytes == size * room + bytes % size,
                0 <= bytes % size < size,
        ;
        if all.len() > room {
            let n = all.len() as int;
            assert((room + 1) * size <= n * size) by (nonlinear_arith)
                requires
                    room + 1 <= n,
                    0 < size,
            ;
        }
    }
}

/// Of the values in a block that is used as one of another kind those stay that fit, from the
/// start on, and so do the values that are moved to another block.
pub proof fn law_values_stay_as_far_as_they_fit<T>(kind: Kind)
    requires
        kind@.valid(),
    ensures
        forall|b: &mut Block<T>|
            b.contents().len() <= usize::MAX && #[trigger] call_ensures(
                Block::<T>::reuse_as,
                (b, kind),
                (),
            ) ==> as_many_as_fit(final(b).contents(), b.contents(), kind@.size) && final(b).record()
                == kind@,
        forall|b: &mut Block<T>, other: &mut Block<T>|
            0 <= b.record().size <= usize::MAX && other.contents().len() <= usize::MAX
                && #[trigger] call_ensures(Block::<T>::refill, (b, other), ()) ==> as_many_as_fit(
                final(b).contents(),
                other.contents(),
                b.record().size,
            ) && final(b).record() == b.record(),
{
    assert forall|b: &mut Block<T>|
        b.contents().len() <= usize::MAX && #[trigger] call_ensures(
            Block::<T>::reuse_as,
            (b, kind),
            (),
        ) implies as_many_as_fit(final(b).contents(), b.contents(), kind@.size) by {
        lemma_as_many_as_fit(b.contents(), kind@.size);
    }
    assert forall|b: &mut Block<T>, other: &mut Block<T>|
        0 <= b.record().size <= usize::MAX && other.contents().len() <= usize::MAX
            && #[trigger] call_ensures(Block::<T>::refill, (b, other), ()) implies as_many_as_fit(
        final(b).contents(),
        other.contents(),
        b.record().size,
    ) by {
        lemma_as_many_as_fit(other.contents(), b.record().size);
    }
}

/// An error of an allocator of legal inputs always says that memory ran out. Of the other errors
/// each says one thing, and invalid input is never supported.
pub proof fn law_errors_say_one_thing(
    a: &AllocErr,
    m: &MemoryExhausted,
    a_exhausted: bool,
    a_unsupported: bool,
    m_exhausted: bool,
    m_unsupported: bool,
    invalid: AllocErr,
)
    requires
        call_ensures(<AllocErr as AllocError>::is_memory_exhausted, (a,), a_exhausted),
        call_ensures(<AllocErr as AllocError>::is_request_unsupported, (a,), a_unsupported),
        call_ensures(<MemoryExhausted as AllocError>::is_memory_exhausted, (m,), m_exhausted),
        call_ensures(<MemoryExhausted as AllocError>::is_request_unsupported, (m,), m_unsupported),
        call_ensures(<AllocErr as AllocError>::invalid_input, (), invalid),
    ensures
        a_exhausted == (*a is Exhausted),
        a_unsupported == (*a is Unsupported),
        a_exhausted != a_unsupported,
        m_exhausted && !m_unsupported,
        invalid is Unsupported,
{
}

/// Of a block of the default allocator just the size that was asked for is usable.
pub proof fn law_default_blocks_have_no_excess(
    a: &DefaultAllocator,
    kind: Kind,
    r: (Capacity, Capacity),
)
    requires
        call_ensures(<DefaultAllocator as Allocator>::usable_size, (a, kind), r),
    ensures
        r.0@ == kind@.size,
        r.1@ == kind@.size,
{
}

/// The heap grants a request just if it has memory for as many values as fit in the bytes that are
/// asked for, and no stricter alignment is asked for than the values need.
pub proof fn law_the_heap_grants_what_it_has<T>(kind: Record, granted: bool)
    requires
        kind.valid(),
        vstd::layout::size_of::<T>() > 0,
        heap_for::<T>()(kind, granted),
    ensures
        kind.align > vstd::layout::align_of::<T>() ==> !granted,
        kind.align <= vstd::layout::align_of::<T>() ==> exists|
            v: &mut Vec<T>,
            n: usize,
            answer: Result<(), std::collections::TryReserveError>,
        |
            {
                &&& #[trigger] call_ensures(Vec::<T>::try_reserve, (v, n), answer)
                &&& (*v)@.len() == 0
                &&& n * vstd::layout::size_of::<T>() <= kind.size < (n + 1)
                    * vstd::layout::size_of::<T>()
                &&& granted <==> answer is Ok
            },
{
    let size = vstd::layout::size_of::<T>() as int;
    let bytes = kind.size;
    let room = room_in::<T>(bytes);
    lemma_room::<T>(bytes);
    vstd::arithmetic::div_mod::lemma_fundamental_div_mod(bytes, size);
    assert(room * size <= bytes < (room + 1) * size) by (nonlinear_arith)
        requires
            bytes == size * room + bytes % size,
            0 <= bytes % size < size,
    ;
}

} // verus!
