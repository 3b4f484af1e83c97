//! The memory management of growable arrays.

use vstd::prelude::*;
use crate::memory::allocator::{Allocator, Block, DefaultAllocator};
use crate::memory::allocator;
use crate::memory::boxed::AllocSlice;
use crate::memory::kind::{Kind, Record};
use crate::memory::kind;

verus! {

/// Whether `alloc_size` bytes may be asked for: on platforms with 32 bits, no more
/// than `isize::MAX`.
pub open spec fn size_allowed(alloc_size: int) -> bool {
    usize::BITS == 32 ==> alloc_size <= isize::MAX
}

// We need to guarantee the following:
// * We don't ever allocate `> isize::MAX` byte-size objects
// * We don't overflow `usize::MAX` and actually allocate too little
//
// On 64-bit we just need to check for overflow since trying to allocate
// `> isize::MAX` bytes will surely fail. On 32-bit we need to add an extra
// guard for this in case we're running on a platform which can use all 4GB in
// user-space. e.g. PAE or x32

/// Whether `alloc_size` bytes may be asked for.
pub fn alloc_guard(alloc_size: usize) -> (r: bool)
    ensures
        r == size_allowed(alloc_size as int),
{
    usize::BITS != 32 || alloc_size <= isize::MAX as usize
}

/// Whether the memory for `cap` values of type `T` may be asked for: its size can
/// be counted, and is allowed.
pub open spec fn capacity_allowed<T>(cap: int) -> bool {
    &&& cap * vstd::layout::size_of::<T>() <= usize::MAX
    &&& size_allowed(cap * vstd::layout::size_of::<T>())
}

/// Whether the memory for `cap` values of type `T` may be asked for.
pub fn check_capacity<T>(cap: usize) -> (r: bool)
    ensures
        r == capacity_allowed::<T>(cap as int),
{
    match cap.checked_mul(core::mem::size_of::<T>()) {
        Some(size) => alloc_guard(size),
        None => false,
    }
}

/// A low-level utility for more ergonomically allocating, reallocating, and deallocating a
/// a buffer of memory from an allocator without having to worry about all the corner cases
/// involved. This type is excellent for building your own data structures like Vec and VecDeque.
/// In particular:
///
/// * Does not allocate for zero-sized types
/// * Does not allocate for zero-length allocations
/// * Guards against 32-bit systems allocating more than isize::MAX bytes
/// * Guards against overflowing your length
/// * Hands the error of the allocator up on OOM
///
/// The values stored in the buffer are its own concern only when it is resized: they
/// stay where they are, as far as they fit.
///
/// Note that a RawVec always forces its capacity to be usize::MAX for zero-sized types.
/// This enables you to use capacity growing logic catch the overflows in your length
/// that might occur with zero-sized types.
pub struct RawVec<T, A: Allocator = DefaultAllocator> {
    block: Block<T>,
    cap: usize,
    allocator: A,
}

/// Whether an allocator can refuse a request for a block for values of type `T` with this
/// error.
pub open spec fn may_refuse<T, A: Allocator>(before: A, record: Record, e: A::Error) -> bool {
    exists|after: A| #[trigger] A::answers(
        allocator::heap_for::<T>(),
        before,
        record,
        Err(e),
        after,
    )
}

/// Whether an allocator can fail to take back memory with this error.
pub open spec fn may_fail_to_free<A: Allocator>(before: A, record: Record, e: A::Error) -> bool {
    exists|after: A| #[trigger] A::frees(before, record, Err(e), after)
}

/// Whether an allocator that is given back memory can be left in this state, whether or not
/// it fails to take the memory.
pub open spec fn may_leave<A: Allocator>(before: A, record: Record, after: A) -> bool {
    exists|freed: Result<(), A::Error>| #[trigger] A::frees(before, record, freed, after)
}

/// Whether an allocator that is asked for the memory for `cap` values of type `T` can be
/// left in a new state, or else answer with an error. It is asked for nothing if there is
/// nothing to hold.
pub open spec fn can_supply<T, A: Allocator>(
    before: A,
    cap: int,
    answer: Result<A, A::Error>,
) -> bool {
    let record = kind::array_record::<T>(cap);
    if kind::array_exists::<T>(cap) {
        match answer {
            Ok(after) => A::answers(allocator::heap_for::<T>(), before, record, Ok(()), after),
            Err(e) => may_refuse::<T, A>(before, record, e),
        }
    } else {
        answer == Ok::<A, A::Error>(before)
    }
}

/// Whether an allocator that is given back the memory for `cap` values of type `T` can be
/// left in a new state, or else answer with an error.
pub open spec fn can_release<T, A: Allocator>(
    before: A,
    cap: int,
    answer: Result<A, A::Error>,
) -> bool {
    let record = kind::array_record::<T>(cap);
    match answer {
        Ok(after) => A::frees(before, record, Ok(()), after),
        Err(e) => may_fail_to_free(before, record, e),
    }
}

/// Whether an allocator that is asked to change the memory for `cap` values of type `T` to
/// that for `new_cap` values can answer with this outcome, and be left in this state.
pub open spec fn can_resize<T, A: Allocator>(
    before: A,
    cap: int,
    new_cap: int,
    outcome: Result<(), A::Error>,
    after: A,
) -> bool {
    let record = kind::array_record::<T>(new_cap);
    if cap == 0 {
        A::answers(allocator::heap_for::<T>(), before, record, outcome, after)
    } else {
        A::reallocates(
            allocator::heap_for::<T>(),
            before,
            kind::array_record::<T>(cap),
            record,
            outcome,
            after,
        )
    }
}

/// Whether memory for `cap` values of type `T` is the most that there can be: twice as much
/// may not be asked for, or there is no end to the values already.
pub open spec fn at_limit<T>(cap: int) -> bool {
    if vstd::layout::size_of::<T>() == 0 {
        cap == usize::MAX
    } else {
        !capacity_allowed::<T>(doubled::<T>(cap))
    }
}

/// Whether an allocator can refuse with this error to change the memory for `cap` values of
/// type `T` to that for `new_cap` values.
pub open spec fn may_refuse_resize<T, A: Allocator>(
    before: A,
    cap: int,
    new_cap: int,
    e: A::Error,
) -> bool {
    exists|after: A| #[trigger] can_resize::<T, A>(before, cap, new_cap, Err(e), after)
}

impl<T> RawVec<T, DefaultAllocator> {
    /// Creates the biggest possible RawVec without allocating. If T has positive
    /// size, then this makes a RawVec with capacity 0. If T has 0 size, then it
    /// it makes a RawVec with capacity `usize::MAX`. Useful for implementing
    /// delayed allocation.
    pub fn new() -> (r: Self)
        ensures
            r.wf(),
            r.capacity() == unallocated::<T>(),
            r.contents() == Seq::<T>::empty(),
            r.holds_no_memory(),
    {
        RawVec::with_alloc(DefaultAllocator)
    }

    /// Creates a RawVec with exactly the capacity and alignment requirements
    /// for a `[T; cap]`. This is equivalent to calling RawVec::new when `cap` is 0
    /// or T is zero-sized. Note that if `T` is zero-sized this means you will *not*
    /// get a RawVec with the requested capacity!
    pub fn with_capacity(cap: usize) -> (r: Result<
        Self,
        <DefaultAllocator as Allocator>::Error,
    >)
        requires
            capacity_allowed::<T>(cap as int),
        ensures
            r matches Ok(v) ==> {
                &&& v.wf()
                &&& v.capacity() == initial_capacity::<T>(cap as int)
                &&& v.contents() == Seq::<T>::empty()
                &&& v.capacity() == unallocated::<T>() ==> v.holds_no_memory()
            },
            initial_capacity::<T>(cap as int) == unallocated::<T>() ==> r is Ok,
            match r {
                Ok(v) => can_supply::<T, DefaultAllocator>(
                    DefaultAllocator,
                    cap as int,
                    Ok(v.spec_alloc()),
                ),
                Err(e) => can_supply::<T, DefaultAllocator>(DefaultAllocator, cap as int, Err(e)),
            },
    {
        RawVec::with_alloc_and_capacity(DefaultAllocator, cap)
    }
}

/// The capacity that can be had without allocating.
pub open spec fn unallocated<T>() -> int {
    if vstd::layout::size_of::<T>() == 0 {
        usize::MAX as int
    } else {
        0
    }
}

/// The capacity of a buffer that is made for `cap` values.
pub open spec fn initial_capacity<T>(cap: int) -> int {
    if vstd::layout::size_of::<T>() == 0 {
        usize::MAX as int
    } else {
        cap
    }
}

/// The capacity of a buffer after it doubles.
pub open spec fn doubled<T>(cap: int) -> int {
    if cap == 0 {
        // tiny buffers are dumb; but not if a larger one would cause overflow.
        if vstd::layout::size_of::<T>() > usize::MAX / 8 {
            1
        } else {
            4
        }
    } else {
        2 * cap
    }
}

/// Whether a buffer with the given capacity has space for `extra` more values when
/// `used` of them are there.
pub open spec fn has_space(cap: int, used: int, extra: int) -> bool {
    if used <= cap {
        extra <= cap - used
    } else {
        extra <= cap - used + usize::MAX + 1
    }
}

impl<T, A: Allocator> RawVec<T, A> {
    /// The number of values that the buffer has space for.
    pub closed spec fn capacity(&self) -> int {
        initial_capacity::<T>(self.cap as int)
    }

    /// The values stored in the buffer.
    pub closed spec fn contents(&self) -> Seq<T> {
        self.block.contents()
    }

    /// The allocator that the memory comes from.
    pub closed spec fn spec_alloc(&self) -> A {
        self.allocator
    }

    /// Whether no memory is held.
    pub closed spec fn holds_no_memory(&self) -> bool {
        self.block.unallocated()
    }

    /// The memory is as large as the capacity says, and the values fit in it.
    pub closed spec fn wf(&self) -> bool {
        &&& self.block.wf()
        &&& self.contents().len() <= self.capacity()
        &&& vstd::layout::size_of::<T>() > 0 ==> {
            &&& capacity_allowed::<T>(self.cap as int)
            &&& self.cap == 0 ==> self.block.record().size == 0
            &&& self.cap > 0 ==> self.block.record() == kind::array_record::<T>(self.cap as int)
        }
    }

    /// Identical to `new`, but using a supplied allocator instead of the default.
    pub fn with_alloc(allocator: A) -> (r: Self)
        ensures
            r.wf(),
            r.capacity() == unallocated::<T>(),
            r.contents() == Seq::<T>::empty(),
            r.spec_alloc() == allocator,
            r.holds_no_memory(),
    {
        let cap: usize = if core::mem::size_of::<T>() == 0 {
            usize::MAX
        } else {
            0
        };
        RawVec { block: Block::empty(), cap, allocator }
    }

    /// Identical to `with_capacity`, but also using a supplied allocator instaed of the default.
    pub fn with_alloc_and_capacity(allocator: A, cap: usize) -> (r: Result<Self, A::Error>)
        requires
            capacity_allowed::<T>(cap as int),
        ensures
            r matches Ok(v) ==> {
                &&& v.wf()
                &&& v.capacity() == initial_capacity::<T>(cap as int)
                &&& v.contents() == Seq::<T>::empty()
                &&& v.capacity() == unallocated::<T>() ==> v.holds_no_memory()
            },
            initial_capacity::<T>(cap as int) == unallocated::<T>() ==> r is Ok,
            match r {
                Ok(v) => can_supply::<T, A>(allocator, cap as int, Ok(v.spec_alloc())),
                Err(e) => can_supply::<T, A>(allocator, cap as int, Err(e)),
            },
    {
        let ghost before = allocator;
        let mut allocator = allocator;
        let block: Block<T> = match Kind::array::<T>(cap) {
            Some(kind) => match allocator.allocate::<T>(kind) {
                Ok(block) => block,
                Err(e) => {
                    assert(A::answers(
                        allocator::heap_for::<T>(),
                        before,
                        kind::array_record::<T>(cap as int),
                        Err(e),
                        allocator,
                    ));
                    assert(may_refuse::<T, A>(before, kind::array_record::<T>(cap as int), e));
                    return Err(e);
                },
            },
            // ZST or cap is 0.
            None => Block::empty(),
        };
        let cap: usize = if core::mem::size_of::<T>() == 0 {
            usize::MAX
        } else {
            cap
        };
        Ok(RawVec { block, cap, allocator })
    }

    /// The values stored in the buffer.
    pub fn ptr(&self) -> (r: &Vec<T>)
        ensures
            r@ == self.contents(),
    {
        self.block.cells()
    }

    /// Access to one of the values stored in the buffer.
    pub fn ptr_mut(&mut self, i: usize) -> (r: &mut T)
        requires
            old(self).wf(),
            i < old(self).contents().len(),
        ensures
            *r == old(self).contents()[i as int],
            final(self).wf(),
            final(self).capacity() == old(self).capacity(),
            final(self).spec_alloc() == old(self).spec_alloc(),
            final(self).contents() == old(self).contents().update(i as int, *final(r)),
    {
        self.block.cell_mut(i)
    }

    /// Stores another value in the buffer.
    pub fn write(&mut self, value: T)
        requires
            old(self).wf(),
            old(self).contents().len() < old(self).capacity(),
        ensures
            final(self).wf(),
            final(self).capacity() == old(self).capacity(),
            final(self).spec_alloc() == old(self).spec_alloc(),
            final(self).contents() == old(self).contents().push(value),
    {
        proof {
            self.lemma_room();
        }
        self.block.push(value);
    }

    /// Takes the last value out of the buffer.
    pub fn read(&mut self) -> (r: Option<T>)
        requires
            old(self).wf(),
        ensures
            final(self).wf(),
            final(self).capacity() == old(self).capacity(),
            final(self).spec_alloc() == old(self).spec_alloc(),
            match r {
                Some(v) => {
                    &&& 0 < old(self).contents().len()
                    &&& v == old(self).contents().last()
                    &&& final(self).contents() == old(self).contents().drop_last()
                },
                None => {
                    &&& old(self).contents().len() == 0
                    &&& final(self).contents() == old(self).contents()
                },
            },
    {
        self.block.pop()
    }

    // the block has as much room as the capacity says.
    proof fn lemma_room(&self)
        requires
            self.wf(),
        ensures
            self.block.room() == self.capacity(),
            0 <= self.capacity() <= usize::MAX,
    {
        if vstd::layout::size_of::<T>() > 0 {
            if self.cap > 0 {
                allocator::lemma_array_room::<T>(self.cap as int);
            } else {
                assert(0int / (vstd::layout::size_of::<T>() as int) == 0) by (nonlinear_arith)
                    requires
                        vstd::layout::size_of::<T>() > 0,
                ;
            }
        }
    }

    /// Gets the capacity of the allocation.
    ///
    /// This will always be `usize::MAX` if `T` is zero-sized.
    pub fn cap(&self) -> (r: usize)
        ensures
            r == self.capacity(),
    {
        if core::mem::size_of::<T>() == 0 {
            usize::MAX
        } else {
            self.cap
        }
    }

    // makes the buffer hold `new_cap` values.
    fn resize(&mut self, new_cap: usize) -> (r: Result<(), A::Error>)
        requires
            old(self).wf(),
            0 < new_cap,
            0 < vstd::layout::size_of::<T>(),
            capacity_allowed::<T>(new_cap as int),
        ensures
            final(self).wf(),
            match r {
                Ok(_) => {
                    &&& final(self).capacity() == new_cap
                    &&& final(self).contents() == allocator::at_most(
                        old(self).contents(),
                        new_cap as int,
                    )
                },
                Err(_) => {
                    &&& final(self).capacity() == old(self).capacity()
                    &&& final(self).contents() == old(self).contents()
                },
            },
            can_resize::<T, A>(
                old(self).spec_alloc(),
                old(self).capacity(),
                new_cap as int,
                r,
                final(self).spec_alloc(),
            ),
    {
        proof {
            allocator::lemma_array_room::<T>(new_cap as int);
            self.lemma_room();
        }
        let new_kind = Kind::array_unchecked::<T>(new_cap);
        if self.cap == 0 {
            match self.allocator.allocate::<T>(new_kind) {
                Ok(block) => {
                    self.block = block;
                    self.cap = new_cap;
                    assert(self.contents() =~= old(self).contents());
                    Ok(())
                },
                Err(e) => Err(e),
            }
        } else {
            // this request worked last time.
            let kind = Kind::array_unchecked::<T>(self.cap);
            match self.allocator.realloc(&mut self.block, kind, new_kind) {
                Ok(done) => {
                    assert(done == ());
                    self.cap = new_cap;
                    Ok(())
                },
                Err(e) => Err(e),
            }
        }
    }

    /// Doubles the size of the type's backing allocation. This is common enough
    /// to want to do that it's easiest to just have a dedicated method. Slightly
    /// more efficient logic can be provided for this than the general case.
    ///
    /// This function is ideal for when pushing elements one-at-a-time because
    /// you don't need to incur the costs of the more general computations
    /// reserve needs to do to guard against overflow. You do however need to
    /// manually check if your `len == cap`.
    pub fn double(&mut self) -> (r: Result<(), A::Error>)
        requires
            old(self).wf(),
            0 < vstd::layout::size_of::<T>(),
            capacity_allowed::<T>(doubled::<T>(old(self).capacity())),
        ensures
            final(self).wf(),
            final(self).contents() == old(self).contents(),
            match r {
                Ok(_) => final(self).capacity() == doubled::<T>(old(self).capacity()),
                Err(_) => final(self).capacity() == old(self).capacity(),
            },
            can_resize::<T, A>(
                old(self).spec_alloc(),
                old(self).capacity(),
                doubled::<T>(old(self).capacity()),
                r,
                final(self).spec_alloc(),
            ),
    {
        let elem_size: usize = core::mem::size_of::<T>();
        proof {
            let d = doubled::<T>(self.capacity());
            assert(d <= d * elem_size) by (nonlinear_arith)
                requires
                    0 <= d,
                    1 <= elem_size,
            ;
        }
        let new_cap: usize = if self.cap == 0 {
            // skip to 4 because tiny Vec's are dumb; but not if that would cause overflow
            if elem_size > usize::MAX / 8 {
                1
            } else {
                4
            }
        } else {
            2 * self.cap
        };
        self.resize(new_cap)
    }

    /// Ensures that the buffer contains at least enough space to hold
    /// `used_cap + needed_extra_cap` elements. If it doesn't already,
    /// will reallocate the minimum possible amount of memory necessary.
    ///
    /// If `used_cap` exceeds `self.cap()`, this may fail to actually allocate
    /// the requested space.
    pub fn reserve_exact(&mut self, used_cap: usize, needed_extra_cap: usize) -> (r: Result<
        (),
        A::Error,
    >)
        requires
            old(self).wf(),
            has_space(old(self).capacity(), used_cap as int, needed_extra_cap as int) || (0
                < vstd::layout::size_of::<T>() && capacity_allowed::<T>(
                used_cap + needed_extra_cap,
            )),
        ensures
            final(self).wf(),
            final(self).contents() == old(self).contents(),
            if has_space(old(self).capacity(), used_cap as int, needed_extra_cap as int) {
                &&& r is Ok
                &&& final(self).capacity() == old(self).capacity()
                &&& final(self).spec_alloc() == old(self).spec_alloc()
            } else {
                &&& final(self).capacity() == if r is Ok {
                    used_cap + needed_extra_cap
                } else {
                    old(self).capacity()
                }
                &&& can_resize::<T, A>(
                    old(self).spec_alloc(),
                    old(self).capacity(),
                    used_cap + needed_extra_cap,
                    r,
                    final(self).spec_alloc(),
                )
            },
    {
        // Don't actually need any more capacity.
        // Wrapping in case they gave a bad `used_cap`.
        if self.cap().wrapping_sub(used_cap) >= needed_extra_cap {
            return Ok(());
        }
        proof {
            lemma_counted::<T>(used_cap + needed_extra_cap);
        }
        let new_cap: usize = used_cap + needed_extra_cap;
        self.resize(new_cap)
    }

    /// Ensures that the buffer contains at least enough space to hold
    /// `used_cap + needed_extra_cap` elements. If it doesn't already have
    /// enough capacity, will reallocate enough space plus comfortable slack
    /// space to get amortized `O(1)` behavior.
    ///
    /// If `used_cap` exceeds `self.cap()`, this may fail to actually allocate
    /// the requested space.
    ///
    /// This is ideal for implementing a bulk-push operation like `extend`.
    pub fn reserve(&mut self, used_cap: usize, needed_extra_cap: usize) -> (r: Result<(), A::Error>)
        requires
            old(self).wf(),
            has_space(old(self).capacity(), used_cap as int, needed_extra_cap as int) || (0
                < vstd::layout::size_of::<T>() && capacity_allowed::<T>(
                kind::max(2 * old(self).capacity(), used_cap + needed_extra_cap),
            )),
        ensures
            final(self).wf(),
            final(self).contents() == old(self).contents(),
            if has_space(old(self).capacity(), used_cap as int, needed_extra_cap as int) {
                &&& r is Ok
                &&& final(self).capacity() == old(self).capacity()
                &&& final(self).spec_alloc() == old(self).spec_alloc()
            } else {
                &&& final(self).capacity() == if r is Ok {
                    kind::max(2 * old(self).capacity(), used_cap + needed_extra_cap)
                } else {
                    old(self).capacity()
                }
                &&& can_resize::<T, A>(
                    old(self).spec_alloc(),
                    old(self).capacity(),
                    kind::max(2 * old(self).capacity(), used_cap + needed_extra_cap),
                    r,
                    final(self).spec_alloc(),
                )
            },
    {
        // Don't actually need any more capacity.
        // Wrapping in case they give a bad `used_cap`
        if self.cap().wrapping_sub(used_cap) >= needed_extra_cap {
            return Ok(());
        }
        proof {
            lemma_counted::<T>(kind::max(2 * self.capacity(), used_cap + needed_extra_cap));
        }
        let required_cap: usize = used_cap + needed_extra_cap;
        let double_cap: usize = self.cap * 2;
        // `double_cap` guarantees exponential growth.
        let new_cap: usize = if double_cap > required_cap {
            double_cap
        } else {
            required_cap
        };
        self.resize(new_cap)
    }

    /// Shrinks the allocation down to the specified amount. If the given amount
    /// is 0, actually completely deallocates. The amount must not be larger than
    /// the capacity.
    pub fn shrink_to_fit(&mut self, amount: usize) -> (r: Result<(), A::Error>)
        requires
            old(self).wf(),
            amount <= old(self).capacity(),
        ensures
            final(self).wf(),
            if vstd::layout::size_of::<T>() == 0 {
                &&& r is Ok
                &&& final(self).capacity() == usize::MAX
                &&& final(self).contents() == old(self).contents()
            } else if r is Ok {
                &&& final(self).capacity() == amount
                &&& final(self).contents() == allocator::at_most(
                    old(self).contents(),
                    amount as int,
                )
            } else {
                &&& 0 < amount < old(self).capacity()
                &&& final(self).capacity() == old(self).capacity()
                &&& final(self).contents() == old(self).contents()
            },
            if vstd::layout::size_of::<T>() == 0 || amount == old(self).capacity() {
                final(self).spec_alloc() == old(self).spec_alloc()
            } else if amount == 0 {
                may_leave(
                    old(self).spec_alloc(),
                    kind::array_record::<T>(old(self).capacity()),
                    final(self).spec_alloc(),
                )
            } else {
                can_resize::<T, A>(
                    old(self).spec_alloc(),
                    old(self).capacity(),
                    amount as int,
                    r,
                    final(self).spec_alloc(),
                )
            },
    {
        let elem_size: usize = core::mem::size_of::<T>();
        // Set the `cap` because they might be about to promote to a boxed slice
        if elem_size == 0 {
            self.cap = amount;
            return Ok(());
        }
        if amount == 0 {
            if self.cap > 0 {
                proof {
                    self.lemma_room();
                }
                let kind = Kind::array_unchecked::<T>(self.cap);
                let mut block: Block<T> = Block::empty();
                core::mem::swap(&mut self.block, &mut block);
                let freed = self.allocator.dealloc(block, kind);
                self.cap = 0;
                assert(A::frees(
                    old(self).spec_alloc(),
                    kind::array_record::<T>(old(self).capacity()),
                    freed,
                    self.spec_alloc(),
                ));
                assert(may_leave(
                    old(self).spec_alloc(),
                    kind::array_record::<T>(old(self).capacity()),
                    self.spec_alloc(),
                ));
            }
            assert(self.contents() =~= allocator::at_most(old(self).contents(), 0));
            Ok(())
        } else if self.cap != amount {
            proof {
                let c = self.cap as int;
                assert(amount * elem_size <= c * elem_size) by (nonlinear_arith)
                    requires
                        amount <= c,
                        0 <= elem_size,
                ;
            }
            self.resize(amount)
        } else {
            Ok(())
        }
    }

    /// Returns the memory to the allocator. The values stored in it are dropped.
    pub fn release(self) -> (r: Result<A, A::Error>)
        requires
            self.wf(),
        ensures
            if vstd::layout::size_of::<T>() == 0 || self.capacity() == 0 {
                r == Ok::<A, A::Error>(self.spec_alloc())
            } else {
                can_release::<T, A>(self.spec_alloc(), self.capacity(), r)
            },
    {
        proof {
            self.lemma_room();
        }
        let mut allocator = self.allocator;
        if core::mem::size_of::<T>() != 0 && self.cap != 0 {
            // buffer is already at least this large
            let kind = Kind::array_unchecked::<T>(self.cap);
            match allocator.dealloc(self.block, kind) {
                Ok(done) => {
                    assert(done == ());
                    Ok(allocator)
                },
                Err(e) => {
                    assert(A::frees(
                        self.spec_alloc(),
                        kind::array_record::<T>(self.capacity()),
                        Err(e),
                        allocator,
                    ));
                    assert(may_fail_to_free(
                        self.spec_alloc(),
                        kind::array_record::<T>(self.capacity()),
                        e,
                    ));
                    Err(e)
                },
            }
        } else {
            Ok(allocator)
        }
    }

    /// Convert this into a boxed slice. There must be a value in each place.
    pub fn into_box(self) -> (r: AllocSlice<T, A>)
        requires
            self.wf(),
            vstd::layout::size_of::<T>() == 0 || self.contents().len() == self.capacity(),
        ensures
            r@ == self.contents(),
            r.spec_alloc() == self.spec_alloc(),
    {
        AllocSlice::from_raw_parts(self.block, self.allocator)
    }

    /// The capacity for values without a size has no end.
    pub proof fn lemma_capacity(&self)
        requires
            self.wf(),
        ensures
            initial_capacity::<T>(self.capacity()) == self.capacity(),
    {
    }

    /// The values fit in the capacity.
    pub proof fn lemma_len(&self)
        requires
            self.wf(),
        ensures
            self.contents().len() <= self.capacity() <= usize::MAX,
    {
    }
}

// a number of values whose size can be counted can be counted.
proof fn lemma_counted<T>(cap: int)
    requires
        0 < vstd::layout::size_of::<T>(),
        capacity_allowed::<T>(cap),
        0 <= cap,
    ensures
        cap <= usize::MAX,
{
    let size = vstd::layout::size_of::<T>() as int;
    assert(cap <= cap * size) by (nonlinear_arith)
        requires
            0 <= cap,
            1 <= size,
    ;
}

impl<T, A: Allocator + Clone> RawVec<T, A> {
    /// Get a copy of the allocator which this uses.
    pub fn clone_alloc(&self) -> (r: A)
        ensures
            cloned(self.spec_alloc(), r),
    {
        self.allocator.clone()
    }
}

/// A new buffer has no capacity, or the one that it was made with; for values without a size the
/// capacity has no end.
pub proof fn law_new_buffers_have_the_capacity_asked_for<T, A: Allocator>(
    allocator: A,
    cap: usize,
    empty: RawVec<T, A>,
    none: usize,
    made: RawVec<T, A>,
    some: usize,
)
    requires
        call_ensures(RawVec::<T, A>::with_alloc, (allocator,), empty),
        call_ensures(RawVec::<T, A>::cap, (&empty,), none),
        call_ensures(
            RawVec::<T, A>::with_alloc_and_capacity,
            (allocator, cap),
            Ok::<RawVec<T, A>, A::Error>(made),
        ),
        call_ensures(RawVec::<T, A>::cap, (&made,), some),
    ensures
        vstd::layout::size_of::<T>() == 0 ==> none == usize::MAX && some == usize::MAX,
        vstd::layout::size_of::<T>() > 0 ==> none == 0 && some == cap,
        empty.spec_alloc() == allocator,
        // nothing is asked for if there is nothing to hold, and else memory for each value.
        vstd::layout::size_of::<T>() == 0 || cap == 0 ==> made.spec_alloc() == allocator,
        vstd::layout::size_of::<T>() > 0 && cap > 0 && cap * vstd::layout::size_of::<T>()
            <= usize::MAX ==> A::answers(
            allocator::heap_for::<T>(),
            allocator,
            Record {
                size: cap * vstd::layout::size_of::<T>(),
                align: vstd::layout::align_of::<T>() as int,
            },
            Ok(()),
            made.spec_alloc(),
        ),
{
}

/// A capacity may be asked for if its bytes can be counted, on platforms with 32 bits even as a
/// positive `isize`.
pub proof fn law_capacities_are_checked<T>(cap: usize, r: bool)
    requires
        call_ensures(check_capacity::<T>, (cap,), r),
    ensures
        usize::BITS != 32 ==> r == (cap * vstd::layout::size_of::<T>() <= usize::MAX),
        usize::BITS == 32 ==> r == (cap * vstd::layout::size_of::<T>() <= isize::MAX),
{
}

/// Doubling makes room for twice as many values, and a first time for four, or for one if each is
/// huge. The values stay, and so does the capacity if there is no memory.
pub proof fn law_doubling_doubles<T, A: Allocator>(r: Result<(), A::Error>)
    ensures
        forall|v: &mut RawVec<T, A>| #[trigger]
            call_ensures(RawVec::<T, A>::double, (v,), r) ==> {
                &&& final(v).contents() == v.contents()
                &&& r is Err ==> final(v).capacity() == v.capacity()
                &&& r is Ok && v.capacity() > 0 ==> final(v).capacity() == v.capacity()
                    + v.capacity()
                &&& r is Ok && v.capacity() == 0 ==> final(v).capacity() == if 8
                    * vstd::layout::size_of::<T>() <= usize::MAX {
                    4int
                } else {
                    1int
                }
            },
{
}

/// Reserving makes room for the values that are there and those to come. It changes nothing if
/// there is room for them. Else `reserve_exact` makes room for just so many, and `reserve` for
/// twice as many as there was room for, if that is more.
pub proof fn law_reserving_makes_room<T, A: Allocator>(
    used: usize,
    extra: usize,
    r: Result<(), A::Error>,
)
    ensures
        forall|v: &mut RawVec<T, A>|
            used <= v.capacity() && #[trigger] call_ensures(
                RawVec::<T, A>::reserve_exact,
                (v, used, extra),
                r,
            ) ==> {
                &&& final(v).contents() == v.contents()
                &&& used + extra <= v.capacity() ==> r is Ok && final(v).capacity() == v.capacity()
                    && final(v).spec_alloc() == v.spec_alloc()
                &&& used + extra > v.capacity() && r is Ok ==> final(v).capacity() == used + extra
                &&& r is Err ==> final(v).capacity() == v.capacity()
            },
        forall|v: &mut RawVec<T, A>|
            used <= v.capacity() && #[trigger] call_ensures(
                RawVec::<T, A>::reserve,
                (v, used, extra),
                r,
            ) ==> {
                &&& final(v).contents() == v.contents()
                &&& used + extra <= v.capacity() ==> r is Ok && final(v).capacity() == v.capacity()
                    && final(v).spec_alloc() == v.spec_alloc()
                &&& used + extra > v.capacity() && r is Ok ==> {
                    &&& final(v).capacity() >= used + extra
                    &&& final(v).capacity() >= v.capacity() + v.capacity()
                    &&& final(v).capacity() == used + extra || final(v).capacity() == v.capacity()
                        + v.capacity()
                }
                &&& r is Err ==> final(v).capacity() == v.capacity()
            },
{
}

/// Where more values are said to be there than there is room for, reserving changes nothing as
/// long as what is to come is less than what is left of `usize` past the difference.
pub proof fn law_reserving_wraps<T, A: Allocator>(
    used: usize,
    extra: usize,
    r: Result<(), A::Error>,
)
    ensures
        forall|v: &mut RawVec<T, A>|
            v.capacity() < used && extra <= usize::MAX - (used - v.capacity()) + 1
                && #[trigger] call_ensures(RawVec::<T, A>::reserve_exact, (v, used, extra), r)
                ==> r is Ok && final(v).capacity() == v.capacity(),
        forall|v: &mut RawVec<T, A>|
            v.capacity() < used && extra <= usize::MAX - (used - v.capacity()) + 1
                && #[trigger] call_ensures(RawVec::<T, A>::reserve, (v, used, extra), r) ==> r is Ok
                && final(v).capacity() == v.capacity(),
{
}

/// Shrinking leaves room for the given number of values, and keeps the first ones.
pub proof fn law_shrinking_keeps_the_first<T, A: Allocator>(amount: usize, r: Result<(), A::Error>)
    ensures
        forall|v: &mut RawVec<T, A>|
            v.wf() && amount <= v.capacity() && vstd::layout::size_of::<T>() > 0
                && #[trigger] call_ensures(RawVec::<T, A>::shrink_to_fit, (v, amount), r) ==> {
                &&& amount == 0 || amount == v.capacity() ==> r is Ok
                &&& r is Err ==> final(v).capacity() == v.capacity() && final(v).contents()
                    == v.contents()
                &&& r is Ok ==> {
                    &&& final(v).capacity() == amount
                    &&& final(v).contents().is_prefix_of(v.contents())
                    &&& v.contents().len() <= amount ==> final(v).contents() == v.contents()
                    &&& v.contents().len() > amount ==> final(v).contents().len() == amount
                }
            },
        forall|v: &mut RawVec<T, A>|
            vstd::layout::size_of::<T>() == 0 && #[trigger] call_ensures(
                RawVec::<T, A>::shrink_to_fit,
                (v, amount),
                r,
            ) ==> r is Ok && final(v).capacity() == usize::MAX && final(v).contents()
                == v.contents(),
{
}

/// A buffer asks its allocator for what it needs: where it holds no memory, for a block for the
/// new capacity, and else to make its block one for the new capacity. It gives back the block
/// that it holds.
pub proof fn law_buffers_ask_for_their_values<T, A: Allocator>(
    used: usize,
    extra: usize,
    r: Result<(), A::Error>,
    v: RawVec<T, A>,
    left: A,
)
    ensures
        forall|v: &mut RawVec<T, A>|
            used <= v.capacity() && used + extra > v.capacity() && #[trigger] call_ensures(
                RawVec::<T, A>::reserve_exact,
                (v, used, extra),
                r,
            ) ==> {
                let size = vstd::layout::size_of::<T>() as int;
                let align = vstd::layout::align_of::<T>() as int;
                let new = Record { size: (used + extra) * size, align };
                let held = Record { size: v.capacity() * size, align };
                &&& v.capacity() == 0 ==> A::answers(
                    allocator::heap_for::<T>(),
                    v.spec_alloc(),
                    new,
                    r,
                    final(v).spec_alloc(),
                )
                &&& v.capacity() != 0 ==> A::reallocates(
                    allocator::heap_for::<T>(),
                    v.spec_alloc(),
                    held,
                    new,
                    r,
                    final(v).spec_alloc(),
                )
            },
        forall|v: &mut RawVec<T, A>|
            v.capacity() > 0 && #[trigger] call_ensures(RawVec::<T, A>::double, (v,), r) ==> {
                let size = vstd::layout::size_of::<T>() as int;
                let align = vstd::layout::align_of::<T>() as int;
                A::reallocates(
                    allocator::heap_for::<T>(),
                    v.spec_alloc(),
                    Record { size: v.capacity() * size, align },
                    Record { size: (v.capacity() + v.capacity()) * size, align },
                    r,
                    final(v).spec_alloc(),
                )
            },
        vstd::layout::size_of::<T>() > 0 && v.capacity() > 0 && call_ensures(
            RawVec::<T, A>::release,
            (v,),
            Ok::<A, A::Error>(left),
        ) ==> A::frees(
            v.spec_alloc(),
            Record {
                size: v.capacity() * vstd::layout::size_of::<T>(),
                align: vstd::layout::align_of::<T>() as int,
            },
            Ok(()),
            left,
        ),
{
    assert forall|v: &mut RawVec<T, A>|
        v.capacity() > 0 && #[trigger] call_ensures(RawVec::<T, A>::double, (v,), r) implies {
        let size = vstd::layout::size_of::<T>() as int;
        let align = vstd::layout::align_of::<T>() as int;
        A::reallocates(
            allocator::heap_for::<T>(),
            v.spec_alloc(),
            Record { size: v.capacity() * size, align },
            Record { size: (v.capacity() + v.capacity()) * size, align },
            r,
            final(v).spec_alloc(),
        )
    } by {
        assert(v.capacity() + v.capacity() == 2 * v.capacity());
    }
}

/// A buffer that shrinks to nothing gives back its block. One that shrinks to something asks its
/// allocator to make the block a smaller one.
pub proof fn law_shrinking_gives_memory_back<T, A: Allocator>(amount: usize, r: Result<(), A::Error>)
    ensures
        forall|v: &mut RawVec<T, A>|
            vstd::layout::size_of::<T>() > 0 && amount < v.capacity() && #[trigger] call_ensures(
                RawVec::<T, A>::shrink_to_fit,
                (v, amount),
                r,
            ) ==> {
                let size = vstd::layout::size_of::<T>() as int;
                let align = vstd::layout::align_of::<T>() as int;
                let held = Record { size: v.capacity() * size, align };
                &&& amount == 0 ==> exists|freed: Result<(), A::Error>| #[trigger]
                    A::frees(v.spec_alloc(), held, freed, final(v).spec_alloc())
                &&& amount > 0 ==> A::reallocates(
                    allocator::heap_for::<T>(),
                    v.spec_alloc(),
                    held,
                    Record { size: amount * size, align },
                    r,
                    final(v).spec_alloc(),
                )
            },
{
}

} // verus!
