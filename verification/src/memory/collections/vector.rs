//! A vector generic over its allocator.

use std::collections::VecDeque;
use vstd::prelude::*;
use super::raw_vec::{RawVec, check_capacity};
use super::raw_vec;
use crate::memory::allocator::{AllocError, Allocator, DefaultAllocator};
use crate::memory::boxed::AllocSlice;
use crate::memory::kind;

verus! {

/// A vector manages a contiguous block of memory housing some number
/// of elements. It will dynamically resize itself as it grows. An allocator that
/// must know when the memory is no longer used is told by `release`.
pub struct Vector<T, A: Allocator = DefaultAllocator> {
    buf: RawVec<T, A>,
}

/// Why a vector of less than `limit` elements that uses the given allocator may not get
/// another element: the allocator refuses the memory for twice as many, or such memory
/// may not be asked for.
pub open spec fn lacks_memory<T, A: Allocator>(allocator: A, limit: int, e: A::Error) -> bool {
    ||| exists|held: A, cap: int|
        {
            &&& #[trigger] raw_vec::may_refuse_resize::<T, A>(
                held,
                cap,
                raw_vec::doubled::<T>(cap),
                e,
            )
            &&& 0 <= cap < limit
            &&& cap == 0 ==> held == allocator
        }
    ||| {
        &&& e == A::Error::spec_invalid_input()
        &&& exists|cap: int| #[trigger] raw_vec::at_limit::<T>(cap) && 0 <= cap < limit
    }
}

impl<T> Vector<T, DefaultAllocator> {
    /// Create the largest `Vector` possible which does not allocate, backed by the default allocator.
    /// If T has a non-zero size, this will create a vector with 0 capacity.
    /// If T has size zero, this will create a vector with usize::MAX capacity.
    pub fn new() -> (r: Self)
        ensures
            r.wf(),
            r@ == Seq::<T>::empty(),
            r.spec_capacity() == raw_vec::unallocated::<T>(),
            r.holds_no_memory(),
    {
        Vector::with_alloc(DefaultAllocator)
    }

    /// Create a new `Vector` with capacity for `n` elements, backed by the default allocator.
    pub fn with_capacity(n: usize) -> (r: Result<Self, <DefaultAllocator as Allocator>::Error>)
        requires
            raw_vec::capacity_allowed::<T>(n as int),
        ensures
            r matches Ok(v) ==> {
                &&& v.wf()
                &&& v@ == Seq::<T>::empty()
                &&& v.spec_capacity() == raw_vec::initial_capacity::<T>(n as int)
                &&& v.spec_capacity() == raw_vec::unallocated::<T>() ==> v.holds_no_memory()
            },
            raw_vec::initial_capacity::<T>(n as int) == raw_vec::unallocated::<T>() ==> r is Ok,
            match r {
                Ok(v) => raw_vec::can_supply::<T, DefaultAllocator>(
                    DefaultAllocator,
                    n as int,
                    Ok(v.spec_alloc()),
                ),
                Err(e) => raw_vec::can_supply::<T, DefaultAllocator>(
                    DefaultAllocator,
                    n as int,
                    Err(e),
                ),
            },
    {
        Vector::with_alloc_and_capacity(DefaultAllocator, n)
    }
}

impl<T, A: Allocator> Vector<T, A> {
    /// The elements.
    pub closed spec fn view(&self) -> Seq<T> {
        self.buf.contents()
    }

    /// The number of elements that there is space for.
    pub closed spec fn spec_capacity(&self) -> int {
        self.buf.capacity()
    }

    /// The allocator that the memory comes from.
    pub closed spec fn spec_alloc(&self) -> A {
        self.buf.spec_alloc()
    }

    /// Whether no memory is held.
    pub closed spec fn holds_no_memory(&self) -> bool {
        self.buf.holds_no_memory()
    }

    /// The elements fit in the memory.
    pub closed spec fn wf(&self) -> bool {
        self.buf.wf()
    }

    /// Whether another element can be pushed: there is space for it, or the memory
    /// for twice as many may be asked for.
    pub open spec fn can_grow(&self) -> bool {
        self@.len() < self.spec_capacity() || (0 < vstd::layout::size_of::<T>()
            && raw_vec::capacity_allowed::<T>(raw_vec::doubled::<T>(self.spec_capacity())))
    }

    /// The elements fit in the capacity.
    pub proof fn lemma_len(&self)
        requires
            self.wf(),
        ensures
            self@.len() <= self.spec_capacity() <= usize::MAX,
    {
        self.buf.lemma_len();
    }

    /// The capacity for values without a size has no end.
    pub proof fn lemma_capacity(&self)
        requires
            self.wf(),
        ensures
            vstd::layout::size_of::<T>() == 0 ==> self.spec_capacity() == usize::MAX,
    {
        self.buf.lemma_capacity();
    }

    /// Create a new `Vector` which will draw memory from the supplied allocator.
    pub fn with_alloc(allocator: A) -> (r: Self)
        ensures
            r.wf(),
            r@ == Seq::<T>::empty(),
            r.spec_capacity() == raw_vec::unallocated::<T>(),
            r.spec_alloc() == allocator,
            r.holds_no_memory(),
    {
        Vector { buf: RawVec::with_alloc(allocator) }
    }

    /// Create a new `Vector` with initial capacity `n`, backed by the supplied allocator.
    pub fn with_alloc_and_capacity(allocator: A, n: usize) -> (r: Result<Self, A::Error>)
        requires
            raw_vec::capacity_allowed::<T>(n as int),
        ensures
            r matches Ok(v) ==> {
                &&& v.wf()
                &&& v@ == Seq::<T>::empty()
                &&& v.spec_capacity() == raw_vec::initial_capacity::<T>(n as int)
                &&& v.spec_capacity() == raw_vec::unallocated::<T>() ==> v.holds_no_memory()
            },
            raw_vec::initial_capacity::<T>(n as int) == raw_vec::unallocated::<T>() ==> r is Ok,
            match r {
                Ok(v) => raw_vec::can_supply::<T, A>(allocator, n as int, Ok(v.spec_alloc())),
                Err(e) => raw_vec::can_supply::<T, A>(allocator, n as int, Err(e)),
            },
    {
        match RawVec::with_alloc_and_capacity(allocator, n) {
            Ok(buf) => Ok(Vector { buf }),
            Err(e) => Err(e),
        }
    }

    /// Get the length of the `Vector`
    pub fn len(&self) -> (r: usize)
        ensures
            r == self@.len(),
    {
        self.buf.ptr().len()
    }

    /// Gets the capacity of the `Vector`. This is not the same as the length.
    pub fn capacity(&self) -> (r: usize)
        ensures
            r == self.spec_capacity(),
    {
        self.buf.cap()
    }

    /// Whether another element can be pushed.
    pub fn check_growth(&self) -> (r: bool)
        ensures
            r == self.can_grow(),
    {
        let cap: usize = self.capacity();
        let size: usize = core::mem::size_of::<T>();
        if self.len() < cap {
            true
        } else if size == 0 {
            false
        } else if cap == 0 {
            check_capacity::<T>(if size > usize::MAX / 8 { 1 } else { 4 })
        } else if cap > usize::MAX / 2 {
            proof {
                let d = 2 * cap as int;
                assert(d <= d * size) by (nonlinear_arith)
                    requires
                        0 <= d,
                        1 <= size,
                ;
            }
            false
        } else {
            check_capacity::<T>(2 * cap)
        }
    }

    /// Reserve enough space for `n` additional elements.
    /// This may over-allocate for efficiency.
    pub fn reserve(&mut self, n: usize) -> (r: Result<(), A::Error>)
        requires
            old(self).wf(),
            old(self)@.len() + n <= old(self).spec_capacity() || (0 < vstd::layout::size_of::<T>()
                && raw_vec::capacity_allowed::<T>(
                kind::max(2 * old(self).spec_capacity(), old(self)@.len() + n),
            )),
        ensures
            final(self).wf(),
            final(self)@ == old(self)@,
            if old(self)@.len() + n <= old(self).spec_capacity() {
                &&& r is Ok
                &&& final(self).spec_capacity() == old(self).spec_capacity()
                &&& final(self).spec_alloc() == old(self).spec_alloc()
            } else {
                &&& final(self).spec_capacity() == if r is Ok {
                    kind::max(2 * old(self).spec_capacity(), old(self)@.len() + n)
                } else {
                    old(self).spec_capacity()
                }
                &&& raw_vec::can_resize::<T, A>(
                    old(self).spec_alloc(),
                    old(self).spec_capacity(),
                    kind::max(2 * old(self).spec_capacity(), old(self)@.len() + n),
                    r,
                    final(self).spec_alloc(),
                )
            },
    {
        proof {
            self.lemma_len();
        }
        let len: usize = self.len();
        self.buf.reserve(len, n)
    }

    /// Reserve space for exactly `n` additional elements.
    pub fn reserve_exact(&mut self, n: usize) -> (r: Result<(), A::Error>)
        requires
            old(self).wf(),
            old(self)@.len() + n <= old(self).spec_capacity() || (0 < vstd::layout::size_of::<T>()
                && raw_vec::capacity_allowed::<T>(old(self)@.len() + n)),
        ensures
            final(self).wf(),
            final(self)@ == old(self)@,
            if old(self)@.len() + n <= old(self).spec_capacity() {
                &&& r is Ok
                &&& final(self).spec_capacity() == old(self).spec_capacity()
                &&& final(self).spec_alloc() == old(self).spec_alloc()
            } else {
                &&& final(self).spec_capacity() == if r is Ok {
                    old(self)@.len() + n
                } else {
                    old(self).spec_capacity()
                }
                &&& raw_vec::can_resize::<T, A>(
                    old(self).spec_alloc(),
                    old(self).spec_capacity(),
                    old(self)@.len() + n,
                    r,
                    final(self).spec_alloc(),
                )
            },
    {
        proof {
            self.lemma_len();
        }
        let len: usize = self.len();
        self.buf.reserve_exact(len, n)
    }

    /// Shrinks the capacity of the vector as much as possible.
    pub fn shrink_to_fit(&mut self) -> (r: Result<(), A::Error>)
        requires
            old(self).wf(),
        ensures
            final(self).wf(),
            final(self)@ == old(self)@,
            if vstd::layout::size_of::<T>() == 0 {
                r is Ok && final(self).spec_capacity() == usize::MAX
            } else if r is Ok {
                final(self).spec_capacity() == old(self)@.len()
            } else {
                &&& 0 < old(self)@.len() < old(self).spec_capacity()
                &&& final(self).spec_capacity() == old(self).spec_capacity()
            },
            if vstd::layout::size_of::<T>() == 0 || old(self)@.len() == old(self).spec_capacity() {
                final(self).spec_alloc() == old(self).spec_alloc()
            } else if old(self)@.len() == 0 {
                raw_vec::may_leave(
                    old(self).spec_alloc(),
                    kind::array_record::<T>(old(self).spec_capacity()),
                    final(self).spec_alloc(),
                )
            } else {
                raw_vec::can_resize::<T, A>(
                    old(self).spec_alloc(),
                    old(self).spec_capacity(),
                    old(self)@.len() as int,
                    r,
                    final(self).spec_alloc(),
                )
            },
    {
        proof {
            self.lemma_len();
        }
        let len: usize = self.len();
        self.buf.shrink_to_fit(len)
    }

    /// Makes the vector into a boxed slice.
    pub fn into_boxed_slice(self) -> (r: Result<AllocSlice<T, A>, A::Error>)
        requires
            self.wf(),
        ensures
            r matches Ok(b) ==> b@ == self@,
            vstd::layout::size_of::<T>() == 0 || self@.len() == 0 || self@.len()
                == self.spec_capacity() ==> r is Ok,
            if vstd::layout::size_of::<T>() == 0 || self@.len() == self.spec_capacity() {
                r matches Ok(b) ==> b.spec_alloc() == self.spec_alloc()
            } else if self@.len() == 0 {
                r matches Ok(b) ==> raw_vec::may_leave(
                    self.spec_alloc(),
                    kind::array_record::<T>(self.spec_capacity()),
                    b.spec_alloc(),
                )
            } else {
                match r {
                    Ok(b) => raw_vec::can_resize::<T, A>(
                        self.spec_alloc(),
                        self.spec_capacity(),
                        self@.len() as int,
                        Ok(()),
                        b.spec_alloc(),
                    ),
                    Err(e) => raw_vec::may_refuse_resize::<T, A>(
                        self.spec_alloc(),
                        self.spec_capacity(),
                        self@.len() as int,
                        e,
                    ),
                }
            },
    {
        let mut this = self;
        match this.shrink_to_fit() {
            Ok(done) => {
                assert(done == ());
                Ok(this.buf.into_box())
            },
            Err(e) => {
                assert(raw_vec::can_resize::<T, A>(
                    self.spec_alloc(),
                    self.spec_capacity(),
                    self@.len() as int,
                    Err(e),
                    this.spec_alloc(),
                ));
                Err(e)
            },
        }
    }

    /// Drops the elements, and returns the memory to the allocator.
    pub fn release(self) -> (r: Result<A, A::Error>)
        requires
            self.wf(),
        ensures
            if vstd::layout::size_of::<T>() == 0 || self.spec_capacity() == 0 {
                r == Ok::<A, A::Error>(self.spec_alloc())
            } else {
                raw_vec::can_release::<T, A>(self.spec_alloc(), self.spec_capacity(), r)
            },
    {
        self.buf.release()
    }

    /// Push an element onto the vector. If there is no memory for it, the element
    /// is lost.
    pub fn push(&mut self, val: T) -> (r: Result<(), A::Error>)
        requires
            old(self).wf(),
            old(self).can_grow(),
        ensures
            final(self).wf(),
            match r {
                Ok(_) => {
                    &&& final(self)@ == old(self)@.push(val)
                    &&& final(self).spec_capacity() == if old(self)@.len()
                        < old(self).spec_capacity() {
                        old(self).spec_capacity()
                    } else {
                        raw_vec::doubled::<T>(old(self).spec_capacity())
                    }
                },
                Err(_) => {
                    &&& old(self)@.len() == old(self).spec_capacity()
                    &&& final(self)@ == old(self)@
                    &&& final(self).spec_capacity() == old(self).spec_capacity()
                },
            },
            if old(self)@.len() < old(self).spec_capacity() {
                final(self).spec_alloc() == old(self).spec_alloc()
            } else {
                raw_vec::can_resize::<T, A>(
                    old(self).spec_alloc(),
                    old(self).spec_capacity(),
                    raw_vec::doubled::<T>(old(self).spec_capacity()),
                    r,
                    final(self).spec_alloc(),
                )
            },
    {
        proof {
            self.lemma_len();
        }
        if self.len() == self.capacity() {
            match self.buf.double() {
                Ok(done) => {
                    assert(done == ());
                },
                Err(e) => {
                    return Err(e);
                },
            }
        }
        self.buf.write(val);
        Ok(())
    }

    /// Pop an element from the vector.
    pub fn pop(&mut self) -> (r: Option<T>)
        requires
            old(self).wf(),
        ensures
            final(self).wf(),
            final(self).spec_capacity() == old(self).spec_capacity(),
            final(self).spec_alloc() == old(self).spec_alloc(),
            match r {
                Some(v) => {
                    &&& 0 < old(self)@.len()
                    &&& v == old(self)@.last()
                    &&& final(self)@ == old(self)@.drop_last()
                },
                None => {
                    &&& old(self)@.len() == 0
                    &&& final(self)@ == old(self)@
                },
            },
    {
        self.buf.read()
    }

    /// The elements of the vector.
    pub fn as_vec(&self) -> (r: &Vec<T>)
        ensures
            r@ == self@,
    {
        self.buf.ptr()
    }

    /// The element with the given index.
    pub fn get(&self, i: usize) -> (r: Option<&T>)
        ensures
            match r {
                Some(v) => i < self@.len() && *v == self@[i as int],
                None => self@.len() <= i,
            },
    {
        let cells = self.buf.ptr();
        if i < cells.len() {
            Some(&cells[i])
        } else {
            None
        }
    }

    /// Access to the element with the given index.
    pub fn get_mut(&mut self, i: usize) -> (r: Option<&mut T>)
        requires
            old(self).wf(),
        ensures
            final(self).wf(),
            final(self).spec_capacity() == old(self).spec_capacity(),
            final(self).spec_alloc() == old(self).spec_alloc(),
            match r {
                Some(v) => {
                    &&& i < old(self)@.len()
                    &&& *v == old(self)@[i as int]
                    &&& final(self)@ == old(self)@.update(i as int, *final(v))
                },
                None => {
                    &&& old(self)@.len() <= i
                    &&& final(self)@ == old(self)@
                },
            },
    {
        if i < self.len() {
            Some(self.buf.ptr_mut(i))
        } else {
            None
        }
    }

    /// Access to the element with the given index, which must be there.
    pub fn index_mut(&mut self, i: usize) -> (r: &mut T)
        requires
            old(self).wf(),
            i < old(self)@.len(),
        ensures
            final(self).wf(),
            final(self).spec_capacity() == old(self).spec_capacity(),
            final(self).spec_alloc() == old(self).spec_alloc(),
            *r == old(self)@[i as int],
            final(self)@ == old(self)@.update(i as int, *final(r)),
    {
        self.buf.ptr_mut(i)
    }

    /// Goes through the elements, and gives them out.
    pub fn into_iter(self) -> (r: IntoIter<T, A>)
        requires
            self.wf(),
        ensures
            r.remaining() == self@,
    {
        let mut this = self;
        let mut cells: VecDeque<T> = VecDeque::new();
        let ghost all = self@;
        assert(this@ + cells@ =~= all);
        loop
            invariant
                this.wf(),
                this@ + cells@ == all,
            ensures
                cells@ == all,
            decreases this@.len(),
        {
            let ghost before = this@;
            let ghost after = cells@;
            match this.pop() {
                Some(last) => {
                    cells.push_front(last);
                    assert(this@ + cells@ =~= before + after);
                },
                None => {
                    assert(this@ + cells@ =~= cells@);
                    break;
                },
            }
        }
        IntoIter { buf: this.buf, cells }
    }
}

impl<T: Clone, A: Allocator + Clone> Vector<T, A> {
    /// A vector of copies of the elements, with the same capacity.
    pub fn clone(&self) -> (r: Result<Self, A::Error>)
        requires
            self.wf(),
            raw_vec::capacity_allowed::<T>(self.spec_capacity()),
        ensures
            r matches Ok(v) ==> {
                &&& v.wf()
                &&& v.spec_capacity() == self.spec_capacity()
                &&& v@.len() == self@.len()
                &&& forall|k: int|
                    0 <= k < self@.len() ==> cloned::<T>(#[trigger] self@[k], v@[k])
            },
            vstd::layout::size_of::<T>() == 0 || self.spec_capacity() == 0 ==> r is Ok,
            exists|allocator: A| #[trigger]
                cloned(self.spec_alloc(), allocator) && match r {
                    Ok(v) => raw_vec::can_supply::<T, A>(
                        allocator,
                        self.spec_capacity(),
                        Ok(v.spec_alloc()),
                    ),
                    Err(e) => raw_vec::can_supply::<T, A>(
                        allocator,
                        self.spec_capacity(),
                        Err(e),
                    ),
                },
    {
        proof {
            self.lemma_len();
            self.buf.lemma_capacity();
        }
        let allocator = self.buf.clone_alloc();
        let ghost copied = allocator;
        assert(cloned(self.spec_alloc(), copied));
        let mut v = match Vector::with_alloc_and_capacity(allocator, self.capacity()) {
            Ok(v) => v,
            Err(e) => {
                return Err(e);
            },
        };
        let len: usize = self.len();
        let mut n: usize = 0;
        while n < len
            invariant
                n <= len,
                len == self@.len(),
                len <= self.spec_capacity(),
                v.wf(),
                v.spec_capacity() == self.spec_capacity(),
                cloned(self.spec_alloc(), copied),
                raw_vec::can_supply::<T, A>(copied, self.spec_capacity(), Ok(v.spec_alloc())),
                v@.len() == n,
                forall|k: int| 0 <= k < n ==> cloned::<T>(#[trigger] self@[k], v@[k]),
            decreases len - n,
        {
            let x = self.as_vec()[n].clone();
            match v.push(x) {
                Ok(_) => {},
                Err(e) => {
                    return Err(e);
                },
            }
            n = n + 1;
        }
        Ok(v)
    }
}

impl<T, A: Allocator> core::ops::Deref for Vector<T, A> {
    type Target = [T];

    fn deref(&self) -> (r: &[T])
        ensures
            r@ == self@,
    {
        self.buf.ptr().as_slice()
    }
}

/// An iterator for a `Vector`
pub struct IntoIter<T, A: Allocator = DefaultAllocator> {
    // the memory that the elements were in.
    buf: RawVec<T, A>,
    cells: VecDeque<T>,
}

impl<T, A: Allocator> IntoIter<T, A> {
    /// The elements that are still to come.
    pub closed spec fn remaining(&self) -> Seq<T> {
        self.cells@
    }

    /// The next element.
    pub fn next(&mut self) -> (r: Option<T>)
        ensures
            match r {
                Some(v) => {
                    &&& 0 < old(self).remaining().len()
                    &&& v == old(self).remaining()[0]
                    &&& final(self).remaining() == old(self).remaining().drop_first()
                },
                None => {
                    &&& old(self).remaining().len() == 0
                    &&& final(self).remaining() == old(self).remaining()
                },
            },
    {
        self.cells.pop_front()
    }

    /// The element at the other end.
    pub fn next_back(&mut self) -> (r: Option<T>)
        ensures
            match r {
                Some(v) => {
                    &&& 0 < old(self).remaining().len()
                    &&& v == old(self).remaining().last()
                    &&& final(self).remaining() == old(self).remaining().drop_last()
                },
                None => {
                    &&& old(self).remaining().len() == 0
                    &&& final(self).remaining() == old(self).remaining()
                },
            },
    {
        self.cells.pop_back()
    }

    /// Bounds on the number of elements that are still to come.
    pub fn size_hint(&self) -> (r: (usize, Option<usize>))
        ensures
            r.0 == self.remaining().len(),
            r.1 == Some(r.0),
    {
        let exact: usize = self.cells.len();
        (exact, Some(exact))
    }

    /// The number of elements that are still to come.
    pub fn count(self) -> (r: usize)
        ensures
            r == self.remaining().len(),
    {
        self.size_hint().0
    }
}

/// Another element can be pushed if there is space for it, or if the memory for twice as many
/// elements may be asked for: four at first, or one if each is huge.
pub proof fn law_vectors_can_grow_while_bytes_can_be_counted<T, A: Allocator>(
    v: &Vector<T, A>,
    r: bool,
    more: usize,
    may_ask: bool,
)
    requires
        v.wf(),
        call_ensures(Vector::<T, A>::check_growth, (v,), r),
        call_ensures(check_capacity::<T>, (more,), may_ask),
    ensures
        v@.len() < v.spec_capacity() ==> r,
        v@.len() >= v.spec_capacity() && vstd::layout::size_of::<T>() == 0 ==> !r,
        v@.len() >= v.spec_capacity() && vstd::layout::size_of::<T>() > 0 ==> {
            &&& v.spec_capacity() > 0 && more == v.spec_capacity() + v.spec_capacity() ==> r
                == may_ask
            &&& v.spec_capacity() + v.spec_capacity() > usize::MAX ==> !r
            &&& v.spec_capacity() == 0 && more == (if 8 * vstd::layout::size_of::<T>()
                <= usize::MAX {
                4int
            } else {
                1int
            }) ==> r == may_ask
        },
{
    let cap = v.spec_capacity();
    let size = vstd::layout::size_of::<T>() as int;
    v.lemma_len();
    if size > 0 && 2 * cap > usize::MAX {
        assert(2 * cap <= (2 * cap) * size) by (nonlinear_arith)
            requires
                0 <= cap,
                1 <= size,
        ;
    }
}

/// Pushing puts the element behind the others. There is as much space then as before, or twice as
/// much if it was used up: at first for four elements, or for one if each is huge.
pub proof fn law_pushing_doubles_the_space<T, A: Allocator>(val: T, r: Result<(), A::Error>)
    ensures
        forall|v: &mut Vector<T, A>| #[trigger]
            call_ensures(Vector::<T, A>::push, (v, val), r) ==> {
                let full = v@.len() >= v.spec_capacity();
                &&& r is Err ==> full && final(v)@ == v@
                &&& r is Ok ==> {
                    &&& final(v)@ == v@.push(val)
                    &&& !full ==> final(v).spec_capacity() == v.spec_capacity()
                    &&& full && v.spec_capacity() > 0 ==> final(v).spec_capacity()
                        == v.spec_capacity() + v.spec_capacity()
                    &&& full && v.spec_capacity() == 0 ==> final(v).spec_capacity() == (if 8
                        * vstd::layout::size_of::<T>() <= usize::MAX {
                        4int
                    } else {
                        1int
                    })
                }
            },
{
}

/// What was pushed last is popped first, and the vector is as it was.
pub proof fn law_pop_undoes_push<T, A: Allocator>(val: T, popped: Option<T>, others: Seq<T>)
    ensures
        forall|v: &mut Vector<T, A>|
            v@ == others.push(val) && #[trigger] call_ensures(Vector::<T, A>::pop, (v,), popped)
                ==> popped == Some(val) && final(v)@ == others,
{
    assert(others.push(val).drop_last() =~= others);
}

/// Copies have the elements in the same order, and the same capacity.
pub proof fn law_copies_have_the_same_elements<T: Clone, A: Allocator + Clone>(
    v: &Vector<T, A>,
    copy: Vector<T, A>,
    k: int,
)
    requires
        call_ensures(Vector::<T, A>::clone, (v,), Ok::<Vector<T, A>, A::Error>(copy)),
        0 <= k < v@.len(),
    ensures
        copy@.len() == v@.len(),
        cloned(v@[k], copy@[k]),
        copy.spec_capacity() == v.spec_capacity(),
{
}

/// Going through a vector gives out its elements from either end until there are none left.
pub proof fn law_elements_come_out_from_both_ends<T, A: Allocator>(
    v: Vector<T, A>,
    iter: IntoIter<T, A>,
    rest: Seq<T>,
    x: T,
    front: Option<T>,
    back: Option<T>,
)
    requires
        call_ensures(Vector::<T, A>::into_iter, (v,), iter),
    ensures
        iter.remaining() == v@,
        forall|it: &mut IntoIter<T, A>|
            it.remaining() == seq![x] + rest && #[trigger] call_ensures(
                IntoIter::<T, A>::next,
                (it,),
                front,
            ) ==> front == Some(x) && final(it).remaining() == rest,
        forall|it: &mut IntoIter<T, A>|
            it.remaining() == rest.push(x) && #[trigger] call_ensures(
                IntoIter::<T, A>::next_back,
                (it,),
                back,
            ) ==> back == Some(x) && final(it).remaining() == rest,
{
    assert((seq![x] + rest).drop_first() =~= rest);
    assert(rest.push(x).drop_last() =~= rest);
}

} // verus!
