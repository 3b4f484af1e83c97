//! `AllocBox` is a reimplementation of Rust's `Box` type to be generic over allocators.
//! It is missing several features of `Box`, but those will be added as time and necessity allow.

use vstd::prelude::*;
use super::allocator::{Allocator, Block, DefaultAllocator};
use super::allocator;
use super::collections::raw_vec;
use super::kind::Kind;
use super::kind;

verus! {

/// Whether an allocator that is asked for the memory for one value of type `T` can be left
/// in a new state, or else answer with an error. It is asked for nothing if the value has
/// no size.
pub open spec fn can_hold<T, A: Allocator>(before: A, answer: Result<A, A::Error>) -> bool {
    let record = kind::record_of::<T>();
    if vstd::layout::size_of::<T>() == 0 {
        answer == Ok::<A, A::Error>(before)
    } else {
        match answer {
            Ok(after) => A::answers(allocator::heap_for::<T>(), before, record, Ok(()), after),
            Err(e) => raw_vec::may_refuse::<T, A>(before, record, e),
        }
    }
}

/// A boxed instance of type `T` allocated from the allocator `A`.
/// This defaults to the default allocator, which is the heap.
pub struct AllocBox<T, A: Allocator = DefaultAllocator> {
    block: Block<T>,
    allocator: A,
}

impl<T> AllocBox<T, DefaultAllocator> {
    /// Create a new box using memory from the default allocator.
    pub fn new(x: T) -> (r: Result<Self, <DefaultAllocator as Allocator>::Error>)
        ensures
            r matches Ok(b) ==> b@ == x,
            vstd::layout::size_of::<T>() == 0 ==> r is Ok,
            match r {
                Ok(b) => can_hold::<T, DefaultAllocator>(DefaultAllocator, Ok(b.spec_alloc())),
                Err(e) => can_hold::<T, DefaultAllocator>(DefaultAllocator, Err(e)),
            },
    {
        AllocBox::in_alloc(x, DefaultAllocator)
    }
}

impl<T, A: Allocator> AllocBox<T, A> {
    /// The value in the box.
    pub closed spec fn view(&self) -> T {
        self.block.contents()[0]
    }

    /// The allocator that the memory comes from.
    pub closed spec fn spec_alloc(&self) -> A {
        self.allocator
    }

    #[verifier::type_invariant]
    spec fn well_formed(self) -> bool {
        &&& self.block.wf()
        &&& self.block.contents().len() == 1
        &&& 0 < vstd::layout::size_of::<T>() ==> self.block.record() == kind::record_of::<T>()
    }

    /// Create a new box using memory from an arbitrary allocator. If there is no
    /// memory for it, the value is lost.
    pub fn in_alloc(x: T, allocator: A) -> (r: Result<Self, A::Error>)
        ensures
            r matches Ok(b) ==> b@ == x,
            vstd::layout::size_of::<T>() == 0 ==> {
                &&& r is Ok
                &&& r->Ok_0.spec_alloc() == allocator
            },
            match r {
                Ok(b) => can_hold::<T, A>(allocator, Ok(b.spec_alloc())),
                Err(e) => can_hold::<T, A>(allocator, Err(e)),
            },
    {
        let ghost before = allocator;
        let mut allocator = allocator;
        proof {
            lemma_room_for_one::<T>();
        }
        let mut block: Block<T> = match Kind::for_value(&x) {
            Some(kind) => match allocator.allocate::<T>(kind) {
                Ok(block) => block,
                Err(e) => {
                    assert(A::answers(
                        allocator::heap_for::<T>(),
                        before,
                        kind::record_of::<T>(),
                        Err(e),
                        allocator,
                    ));
                    assert(raw_vec::may_refuse::<T, A>(before, kind::record_of::<T>(), e));
                    return Err(e);
                },
            },
            None => Block::empty(),
        };
        block.push(x);
        Ok(AllocBox { block, allocator })
    }

    /// Manually move the value out of this box. This is an unfortunate workaround due to the fact
    /// that `Box` supports moving out due to compiler magic, and this type does not have that convenience.
    pub fn take(self) -> (r: T)
        ensures
            r == self@,
    {
        proof {
            use_type_invariant(&self);
        }
        let mut allocator = self.allocator;
        let mut block = self.block;
        let val = block.pop().unwrap();
        if let Some(kind) = Kind::for_value(&val) {
            let _ = allocator.dealloc(block, kind);
        }
        val
    }

    /// Access to the value in the box.
    pub fn deref_mut(&mut self) -> (r: &mut T)
        ensures
            *r == old(self)@,
            final(self)@ == *final(r),
            final(self).spec_alloc() == old(self).spec_alloc(),
    {
        proof {
            use_type_invariant(&*self);
        }
        self.block.cell_mut(0)
    }
}

// a block for one value has room for it.
proof fn lemma_room_for_one<T>()
    ensures
        allocator::room_in::<T>(kind::record_of::<T>().size) >= 1,
{
    let s = vstd::layout::size_of::<T>() as int;
    if s > 0 {
        assert(s / s == 1) by (nonlinear_arith)
            requires
                0 < s,
        ;
    }
}

impl<T, A: Allocator> core::ops::Deref for AllocBox<T, A> {
    type Target = T;

    fn deref(&self) -> (r: &T)
        ensures
            *r == self@,
    {
        proof {
            use_type_invariant(self);
        }
        &self.block.cells()[0]
    }
}

impl<T: Clone, A: Allocator + Clone> AllocBox<T, A> {
    /// A box with a copy of the value, from a copy of the allocator.
    pub fn clone(&self) -> (r: Result<Self, A::Error>)
        ensures
            r matches Ok(b) ==> cloned(self@, b@),
            vstd::layout::size_of::<T>() == 0 ==> r is Ok,
            exists|allocator: A| #[trigger]
                cloned(self.spec_alloc(), allocator) && match r {
                    Ok(b) => can_hold::<T, A>(allocator, Ok(b.spec_alloc())),
                    Err(e) => can_hold::<T, A>(allocator, Err(e)),
                },
    {
        proof {
            use_type_invariant(self);
        }
        let allocator = self.allocator.clone();
        assert(cloned(self.spec_alloc(), allocator));
        AllocBox::in_alloc(self.block.cells()[0].clone(), allocator)
    }
}

/// A boxed slice allocated from the allocator `A`.
pub struct AllocSlice<T, A: Allocator = DefaultAllocator> {
    block: Block<T>,
    allocator: A,
}

impl<T, A: Allocator> AllocSlice<T, A> {
    /// The elements of the slice.
    pub closed spec fn view(&self) -> Seq<T> {
        self.block.contents()
    }

    /// The allocator that the memory comes from.
    pub closed spec fn spec_alloc(&self) -> A {
        self.allocator
    }

    /// The slice of the values in a block.
    pub fn from_raw_parts(block: Block<T>, allocator: A) -> (r: Self)
        ensures
            r@ == block.contents(),
            r.spec_alloc() == allocator,
    {
        AllocSlice { block, allocator }
    }

    /// Access to the element with the given index.
    pub fn index_mut(&mut self, i: usize) -> (r: &mut T)
        requires
            i < old(self)@.len(),
        ensures
            *r == old(self)@[i as int],
            final(self)@ == old(self)@.update(i as int, *final(r)),
            final(self).spec_alloc() == old(self).spec_alloc(),
    {
        self.block.cell_mut(i)
    }

    /// The elements of the slice.
    pub fn as_vec(&self) -> (r: &Vec<T>)
        ensures
            r@ == self@,
    {
        self.block.cells()
    }
}

/// A version of `FnOnce` intended to be used with boxed functions, of up to four arguments.
pub trait FnBox<Args, A: Allocator>: Sized {
    /// What the function returns.
    type Output;

    /// Whether the function can be called.
    spec fn may_call(self, args: Args) -> bool;

    /// Whether the function can return this.
    spec fn may_return(self, args: Args, output: Self::Output) -> bool;

    /// Calls the function in the box.
    fn call_box(this: AllocBox<Self, A>, args: Args) -> (r: Self::Output)
        requires
            this@.may_call(args),
        ensures
            this@.may_return(args, r),
    ;
}

impl<A: Allocator, R, F: FnOnce() -> R> FnBox<(), A> for F {
    type Output = R;

    open spec fn may_call(self, args: ()) -> bool {
        call_requires(self, ())
    }

    open spec fn may_return(self, args: (), output: R) -> bool {
        call_ensures(self, (), output)
    }

    fn call_box(this: AllocBox<F, A>, args: ()) -> (r: R) {
        let f = this.take();
        f()
    }
}

impl<A: Allocator, X, R, F: FnOnce(X) -> R> FnBox<(X,), A> for F {
    type Output = R;

    open spec fn may_call(self, args: (X,)) -> bool {
        call_requires(self, args)
    }

    open spec fn may_return(self, args: (X,), output: R) -> bool {
        call_ensures(self, args, output)
    }

    fn call_box(this: AllocBox<F, A>, args: (X,)) -> (r: R) {
        let f = this.take();
        f(args.0)
    }
}

impl<A: Allocator, X, Y, R, F: FnOnce(X, Y) -> R> FnBox<(X, Y), A> for F {
    type Output = R;

    open spec fn may_call(self, args: (X, Y)) -> bool {
        call_requires(self, args)
    }

    open spec fn may_return(self, args: (X, Y), output: R) -> bool {
        call_ensures(self, args, output)
    }

    fn call_box(this: AllocBox<F, A>, args: (X, Y)) -> (r: R) {
        let f = this.take();
        f(args.0, args.1)
    }
}

impl<A: Allocator, X, Y, Z, R, F: FnOnce(X, Y, Z) -> R> FnBox<(X, Y, Z), A> for F {
    type Output = R;

    open spec fn may_call(self, args: (X, Y, Z)) -> bool {
        call_requires(self, args)
    }

    open spec fn may_return(self, args: (X, Y, Z), output: R) -> bool {
        call_ensures(self, args, output)
    }

    fn call_box(this: AllocBox<F, A>, args: (X, Y, Z)) -> (r: R) {
        let f = this.take();
        f(args.0, args.1, args.2)
    }
}

impl<A: Allocator, X, Y, Z, W, R, F: FnOnce(X, Y, Z, W) -> R> FnBox<(X, Y, Z, W), A> for F {
    type Output = R;

    open spec fn may_call(self, args: (X, Y, Z, W)) -> bool {
        call_requires(self, args)
    }

    open spec fn may_return(self, args: (X, Y, Z, W), output: R) -> bool {
        call_ensures(self, args, output)
    }

    fn call_box(this: AllocBox<F, A>, args: (X, Y, Z, W)) -> (r: R) {
        let f = this.take();
        f(args.0, args.1, args.2, args.3)
    }
}

/// A box asks its allocator for a block for the value, once, and fails only if the allocator refuses.
/// For a value without a size it asks for nothing.
pub proof fn law_boxes_ask_for_their_value<T, A: Allocator>(
    x: T,
    allocator: A,
    r: Result<AllocBox<T, A>, A::Error>,
)
    requires
        call_ensures(AllocBox::<T, A>::in_alloc, (x, allocator), r),
    ensures
        r matches Ok(b) ==> b@ == x,
        vstd::layout::size_of::<T>() == 0 ==> r is Ok && r->Ok_0.spec_alloc() == allocator,
        vstd::layout::size_of::<T>() > 0 ==> match r {
            Ok(b) => A::answers(
                allocator::heap_for::<T>(),
                allocator,
                kind::Record {
                    size: vstd::layout::size_of::<T>() as int,
                    align: vstd::layout::align_of::<T>() as int,
                },
                Ok(()),
                b.spec_alloc(),
            ),
            Err(e) => exists|after: A| #[trigger]
                A::answers(
                    allocator::heap_for::<T>(),
                    allocator,
                    kind::Record {
                        size: vstd::layout::size_of::<T>() as int,
                        align: vstd::layout::align_of::<T>() as int,
                    },
                    Err(e),
                    after,
                ),
        },
{
}

} // verus!
