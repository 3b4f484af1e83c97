//! Descriptions of memory records.

use vstd::prelude::*;
use vstd::arithmetic::power2::*;
use super::arith;
use super::arith::next_power_of_two;

verus! {

/// A positive size, capacity or alignment.
#[derive(Clone, Copy, Debug, PartialEq, Eq, Structural)]
pub struct NonZero {
    value: usize,
}

/// The size of a request.
pub type Size = NonZero;

/// The capacity of a block.
pub type Capacity = NonZero;

/// The alignment of a request.
pub type Alignment = NonZero;

impl NonZero {
    /// The number itself.
    pub closed spec fn view(&self) -> int {
        self.value as int
    }

    #[verifier::type_invariant]
    spec fn positive(self) -> bool {
        self.value != 0
    }

    /// Wraps a positive number.
    pub fn new(value: usize) -> (r: NonZero)
        requires
            value != 0,
        ensures
            r@ == value,
    {
        NonZero { value }
    }

    /// The number that was wrapped.
    pub fn get(&self) -> (r: usize)
        ensures
            r == self@,
            0 < r,
    {
        proof {
            use_type_invariant(&*self);
        }
        self.value
    }
}

/// The size and the alignment that a `Kind` asks for, in bytes.
pub struct Record {
    pub size: int,
    pub align: int,
}

impl Record {
    /// A record of positive size whose alignment is a power of two.
    pub open spec fn valid(self) -> bool {
        &&& 0 < self.size <= usize::MAX
        &&& 0 < self.align <= usize::MAX
        &&& is_pow2(self.align)
    }
}

/// The record of one value of type `T`.
pub open spec fn record_of<T>() -> Record {
    Record { size: vstd::layout::size_of::<T>() as int, align: vstd::layout::align_of::<T>() as int }
}

/// The record of `n` values of type `T` in a row.
pub open spec fn array_record<T>(n: int) -> Record {
    Record {
        size: n * vstd::layout::size_of::<T>() as int,
        align: vstd::layout::align_of::<T>() as int,
    }
}

/// Whether a record of `n` values of type `T` exists: it has a size, and the
/// size can be counted.
pub open spec fn array_exists<T>(n: int) -> bool {
    &&& 0 < n
    &&& 0 < vstd::layout::size_of::<T>()
    &&& n * vstd::layout::size_of::<T>() <= usize::MAX
}

/// The larger of two numbers.
pub open spec fn max(a: int, b: int) -> int {
    if a < b {
        b
    } else {
        a
    }
}

/// The smaller of two numbers.
pub open spec fn min(a: int, b: int) -> int {
    if a < b {
        a
    } else {
        b
    }
}

/// The size and the alignment of `T`, in bytes.
fn size_align<T>() -> (r: (usize, usize))
    ensures
        r.0 == vstd::layout::size_of::<T>(),
        r.1 == vstd::layout::align_of::<T>(),
        is_pow2(r.1 as int),
        0 < r.1,
        r.0 % r.1 == 0,
{
    broadcast use vstd::layout::group_align_properties;

    (core::mem::size_of::<T>(), core::mem::align_of::<T>())
}

/// Category for a memory record.
///
/// An instance of `Kind` describes a particular layout of memory.
/// You build a `Kind` up as an input to give to an allocator.
///
/// All kinds have an associated positive size; note that this implies
/// zero-sized types have no corresponding kind.
#[derive(Clone, Copy, Debug, PartialEq, Eq, Structural)]
pub struct Kind {
    // size of the requested block of memory, measured in bytes.
    size: Size,
    // alignment of the requested block of memory, measured in bytes.
    // always a power of two.
    align: Alignment,
}

impl Kind {
    /// What the kind asks for.
    pub closed spec fn view(&self) -> Record {
        Record { size: self.size@, align: self.align@ }
    }

    #[verifier::type_invariant]
    pub open spec fn well_formed(self) -> bool {
        self@.valid()
    }

    fn from_size_align(size: usize, align: usize) -> (k: Kind)
        requires
            is_pow2(align as int),
            0 < size,
        ensures
            k@ == (Record { size: size as int, align: align as int }),
    {
        proof {
            reveal(is_pow2);
        }
        Kind { size: NonZero::new(size), align: NonZero::new(align) }
    }

    /// The minimum size in bytes for a memory block of this kind.
    pub fn size(&self) -> (r: NonZero)
        ensures
            r@ == self@.size,
            self@.valid(),
    {
        proof {
            use_type_invariant(&*self);
        }
        self.size
    }

    /// The minimum byte alignment for a memory block of this kind.
    pub fn align(&self) -> (r: NonZero)
        ensures
            r@ == self@.align,
            self@.valid(),
    {
        proof {
            use_type_invariant(&*self);
        }
        self.align
    }

    /// Constructs a `Kind` suitable for holding a value of type `T`.
    /// Returns `None` if no such kind exists (e.g. for zero-sized `T`).
    pub fn new<T>() -> (r: Option<Kind>)
        ensures
            match r {
                Some(k) => 0 < vstd::layout::size_of::<T>() && k@ == record_of::<T>(),
                None => vstd::layout::size_of::<T>() == 0,
            },
    {
        let (size, align) = size_align::<T>();
        if size > 0 {
            Some(Kind::from_size_align(size, align))
        } else {
            None
        }
    }

    /// Produces kind describing a record that could be used to
    /// allocate backing structure for a value like `t`.
    ///
    /// Returns `None` when no such kind exists; for example, when `t`
    /// is a reference to a zero-sized type.
    pub fn for_value<T>(t: &T) -> (r: Option<Kind>)
        ensures
            match r {
                Some(k) => 0 < vstd::layout::size_of::<T>() && k@ == record_of::<T>(),
                None => vstd::layout::size_of::<T>() == 0,
            },
    {
        Kind::new::<T>()
    }

    /// Creates a kind describing the record that can hold a value
    /// of the same kind as `self`, but that also is aligned to
    /// alignment `align` (measured in bytes).
    ///
    /// If `self` already meets the prescribed alignment, then returns
    /// `self`.
    ///
    /// Note that this method does not add any padding to the overall
    /// size, regardless of whether the returned kind has a different
    /// alignment. In other words, if `K` has size 16, `K.align_to(32)`
    /// will *still* have size 16.
    pub fn align_to(&self, align: Alignment) -> (k: Kind)
        requires
            align@ <= usize::MAX / 2 + 1,
        ensures
            k@.size == self@.size,
            align@ <= self@.align ==> k == *self,
            self@.align < align@ ==> arith::is_next_pow2(k@.align, align@),
    {
        proof {
            use_type_invariant(&*self);
            reveal(is_pow2);
        }
        if align.get() > self.align.get() {
            let pow2_align: usize = next_power_of_two(align.get());
            Kind { align: NonZero::new(pow2_align), size: self.size }
        } else {
            *self
        }
    }

    /// Returns the amount of padding we must insert after `self`
    /// to ensure that the following address will satisfy `align`
    /// (measured in bytes).
    ///
    /// Note that in practice, this is only useable if `align <=
    /// self.align` otherwise, the amount of inserted padding would
    /// need to depend on the particular starting address for the
    /// whole record, because `self.align` would not provide
    /// sufficient constraint.
    pub fn padding_needed_for(&self, align: Alignment) -> (pad: usize)
        ensures
            self@.size + pad == arith::round_up(self@.size, align@),
            pad < align@,
    {
        let len: usize = self.size.get();
        let a: usize = align.get();
        proof {
            arith::lemma_round_up(len as int, a as int);
        }
        let excess: usize = len % a;
        if excess == 0 {
            0
        } else {
            a - excess
        }
    }

    /// Creates a kind describing the record for `n` instances of
    /// `self`, with a suitable amount of padding between each to
    /// ensure that each instance is given its requested size and
    /// alignment. On success, returns `(k, offs)` where `k` is the
    /// kind of the array and `offs` is the distance between the start
    /// of each element in the array.
    ///
    /// On zero `n` or arithmetic overflow, returns `None`.
    pub fn repeat(&self, n: usize) -> (r: Option<(Kind, usize)>)
        ensures
            match r {
                Some((k, offs)) => {
                    &&& 0 < n
                    &&& offs == arith::round_up(self@.size, self@.align)
                    &&& k@ == (Record { size: offs * n, align: self@.align })
                },
                None => n == 0 || arith::round_up(self@.size, self@.align) * n > usize::MAX,
            },
    {
        proof {
            use_type_invariant(&*self);
        }
        if n == 0 {
            return None;
        }
        let ghost padded = arith::round_up(self@.size, self@.align);
        assert(padded * n >= padded) by (nonlinear_arith)
            requires
                n >= 1,
                padded >= 0,
        ;
        let padded_size: usize = match self.size.get().checked_add(
            self.padding_needed_for(self.align),
        ) {
            None => return None,
            Some(padded_size) => padded_size,
        };
        let alloc_size: usize = match padded_size.checked_mul(n) {
            None => return None,
            Some(alloc_size) => alloc_size,
        };
        Some((Kind::from_size_align(alloc_size, self.align.get()), padded_size))
    }

    /// Creates a kind describing the record for `self` followed by
    /// `next`, including any necessary padding to ensure that `next`
    /// will be properly aligned. Note that the result kind will
    /// satisfy the alignment properties of both `self` and `next`.
    ///
    /// Returns `Some((k, offset))`, where `k` is kind of the concatenated
    /// record and `offset` is the relative location, in bytes, of the
    /// start of the `next` embedded witnin the concatenated record
    /// (assuming that the record itself starts at offset 0).
    ///
    /// On arithmetic overflow, returns `None`.
    pub fn extend(&self, next: Kind) -> (r: Option<(Kind, usize)>)
        ensures
            match r {
                Some((k, offset)) => {
                    &&& offset == arith::round_up(self@.size, max(self@.align, next@.align))
                    &&& k@ == (Record {
                        size: offset + next@.size,
                        align: max(self@.align, next@.align),
                    })
                },
                None => arith::round_up(self@.size, max(self@.align, next@.align)) + next@.size
                    > usize::MAX,
            },
    {
        proof {
            use_type_invariant(&*self);
            use_type_invariant(&next);
        }
        let new_align: Alignment = if self.align.get() < next.align.get() {
            next.align
        } else {
            self.align
        };
        let pad: usize = self.padding_needed_for(new_align);
        let offset: usize = match self.size.get().checked_add(pad) {
            None => return None,
            Some(offset) => offset,
        };
        let new_size: usize = match offset.checked_add(next.size.get()) {
            None => return None,
            Some(new_size) => new_size,
        };
        Some((Kind::from_size_align(new_size, new_align.get()), offset))
    }

    /// Creates a kind describing the record for `n` instances of
    /// `self`, with no padding between each instance.
    ///
    /// On zero `n` or overflow, returns `None`.
    pub fn repeat_packed(&self, n: usize) -> (r: Option<Kind>)
        ensures
            match r {
                Some(k) => 0 < n && k@ == (Record { size: self@.size * n, align: self@.align }),
                None => n == 0 || self@.size * n > usize::MAX,
            },
    {
        proof {
            use_type_invariant(&*self);
        }
        if n == 0 {
            return None;
        }
        let scaled: usize = match self.size.get().checked_mul(n) {
            None => return None,
            Some(scaled) => scaled,
        };
        assert(self@.size * n > 0) by (nonlinear_arith)
            requires
                self@.size > 0,
                n > 0,
        ;
        Some(Kind { size: NonZero::new(scaled), align: self.align })
    }

    /// Creates a kind describing the record for `self` followed by
    /// `next` with no additional padding between the two. Since no
    /// padding is inserted, the alignment of `next` is irrelevant,
    /// and is not incoporated *at all* into the resulting kind.
    ///
    /// Returns `(k, offset)`, where `k` is kind of the concatenated
    /// record and `offset` is the relative location, in bytes, of the
    /// start of the `next` embedded witnin the concatenated record
    /// (assuming that the record itself starts at offset 0).
    ///
    /// (The `offset` is always the same as `self.size()`; we use this
    ///  signature out of convenience in matching the signature of
    ///  `fn extend`.)
    ///
    /// On arithmetic overflow, returns `None`.
    pub fn extend_packed(&self, next: Kind) -> (r: Option<(Kind, usize)>)
        ensures
            match r {
                Some((k, offset)) => {
                    &&& offset == self@.size
                    &&& k@ == (Record { size: self@.size + next@.size, align: self@.align })
                },
                None => self@.size + next@.size > usize::MAX,
            },
    {
        proof {
            use_type_invariant(&*self);
        }
        let new_size: usize = match self.size.get().checked_add(next.size.get()) {
            None => return None,
            Some(new_size) => new_size,
        };
        Some((Kind { size: NonZero::new(new_size), align: self.align }, self.size.get()))
    }

    /// Creates kind describing the record for a single instance of `T`.
    /// Requires `T` has non-zero size.
    pub fn new_unchecked<T>() -> (k: Kind)
        requires
            0 < vstd::layout::size_of::<T>(),
        ensures
            k@ == record_of::<T>(),
    {
        let (size, align) = size_align::<T>();
        Kind::from_size_align(size, align)
    }

    /// Like `extend`, for inputs that do not overflow.
    pub fn extend_unchecked(&self, next: Kind) -> (r: (Kind, usize))
        requires
            arith::round_up(self@.size, max(self@.align, next@.align)) + next@.size <= usize::MAX,
        ensures
            r.1 == arith::round_up(self@.size, max(self@.align, next@.align)),
            r.0@ == (Record { size: r.1 + next@.size, align: max(self@.align, next@.align) }),
    {
        self.extend(next).unwrap()
    }

    /// Like `repeat`, for a non-zero `n` and inputs that do not overflow.
    pub fn repeat_unchecked(&self, n: usize) -> (r: (Kind, usize))
        requires
            0 < n,
            arith::round_up(self@.size, self@.align) * n <= usize::MAX,
        ensures
            r.1 == arith::round_up(self@.size, self@.align),
            r.0@ == (Record { size: r.1 * n, align: self@.align }),
    {
        self.repeat(n).unwrap()
    }

    /// Like `repeat_packed`, for a non-zero `n` and inputs that do not overflow.
    pub fn repeat_packed_unchecked(&self, n: usize) -> (k: Kind)
        requires
            0 < n,
            self@.size * n <= usize::MAX,
        ensures
            k@ == (Record { size: self@.size * n, align: self@.align }),
    {
        self.repeat_packed(n).unwrap()
    }

    /// Like `extend_packed`, for inputs that do not overflow.
    pub fn extend_packed_unchecked(&self, next: Kind) -> (r: (Kind, usize))
        requires
            self@.size + next@.size <= usize::MAX,
        ensures
            r.1 == self@.size,
            r.0@ == (Record { size: self@.size + next@.size, align: self@.align }),
    {
        self.extend_packed(next).unwrap()
    }

    /// Creates a kind describing the record for a `[T; n]`.
    ///
    /// On zero `n`, zero-sized `T`, or arithmetic overflow, returns `None`.
    pub fn array<T>(n: usize) -> (r: Option<Kind>)
        ensures
            match r {
                Some(k) => array_exists::<T>(n as int) && k@ == array_record::<T>(n as int),
                None => !array_exists::<T>(n as int),
            },
    {
        match Kind::new::<T>() {
            None => None,
            Some(k) => {
                proof {
                    broadcast use vstd::layout::group_align_properties;

                    arith::lemma_round_up(k@.size, k@.align);
                    vstd::arithmetic::mul::lemma_mul_is_commutative(k@.size, n as int);
                }
                match k.repeat(n) {
                    None => None,
                    Some((array, _)) => Some(array),
                }
            },
        }
    }

    /// Creates a kind describing the record for a `[T; n]`.
    ///
    /// Requires nonzero `n`, nonzero-sized `T`, and no arithmetic
    /// overflow.
    pub fn array_unchecked<T>(n: usize) -> (k: Kind)
        requires
            array_exists::<T>(n as int),
        ensures
            k@ == array_record::<T>(n as int),
    {
        Kind::array::<T>(n).unwrap()
    }
}

/// In a repeated record every instance starts at a multiple of the alignment,
/// and one instance ends before the next starts.
pub proof fn law_repeat_places_instances(size: int, align: int, n: int, i: int)
    requires
        (Record { size, align }).valid(),
        0 <= i < n,
    ensures
        (arith::round_up(size, align) * i) % align == 0,
        arith::round_up(size, align) * i + size <= arith::round_up(size, align) * (i + 1)
            <= arith::round_up(size, align) * n,
{
    let step = arith::round_up(size, align);
    arith::lemma_round_up(size, align);
    vstd::arithmetic::div_mod::lemma_fundamental_div_mod(step, align);
    let q = step / align;
    assert((step * i) == (q * i) * align) by (nonlinear_arith)
        requires
            step == align * q,
    ;
    vstd::arithmetic::div_mod::lemma_mod_multiples_basic(q * i, align);
    assert(step * (i + 1) == step * i + step) by (nonlinear_arith);
    assert(step * (i + 1) <= step * n) by (nonlinear_arith)
        requires
            0 <= step,
            i + 1 <= n,
    ;
}

/// In an extended record the second part starts at a multiple of both
/// alignments, after the end of the first part, and both parts lie in it.
pub proof fn law_extend_places_parts(first: Record, second: Record)
    requires
        first.valid(),
        second.valid(),
    ensures
        ({
            let offset = arith::round_up(first.size, max(first.align, second.align));
            &&& offset % first.align == 0
            &&& offset % second.align == 0
            &&& first.size <= offset
            &&& max(first.align, second.align) % first.align == 0
            &&& max(first.align, second.align) % second.align == 0
        }),
{
    let align = max(first.align, second.align);
    let offset = arith::round_up(first.size, align);
    arith::lemma_round_up(first.size, align);
    arith::lemma_pow2_divides(first.align, align);
    arith::lemma_pow2_divides(second.align, align);
    lemma_divides_transitive(first.align, align, offset);
    lemma_divides_transitive(second.align, align, offset);
}

/// What divides a number divides its multiples.
proof fn lemma_divides_transitive(a: int, b: int, c: int)
    requires
        0 < a,
        0 < b,
        b % a == 0,
        c % b == 0,
    ensures
        c % a == 0,
{
    vstd::arithmetic::div_mod::lemma_fundamental_div_mod(b, a);
    vstd::arithmetic::div_mod::lemma_fundamental_div_mod(c, b);
    assert(c == ((c / b) * (b / a)) * a) by (nonlinear_arith)
        requires
            b == a * (b / a),
            c == b * (c / b),
    ;
    vstd::arithmetic::div_mod::lemma_mod_multiples_basic((c / b) * (b / a), a);
}

/// There is a kind for `n` values of a type in a row unless they take up no bytes or more than
/// can be counted, and it is that of the type, repeated: as many bytes as the values have
/// together, with the alignment of one.
pub proof fn law_arrays_hold_all_values<T>(n: usize, r: Option<Kind>, one: Option<Kind>)
    requires
        call_ensures(Kind::array::<T>, (n,), r),
        call_ensures(Kind::new::<T>, (), one),
    ensures
        one is Some <==> vstd::layout::size_of::<T>() > 0,
        one matches Some(k) ==> k@.size == vstd::layout::size_of::<T>() && k@.align
            == vstd::layout::align_of::<T>(),
        r is Some <==> 0 < n * vstd::layout::size_of::<T>() <= usize::MAX,
        r matches Some(k) ==> k@.size == n * vstd::layout::size_of::<T>() && k@.align
            == vstd::layout::align_of::<T>(),
{
    let size = vstd::layout::size_of::<T>() as int;
    assert(n * size > 0 <==> n > 0 && size > 0) by (nonlinear_arith)
        requires
            0 <= n,
            0 <= size,
    ;
}

/// An extended record starts with the first part. The second part starts at the first multiple
/// of both alignments that is not before the end of the first part, and the record ends with it.
/// There is none only if it has more bytes than can be counted.
pub proof fn law_extending_adds_the_next_part(
    first: &Kind,
    next: Kind,
    r: Option<(Kind, usize)>,
    at: int,
)
    requires
        first@.valid(),
        next@.valid(),
        call_ensures(Kind::extend, (first, next), r),
        first@.size <= at,
        at % first@.align == 0,
        at % next@.align == 0,
    ensures
        r matches Some((k, offset)) ==> {
            &&& first@.size <= offset <= at
            &&& offset as int % first@.align == 0
            &&& offset as int % next@.align == 0
            &&& k@.size == offset + next@.size
            &&& k@.align % first@.align == 0
            &&& k@.align % next@.align == 0
            &&& k@.align == first@.align || k@.align == next@.align
        },
        r is None ==> at + next@.size > usize::MAX,
{
    law_extend_places_parts(first@, next@);
    let align = max(first@.align, next@.align);
    assert(at % align == 0);
    lemma_least_multiple(first@.size, align, at);
}

// rounding up gives the least multiple.
proof fn lemma_least_multiple(n: int, m: int, at: int)
    requires
        0 <= n <= at,
        0 < m,
        at % m == 0,
    ensures
        arith::round_up(n, m) <= at,
{
    arith::lemma_round_up(n, m);
    let r = arith::round_up(n, m);
    if at < r {
        let p = at / m;
        let q = r / m;
        vstd::arithmetic::div_mod::lemma_fundamental_div_mod(at, m);
        vstd::arithmetic::div_mod::lemma_fundamental_div_mod(r, m);
        assert(p <= q - 1) by (nonlinear_arith)
            requires
                m * p < m * q,
                0 < m,
        ;
        assert(m * p <= m * q - m) by (nonlinear_arith)
            requires
                p <= q - 1,
                0 < m,
        ;
    }
}

/// In a repeated record the instances start at multiples of the alignment, as near to each
/// other as they can without overlapping. There is none only if there are no instances or more
/// bytes than can be counted.
pub proof fn law_repeating_packs_the_instances(
    one: &Kind,
    n: usize,
    r: Option<(Kind, usize)>,
    step: int,
)
    requires
        one@.valid(),
        call_ensures(Kind::repeat, (one, n), r),
        one@.size <= step,
        step % one@.align == 0,
    ensures
        r matches Some((k, offs)) ==> {
            &&& 0 < n
            &&& one@.size <= offs <= step
            &&& offs as int % one@.align == 0
            &&& k@.size == offs * n
            &&& k@.align == one@.align
        },
        r is None ==> n == 0 || step * n > usize::MAX,
{
    arith::lemma_round_up(one@.size, one@.align);
    lemma_least_multiple(one@.size, one@.align, step);
    let least = arith::round_up(one@.size, one@.align);
    assert(least * n <= step * n) by (nonlinear_arith)
        requires
            least <= step,
            0 <= n,
    ;
}

/// Padding is the least number of bytes that brings the size to a multiple of the alignment.
pub proof fn law_padding_is_least(k: &Kind, align: Alignment, pad: usize, more: int)
    requires
        k@.valid(),
        0 < align@,
        call_ensures(Kind::padding_needed_for, (k, align), pad),
        0 <= more,
        (k@.size + more) % align@ == 0,
    ensures
        (k@.size + pad) % align@ == 0,
        pad <= more,
{
    arith::lemma_round_up(k@.size, align@);
    lemma_least_multiple(k@.size, align@, k@.size + more);
}

} // verus!
