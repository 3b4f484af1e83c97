use entity_engine::memory::allocator::{
    AllocErr, AllocError, Allocator, Block, DefaultAllocator, MemoryExhausted,
};
use entity_engine::memory::arith::{is_power_of_two, next_power_of_two};
use entity_engine::memory::boxed::{AllocBox, AllocSlice, FnBox};
use entity_engine::memory::collections::raw_vec::{alloc_guard, check_capacity, RawVec};
use entity_engine::memory::collections::vector::Vector;
use entity_engine::memory::kind::{Kind, NonZero};

// ZST used for testing.
struct Test;

#[test]
fn make_box() {
    let _: AllocBox<u32> = AllocBox::new(5).unwrap();
    let _ = AllocBox::new(Test).unwrap();
}

struct Incrementor<'a> {
    i: &'a mut i32,
}

impl<'a> Drop for Incrementor<'a> {
    fn drop(&mut self) {
        *self.i += 1
    }
}

#[test]
fn destructors() {
    let mut i = 0;
    {
        let _ = AllocBox::new(Incrementor { i: &mut i });
    }

    assert_eq!(i, 1);
}

#[test]
fn cloning() {
    let a = AllocBox::new(5).unwrap();
    let b = a.clone().unwrap();
    assert_eq!(*b, 5);
}

#[test]
fn fnbox() {
    let mut val = 0;
    {
        let b = AllocBox::new(|| val += 1).unwrap();
        FnBox::call_box(b, ());
    }

    assert_eq!(val, 1);
}

#[test]
fn fnbox_with_an_argument() {
    let b = AllocBox::new(|x: u32| x + 2).unwrap();
    let r: u32 = FnBox::call_box(b, (5,));
    assert_eq!(r, 7);
    let b = AllocBox::new(|x: u32, y: u32| x - y).unwrap();
    let r: u32 = FnBox::call_box(b, (5, 2));
    assert_eq!(r, 3);
    let b = AllocBox::new(|x: u32, y: u32, z: u32| x * y - z).unwrap();
    let r: u32 = FnBox::call_box(b, (5, 2, 1));
    assert_eq!(r, 9);
    let b = AllocBox::new(|x: u32, y: u32, z: u32, w: u32| x * y - z * w).unwrap();
    let r: u32 = FnBox::call_box(b, (5, 2, 3, 2));
    assert_eq!(r, 4);
}

#[test]
fn box_take_and_deref_mut() {
    let mut b = AllocBox::new(String::from("ab")).unwrap();
    b.deref_mut().push('c');
    assert_eq!(&*b, "abc");
    assert_eq!(b.take(), "abc");
    let z = AllocBox::new(()).unwrap();
    assert_eq!(z.take(), ());
}

#[test]
fn reserve_does_not_overallocate() {
    {
        let mut v: RawVec<u32> = RawVec::new();
        // First `reserve` allocates like `reserve_exact`
        v.reserve(0, 9).unwrap();
        assert_eq!(9, v.cap());
    }

    {
        let mut v: RawVec<u32> = RawVec::new();
        v.reserve(0, 7).unwrap();
        assert_eq!(7, v.cap());
        // 97 if more than double of 7, so `reserve` should work
        // like `reserve_exact`.
        v.reserve(7, 90).unwrap();
        assert_eq!(97, v.cap());
    }

    {
        let mut v: RawVec<u32> = RawVec::new();
        v.reserve(0, 12).unwrap();
        assert_eq!(12, v.cap());
        v.reserve(12, 3).unwrap();
        // 3 is less than half of 12, so `reserve` must grow
        // exponentially. At the time of writing this test grow
        // factor is 2, so new capacity is 24, however, grow factor
        // of 1.5 is OK too. Hence `>= 18` in assert.
        assert!(v.cap() >= 12 + 12 / 2);
    }
}

#[test]
fn reserve_exact_stops_at_the_request() {
    let mut v: RawVec<u32> = RawVec::with_capacity(12).unwrap();
    v.reserve_exact(12, 3).unwrap();
    assert_eq!(15, v.cap());
    v.reserve_exact(10, 5).unwrap();
    assert_eq!(15, v.cap());
}

#[test]
fn double_from_nothing_and_on() {
    let mut v: RawVec<u64> = RawVec::new();
    assert_eq!(v.cap(), 0);
    v.double().unwrap();
    assert_eq!(v.cap(), 4);
    v.double().unwrap();
    assert_eq!(v.cap(), 8);
}

#[test]
fn raw_vec_of_nothing_has_all_the_room() {
    let v: RawVec<()> = RawVec::new();
    assert_eq!(v.cap(), usize::MAX);
    let w: RawVec<()> = RawVec::with_alloc_and_capacity(DefaultAllocator, 3).unwrap();
    assert_eq!(w.cap(), usize::MAX);
}

#[test]
fn raw_vec_keeps_its_contents() {
    let mut v: RawVec<u32> = RawVec::with_capacity(2).unwrap();
    v.write(1);
    v.write(2);
    v.reserve(2, 1).unwrap();
    v.write(3);
    *v.ptr_mut(0) = 7;
    assert_eq!(v.ptr(), &vec![7, 2, 3]);
    assert_eq!(v.read(), Some(3));
    v.shrink_to_fit(2).unwrap();
    assert_eq!(v.cap(), 2);
    assert_eq!(v.ptr(), &vec![7, 2]);
    let s: AllocSlice<u32> = v.into_box();
    assert_eq!(s.as_vec(), &vec![7, 2]);
}

#[test]
fn shrink_to_nothing_and_release() {
    let mut v: RawVec<u32> = RawVec::with_capacity(5).unwrap();
    v.shrink_to_fit(0).unwrap();
    assert_eq!(v.cap(), 0);
    v.release().unwrap();
    let w: RawVec<u32> = RawVec::with_capacity(5).unwrap();
    let _: DefaultAllocator = w.clone_alloc();
    w.release().unwrap();
    let mut x: Vector<u32> = Vector::with_capacity(2).unwrap();
    x.push(3).unwrap();
    assert!(x.release().is_ok());
}

#[test]
fn capacity_checks() {
    assert!(check_capacity::<u32>(12));
    assert!(check_capacity::<()>(usize::MAX));
    assert!(!check_capacity::<u32>(usize::MAX));
    assert!(alloc_guard(isize::MAX as usize));
}

#[test]
fn vector_pushes_and_pops() {
    let mut v: Vector<u32> = Vector::new();
    assert_eq!(v.len(), 0);
    assert_eq!(v.pop(), None);
    for n in 0..10 {
        assert!(v.check_growth());
        v.push(n).unwrap();
    }
    assert_eq!(v.len(), 10);
    assert!(v.capacity() >= 10);
    assert_eq!(v.pop(), Some(9));
    assert_eq!(v.get(8), Some(&8));
    assert_eq!(v.get(9), None);
    *v.get_mut(0).unwrap() = 5;
    assert_eq!(v[0], 5);
    assert_eq!(v.as_vec().len(), 9);
    let w = v.clone().unwrap();
    assert_eq!(w.as_vec(), v.as_vec());
}

#[test]
fn vector_reserves_and_shrinks() {
    let mut v: Vector<u32> = Vector::with_capacity(2).unwrap();
    assert_eq!(v.capacity(), 2);
    v.push(1).unwrap();
    v.reserve_exact(4).unwrap();
    assert_eq!(v.capacity(), 5);
    v.reserve(5).unwrap();
    assert_eq!(v.capacity(), 10);
    v.shrink_to_fit().unwrap();
    assert_eq!(v.capacity(), 1);
    let s = v.into_boxed_slice().unwrap();
    assert_eq!(s.as_vec(), &vec![1]);
    let mut w: Vector<u32, DefaultAllocator> =
        Vector::with_alloc_and_capacity(DefaultAllocator, 3).unwrap();
    w.push(4).unwrap();
    let mut s = w.into_boxed_slice().unwrap();
    *s.index_mut(0) = 6;
    assert_eq!(s.as_vec(), &vec![6]);
    let empty: Vector<u32> = Vector::with_alloc(DefaultAllocator);
    assert_eq!(empty.into_boxed_slice().unwrap().as_vec().len(), 0);
}

#[test]
fn vector_iterates_from_both_ends() {
    let mut v: Vector<u32> = Vector::new();
    for n in 1..5 {
        v.push(n).unwrap();
    }
    let mut it = v.into_iter();
    assert_eq!(it.size_hint(), (4, Some(4)));
    assert_eq!(it.next(), Some(1));
    assert_eq!(it.next_back(), Some(4));
    assert_eq!(it.next(), Some(2));
    assert_eq!(it.size_hint(), (1, Some(1)));
    assert_eq!(it.next_back(), Some(3));
    assert_eq!(it.next(), None);
    assert_eq!(it.next_back(), None);
    assert_eq!(it.count(), 0);
}

#[test]
fn kinds_of_types() {
    let k = Kind::new::<u32>().unwrap();
    assert_eq!((k.size().get(), k.align().get()), (4, 4));
    assert!(Kind::new::<()>().is_none());
    let k = Kind::for_value(&5u16).unwrap();
    assert_eq!((k.size().get(), k.align().get()), (2, 2));
    assert!(Kind::for_value(&Test).is_none());
    let k = Kind::new_unchecked::<u64>();
    assert_eq!((k.size().get(), k.align().get()), (8, 8));
}

#[test]
fn kinds_of_arrays() {
    let k = Kind::array::<u32>(3).unwrap();
    assert_eq!((k.size().get(), k.align().get()), (12, 4));
    assert!(Kind::array::<u32>(0).is_none());
    assert!(Kind::array::<()>(3).is_none());
    assert!(Kind::array::<u32>(usize::MAX).is_none());
    let k = Kind::array_unchecked::<u8>(5);
    assert_eq!((k.size().get(), k.align().get()), (5, 1));
}

#[test]
fn kinds_extend_with_padding() {
    let bytes = Kind::array::<u8>(3).unwrap();
    let word = Kind::new::<u32>().unwrap();
    let (k, off) = bytes.extend(word).unwrap();
    assert_eq!((k.size().get(), k.align().get(), off), (8, 4, 4));
    let (k, off) = bytes.extend_packed(word).unwrap();
    assert_eq!((k.size().get(), k.align().get(), off), (7, 1, 3));
    let (k, off) = bytes.extend_unchecked(word);
    assert_eq!((k.size().get(), off), (8, 4));
    let (k, off) = bytes.extend_packed_unchecked(word);
    assert_eq!((k.size().get(), off), (7, 3));
    let huge = Kind::array::<u8>(usize::MAX).unwrap();
    assert!(huge.extend(word).is_none());
    assert!(huge.extend_packed(word).is_none());
}

#[test]
fn kinds_repeat_with_padding() {
    // seven bytes that are aligned to four.
    let word = Kind::new::<u32>().unwrap();
    let bytes = Kind::array::<u8>(3).unwrap();
    let (odd, _) = word.extend_packed(bytes).unwrap();
    let (k, off) = odd.repeat(3).unwrap();
    assert_eq!((k.size().get(), k.align().get(), off), (24, 4, 8));
    let k = odd.repeat_packed(3).unwrap();
    assert_eq!((k.size().get(), k.align().get()), (21, 4));
    assert_eq!(odd.repeat_unchecked(2).1, 8);
    assert_eq!(odd.repeat_packed_unchecked(2).size().get(), 14);
    assert!(odd.repeat(0).is_none());
    assert!(odd.repeat_packed(0).is_none());
    assert!(odd.repeat(usize::MAX).is_none());
    assert!(odd.repeat_packed(usize::MAX).is_none());
    assert_eq!(odd.padding_needed_for(NonZero::new(4)), 1);
    assert_eq!(odd.padding_needed_for(NonZero::new(7)), 0);
}

#[test]
fn kinds_align_to() {
    let k = Kind::array::<u8>(16).unwrap().align_to(NonZero::new(32));
    assert_eq!((k.size().get(), k.align().get()), (16, 32));
    let k = k.align_to(NonZero::new(4));
    assert_eq!(k.align().get(), 32);
    let k = k.align_to(NonZero::new(33));
    assert_eq!(k.align().get(), 64);
}

#[test]
fn powers_of_two() {
    assert!(is_power_of_two(1));
    assert!(is_power_of_two(4096));
    assert!(!is_power_of_two(0));
    assert!(!is_power_of_two(12));
    assert_eq!(next_power_of_two(0), 1);
    assert_eq!(next_power_of_two(5), 8);
    assert_eq!(next_power_of_two(8), 8);
}

#[test]
fn default_allocator_hands_out_room() {
    let mut a = DefaultAllocator;
    let kind = Kind::array::<u32>(4).unwrap();
    let mut b: Block<u32> = a.allocate(kind).unwrap();
    b.push(1);
    b.push(2);
    assert_eq!(b.len(), 2);
    assert_eq!(b.cells(), &vec![1, 2]);
    *b.cell_mut(0) = 3;
    let larger = Kind::array::<u32>(8).unwrap();
    a.realloc(&mut b, kind, larger).unwrap();
    assert_eq!(b.cells(), &vec![3, 2]);
    assert_eq!(b.pop(), Some(2));
    assert!(a.dealloc(b, larger).is_ok());
    let (least, most) = a.usable_size(kind);
    assert_eq!((least.get(), most.get()), (16, 16));
    assert!(a.max_size().is_none());
    assert!(a.max_align().is_none());
}

#[test]
fn stricter_alignment_is_refused() {
    let mut a = DefaultAllocator;
    let kind = Kind::array::<u8>(64).unwrap().align_to(NonZero::new(64));
    assert!(a.allocate::<u8>(kind).is_err());
    assert!(a.alloc_excess::<u8>(kind).is_err());
    assert!(a.alloc_unchecked::<u8>(kind).is_none());
    let plain = Kind::array::<u8>(64).unwrap();
    let mut b: Block<u8> = a.allocate(plain).unwrap();
    b.push(1);
    assert!(a.realloc(&mut b, plain, kind).is_err());
    assert_eq!(b.cells(), &vec![1]);
    // there is no end to values without a size.
    let mut units: Block<()> = a.allocate(Kind::array::<u8>(1).unwrap()).unwrap();
    units.push(());
    units.push(());
    assert_eq!(units.len(), 2);
}

#[test]
fn typed_allocation() {
    let mut a = DefaultAllocator::default();
    let one: Block<u64> = a.alloc_one().unwrap();
    assert_eq!(one.len(), 0);
    a.dealloc_one(one).unwrap();
    assert!(a.alloc_one::<()>().is_err());
    let mut array: Block<u64> = a.alloc_array(3).unwrap();
    array.push(9);
    a.realloc_array(&mut array, 3, 5).unwrap();
    assert_eq!(array.cells(), &vec![9]);
    a.dealloc_array(array, 5).unwrap();
    assert!(a.alloc_array::<u64>(0).is_err());
    assert!(a.alloc_array::<u64>(usize::MAX).is_err());
    let ex = a.alloc_excess::<u64>(Kind::array::<u64>(2).unwrap()).unwrap();
    assert_eq!(ex.1.get(), 16);
    assert!(a.alloc_array_unchecked::<u64>(2).is_some());
}

#[test]
fn unchecked_allocation() {
    let mut a = DefaultAllocator;
    let two = Kind::array::<u32>(2).unwrap();
    let four = Kind::array::<u32>(4).unwrap();
    let mut b: Block<u32> = a.alloc_unchecked(two).unwrap();
    b.push(1);
    assert!(a.realloc_unchecked(&mut b, two, four).is_some());
    assert_eq!(b.cells(), &vec![1]);
    assert!(a.dealloc_unchecked(b, four).is_some());
    let mut ex = a.alloc_excess_unchecked::<u32>(two).unwrap();
    assert_eq!(ex.1.get(), 8);
    let room = a.realloc_excess_unchecked(&mut ex.0, two, four).unwrap();
    assert_eq!(room.get(), 16);
    let mut array: Block<u32> = a.alloc_array_unchecked(3).unwrap();
    array.push(5);
    assert!(a.realloc_array_unchecked(&mut array, 3, 6).is_some());
    assert_eq!(array.cells(), &vec![5]);
    assert!(a.dealloc_array_unchecked(array, 6).is_some());
}

#[test]
fn allocation_errors() {
    assert!(AllocErr::invalid_input().is_request_unsupported());
    assert!(!AllocErr::invalid_input().is_memory_exhausted());
    assert!(MemoryExhausted::invalid_input().is_memory_exhausted());
    assert!(!MemoryExhausted::invalid_input().is_request_unsupported());
}
