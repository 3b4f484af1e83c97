//! Slabs: growable runs of blocks of one granularity.

use vstd::prelude::*;
use super::COMPONENT_ALIGN;
use super::block::{BlockHandle, Granularity};
use crate::memory::kind::{Kind, NonZero};

verus! {

/// The number of blocks that a slab first grows to.
pub const INITIAL_CAPACITY: usize = 512;

/// The number of bytes of a block that holds `block_size` bytes of data: the
/// header takes one more unit.
pub open spec fn bytes_with_header(block_size: int) -> int {
    COMPONENT_ALIGN + block_size
}

/// Given a raw block size, compute the size of the block with a header added.
pub fn block_size_with_header(block_size: usize) -> (r: usize)
    requires
        block_size <= usize::MAX - COMPONENT_ALIGN,
    ensures
        r == bytes_with_header(block_size as int),
{
    COMPONENT_ALIGN + block_size
}

/// Each number of the list is below the one before it.
pub open spec fn decreasing(s: Seq<usize>) -> bool {
    forall|i: int, j: int| 0 <= i < j < s.len() ==> #[trigger] s[i] > #[trigger] s[j]
}

/// Whether the list holds the number.
pub open spec fn lists(s: Seq<usize>, idx: int) -> bool {
    exists|i: int| 0 <= i < s.len() && #[trigger] s[i] == idx
}

/// Data related to a specific slab.
pub struct Slab<V> {
    // list of free blocks, in reverse-sorted order.
    block_tracker: Vec<usize>,
    blocks: Vec<BlockHandle<V>>,
    granularity: Granularity,
}

impl<V> Slab<V> {
    /// The granularity of the slab's blocks.
    pub closed spec fn spec_granularity(&self) -> Granularity {
        self.granularity
    }

    /// The number of blocks, free and in use.
    pub closed spec fn size(&self) -> nat {
        self.blocks@.len()
    }

    // whether the block with this index is free.
    spec fn is_free(&self, idx: int) -> bool {
        lists(self.block_tracker@, idx)
    }

    /// The blocks in use, by index.
    pub closed spec fn live(&self) -> Map<int, BlockHandle<V>> {
        Map::new(
            |idx: int| 0 <= idx < self.blocks@.len() && !self.is_free(idx),
            |idx: int| self.blocks@[idx],
        )
    }

    /// The tracker lists blocks of the slab in order, and each block in use is
    /// well formed and knows its place.
    pub closed spec fn wf(&self) -> bool {
        &&& decreasing(self.block_tracker@)
        &&& forall|i: int|
            0 <= i < self.block_tracker@.len() ==> #[trigger] self.block_tracker@[i]
                < self.blocks@.len()
        &&& forall|idx: int|
            0 <= idx < self.blocks@.len() ==> {
                &&& (#[trigger] self.blocks@[idx]).spec_index() == idx
                &&& self.blocks@[idx].spec_granularity() == self.granularity
                &&& !self.is_free(idx) ==> self.blocks@[idx].wf()
            }
    }

    /// The number of blocks that the slab has after it grows.
    pub open spec fn grown_size(&self) -> int {
        if self.size() == 0 {
            INITIAL_CAPACITY as int
        } else {
            2 * self.size() as int
        }
    }

    /// Whether some block is free.
    pub closed spec fn has_free(&self) -> bool {
        0 < self.block_tracker@.len()
    }

    /// Whether another block can be had: one is free, or the slab can grow.
    pub open spec fn has_room(&self) -> bool {
        self.has_free() || self.can_grow()
    }

    /// Whether the size of the slab can still be counted after it grows.
    pub open spec fn can_grow(&self) -> bool {
        self.grown_size() * bytes_with_header(self.spec_granularity().bytes()) <= usize::MAX
    }

    /// Whether the slab holds no memory: its lists are as `Vec::new` makes them, which does
    /// not allocate.
    pub closed spec fn unallocated(&self) -> bool {
        &&& call_ensures(Vec::<usize>::new, (), self.block_tracker)
        &&& call_ensures(Vec::<BlockHandle<V>>::new, (), self.blocks)
    }

    /// A slab without blocks.
    pub fn new(granularity: Granularity) -> (r: Slab<V>)
        ensures
            r.wf(),
            r.unallocated(),
            r.spec_granularity() == granularity,
            r.size() == 0,
            r.live() == Map::<int, BlockHandle<V>>::empty(),
    {
        let r = Slab {
            block_tracker: Vec::new(),
            blocks: Vec::new(),
            granularity,
        };
        assert(r.live() =~= Map::<int, BlockHandle<V>>::empty());
        r
    }

    /// Whether another block can be had: one is free, or the slab can grow.
    pub fn can_allocate(&self) -> (r: bool)
        ensures
            r == self.has_room(),
    {
        if self.block_tracker.len() > 0 {
            return true;
        }
        let size: usize = self.blocks.len();
        proof {
            let b = bytes_with_header(self.granularity.bytes());
            let grown = self.grown_size();
            assert(grown <= grown * b) by (nonlinear_arith)
                requires
                    1 <= b,
                    0 <= grown,
            ;
        }
        if size > usize::MAX / 2 {
            false
        } else if size == 0 {
            self.make_kind(INITIAL_CAPACITY).is_some()
        } else {
            self.make_kind(2 * size).is_some()
        }
    }

    /// Creates an allocation request suitable for the given number of blocks.
    /// `None` if the number is zero, or if the size cannot be counted.
    pub fn make_kind(&self, size: usize) -> (r: Option<Kind>)
        ensures
            match r {
                Some(k) => {
                    &&& k@.size == size * bytes_with_header(self.spec_granularity().bytes())
                    &&& k@.align == COMPONENT_ALIGN
                    &&& k@.valid()
                },
                None => size == 0 || size * bytes_with_header(self.spec_granularity().bytes())
                    > usize::MAX,
            },
    {
        let block_size: usize = block_size_with_header(self.granularity.size());
        proof {
            broadcast use vstd::layout::layout_of_primitives;
            broadcast use vstd::layout::align_of_u8;

            if size > 0 {
                assert(size * block_size > 0) by (nonlinear_arith)
                    requires
                        size > 0,
                        block_size > 0,
                ;
            } else {
                assert(size * block_size == 0) by (nonlinear_arith)
                    requires
                        size == 0,
                ;
            }
        }
        match size.checked_mul(block_size) {
            None => None,
            Some(bytes) => match Kind::array::<u8>(bytes) {
                None => None,
                Some(kind) => {
                    let k = kind.align_to(NonZero::new(COMPONENT_ALIGN));
                    proof {
                        lemma_sixteen(k@.align);
                        use_type_invariant(&k);
                    }
                    Some(k)
                },
            },
        }
    }

    // grows this slab.
    fn grow(&mut self)
        requires
            old(self).wf(),
            old(self).block_tracker@.len() == 0,
            old(self).can_grow(),
        ensures
            final(self).wf(),
            final(self).spec_granularity() == old(self).spec_granularity(),
            final(self).size() == old(self).grown_size(),
            final(self).live() == old(self).live(),
            final(self).block_tracker@.len() == final(self).size() - old(self).size(),
            forall|i: int|
                0 <= i < final(self).block_tracker@.len() ==> #[trigger] final(self).block_tracker@[i]
                    == final(self).size() - 1 - i,
    {
        let size: usize = self.blocks.len();
        proof {
            let b = bytes_with_header(self.granularity.bytes());
            assert(self.grown_size() <= self.grown_size() * b) by (nonlinear_arith)
                requires
                    1 <= b,
                    0 <= self.grown_size(),
            ;
        }
        let new_size: usize = if size == 0 {
            INITIAL_CAPACITY
        } else {
            size * 2
        };
        let mut idx: usize = size;
        while idx < new_size
            invariant
                size <= idx <= new_size,
                self.blocks@.len() == idx,
                self.granularity == old(self).granularity,
                self.block_tracker == old(self).block_tracker,
                forall|k: int|
                    0 <= k < size ==> #[trigger] self.blocks@[k] == old(self).blocks@[k],
                forall|k: int|
                    size <= k < idx ==> {
                        &&& (#[trigger] self.blocks@[k]).spec_index() == k
                        &&& self.blocks@[k].spec_granularity() == self.granularity
                    },
            decreases new_size - idx,
        {
            self.blocks.push(BlockHandle::from_raw(self.granularity, idx));
            idx = idx + 1;
        }
        let ghost blocks = self.blocks@;
        let mut next: usize = new_size;
        while next > size
            invariant
                size <= next <= new_size,
                self.blocks@ == blocks,
                self.granularity == old(self).granularity,
                self.block_tracker@.len() == new_size - next,
                forall|i: int|
                    0 <= i < self.block_tracker@.len() ==> #[trigger] self.block_tracker@[i]
                        == new_size - 1 - i,
            decreases next,
        {
            next = next - 1;
            self.block_tracker.push(next);
        }
        proof {
            assert forall|idx: int| size <= idx < new_size implies self.is_free(idx) by {
                assert(self.block_tracker@[new_size - 1 - idx] == idx);
            }
            assert forall|idx: int| 0 <= idx < size implies !self.is_free(idx) by {}
            assert forall|idx: int| 0 <= idx < size implies !old(self).is_free(idx) by {}
            assert(self.live() =~= old(self).live());
        }
    }

    /// Gets the index of the next free block and marks it used: the first free
    /// one, if there is one. Grows if necessary.
    pub fn next_block(&mut self) -> (idx: usize)
        requires
            old(self).wf(),
            old(self).has_room(),
        ensures
            final(self).wf(),
            final(self).spec_granularity() == old(self).spec_granularity(),
            old(self).size() <= final(self).size(),
            final(self).size() == if old(self).has_free() {
                old(self).size() as int
            } else {
                old(self).grown_size()
            },
            idx < final(self).size(),
            !old(self).live().contains_key(idx as int),
            forall|k: int| 0 <= k < idx ==> old(self).live().contains_key(k),
            ({
                let b = final(self).live()[idx as int];
                &&& final(self).live() == old(self).live().insert(idx as int, b)
                &&& b.contents() == Map::<int, V>::empty()
                &&& b.free_slots() == seq![
                    super::slots::Slot { off: 0, size: old(self).spec_granularity().bytes() },
                ]
            }),
    {
        if self.block_tracker.len() == 0 {
            self.grow();
        }
        let ghost before = *self;
        let ghost last = self.block_tracker@.len() - 1;
        let idx: usize = self.block_tracker.pop().unwrap();
        assert(before.block_tracker@[last] == idx);
        self.blocks[idx].clear();
        proof {
            assert(before.is_free(idx as int));
            assert forall|k: int| #[trigger] self.is_free(k) == (before.is_free(k) && k != idx) by {
                if before.is_free(k) && k != idx {
                    let i = choose|i: int|
                        0 <= i < before.block_tracker@.len() && #[trigger] before.block_tracker@[i] == k;
                    assert(self.block_tracker@[i] == k);
                }
                if self.is_free(k) {
                    let i = choose|i: int|
                        0 <= i < self.block_tracker@.len() && #[trigger] self.block_tracker@[i] == k;
                    assert(before.block_tracker@[i] == k);
                    assert(before.block_tracker@[i] > before.block_tracker@[last]);
                }
            }
            assert forall|k: int| 0 <= k < idx implies !before.is_free(k) by {
                if before.is_free(k) {
                    let i = choose|i: int|
                        0 <= i < before.block_tracker@.len() && #[trigger] before.block_tracker@[i] == k;
                    if i < last {
                        assert(before.block_tracker@[i] > before.block_tracker@[last]);
                    }
                }
            }
            assert(old(self).live() == before.live());
            let b = self.live()[idx as int];
            assert(self.live() =~= before.live().insert(idx as int, b));
            assert forall|k: int| 0 <= k < idx implies old(self).live().contains_key(k) by {
                assert(before.live().contains_key(k));
            }
        }
        idx
    }

    /// Mark a block to be free. A block that is free already stays so.
    pub fn mark_free(&mut self, idx: usize)
        requires
            old(self).wf(),
            idx < old(self).size(),
        ensures
            final(self).wf(),
            final(self).spec_granularity() == old(self).spec_granularity(),
            final(self).size() == old(self).size(),
            final(self).live() == old(self).live().remove(idx as int),
            final(self).has_free(),
    {
        match self.search_tracker_for(idx) {
            Ok(at) => {
                // it isn't supposed to be in the freelist, but there it is.
                assert(self.is_free(idx as int));
                assert(self.live() =~= old(self).live().remove(idx as int));
            },
            Err(insertion_point) => {
                self.block_tracker.insert(insertion_point, idx);
                proof {
                    let p = insertion_point as int;
                    let before = old(self).block_tracker@;
                    let after = self.block_tracker@;
                    assert(after[p] == idx);
                    assert forall|i: int, j: int| 0 <= i < j < after.len() implies #[trigger] after[i]
                        > #[trigger] after[j] by {
                        let a = if i > p { i - 1 } else { i };
                        let b = if j > p { j - 1 } else { j };
                        if i != p {
                            assert(after[i] == before[a]);
                        }
                        if j != p {
                            assert(after[j] == before[b]);
                        }
                    }
                    assert forall|k: int| #[trigger]
                        self.is_free(k) == (old(self).is_free(k) || k == idx) by {
                        if old(self).is_free(k) {
                            let i = choose|i: int| 0 <= i < before.len() && #[trigger] before[i] == k;
                            let a = if i >= p { i + 1 } else { i };
                            assert(after[a] == k);
                        }
                        if self.is_free(k) {
                            let i = choose|i: int| 0 <= i < after.len() && #[trigger] after[i] == k;
                            if i != p {
                                let a = if i > p { i - 1 } else { i };
                                assert(before[a] == k);
                            }
                        }
                    }
                    assert(self.live() =~= old(self).live().remove(idx as int));
                }
            },
        }
    }

    /// The block at the given index, making no guarantees over whether it is
    /// dead or alive.
    pub fn get_block(&self, idx: usize) -> (r: &BlockHandle<V>)
        requires
            self.wf(),
            idx < self.size(),
        ensures
            r.spec_index() == idx,
            r.spec_granularity() == self.spec_granularity(),
            self.live().contains_key(idx as int) ==> *r == self.live()[idx as int] && r.wf(),
    {
        &self.blocks[idx]
    }

    /// Access to a block in use. What is left behind must be well formed and in
    /// the same place.
    pub fn get_block_mut(&mut self, idx: usize) -> (r: &mut BlockHandle<V>)
        requires
            old(self).wf(),
            old(self).live().contains_key(idx as int),
        ensures
            *r == old(self).live()[idx as int],
            r.wf(),
            r.spec_index() == idx,
            r.spec_granularity() == old(self).spec_granularity(),
            final(r).wf() && final(r).place() == r.place() ==> final(self).wf(),
            final(self).spec_granularity() == old(self).spec_granularity(),
            final(self).size() == old(self).size(),
            final(self).live() == old(self).live().insert(idx as int, *final(r)),
            final(self).has_free() == old(self).has_free(),
    {
        &mut self.blocks[idx]
    }

    /// Whether the block at index `idx` is alive.
    pub fn is_alive(&self, idx: usize) -> (r: bool)
        requires
            self.wf(),
        ensures
            r == self.live().contains_key(idx as int),
    {
        if idx >= self.blocks.len() {
            return false;
        }
        match self.search_tracker_for(idx) {
            Ok(at) => {
                assert(self.is_free(idx as int));
                false
            },
            Err(_) => true,
        }
    }

    /// A block in use has an index below the size, is well formed, and knows
    /// its place.
    pub proof fn lemma_live(&self, idx: int)
        requires
            self.wf(),
            self.live().contains_key(idx),
        ensures
            0 <= idx < self.size(),
            self.live()[idx].wf(),
            self.live()[idx].spec_index() == idx,
            self.live()[idx].spec_granularity() == self.spec_granularity(),
    {
    }

    // finds an index in the tracker, or the place where it would be.
    fn search_tracker_for(&self, idx: usize) -> (r: Result<usize, usize>)
        requires
            self.wf(),
        ensures
            match r {
                Ok(at) => at < self.block_tracker@.len() && self.block_tracker@[at as int] == idx,
                Err(at) => {
                    &&& at <= self.block_tracker@.len()
                    &&& !self.is_free(idx as int)
                    &&& forall|i: int| 0 <= i < at ==> #[trigger] self.block_tracker@[i] > idx
                    &&& forall|i: int|
                        at <= i < self.block_tracker@.len() ==> #[trigger] self.block_tracker@[i] < idx
                },
            },
    {
        let mut lo: usize = 0;
        let mut hi: usize = self.block_tracker.len();
        while lo < hi
            invariant
                self.wf(),
                lo <= hi <= self.block_tracker@.len(),
                forall|i: int| 0 <= i < lo ==> #[trigger] self.block_tracker@[i] > idx,
                forall|i: int|
                    hi <= i < self.block_tracker@.len() ==> #[trigger] self.block_tracker@[i] < idx,
            decreases hi - lo,
        {
            let mid: usize = lo + (hi - lo) / 2;
            let probe: usize = self.block_tracker[mid];
            if probe == idx {
                return Ok(mid);
            } else if probe > idx {
                lo = mid + 1;
            } else {
                hi = mid;
            }
        }
        Err(lo)
    }
}

// the least power of two that is not below sixteen.
proof fn lemma_sixteen(p: int)
    requires
        crate::memory::arith::is_next_pow2(p, 16),
    ensures
        p == 16,
{
    assert(vstd::arithmetic::power2::is_pow2(16)) by {
        reveal_with_fuel(vstd::arithmetic::power2::is_pow2, 6);
    }
    assert(p <= crate::memory::arith::same(16));
}

/// The blocks of a slab are used in order: the first one that is free. If none is, the slab grows
/// first: to 512 blocks, or to twice as many as it has.
pub proof fn law_blocks_are_used_in_order<V>(idx: usize)
    ensures
        forall|s: &mut Slab<V>|
            s.wf() && #[trigger] call_ensures(Slab::<V>::next_block, (s,), idx) ==> {
                let full = forall|k: int| 0 <= k < s.size() ==> #[trigger] s.live().contains_key(k);
                &&& !s.live().contains_key(idx as int)
                &&& forall|k: int| 0 <= k < idx ==> #[trigger] s.live().contains_key(k)
                &&& final(s).live().contains_key(idx as int)
                &&& forall|k: int|
                    k != idx ==> #[trigger] final(s).live().contains_key(k)
                        == s.live().contains_key(k)
                &&& !full ==> final(s).size() == s.size()
                &&& full && s.size() == 0 ==> final(s).size() == 512
                &&& full && s.size() > 0 ==> final(s).size() == s.size() + s.size()
            },
{
    assert forall|s: &mut Slab<V>|
        s.wf() && #[trigger] call_ensures(Slab::<V>::next_block, (s,), idx) implies {
        let full = forall|k: int| 0 <= k < s.size() ==> #[trigger] s.live().contains_key(k);
        &&& !full ==> final(s).size() == s.size()
        &&& full && s.size() == 0 ==> final(s).size() == 512
        &&& full && s.size() > 0 ==> final(s).size() == s.size() + s.size()
    } by {
        s.lemma_has_free();
    }
}

/// Another block can be had if one is free, or if the slab, once it has grown, has no more bytes
/// than can be counted: each block has 16 bytes for the header besides its data.
pub proof fn law_blocks_can_be_had_while_bytes_can_be_counted<V>(s: &Slab<V>, r: bool)
    requires
        s.wf(),
        call_ensures(Slab::<V>::can_allocate, (s,), r),
    ensures
        (exists|k: int| 0 <= k < s.size() && !(#[trigger] s.live().contains_key(k))) ==> r,
        (forall|k: int| 0 <= k < s.size() ==> #[trigger] s.live().contains_key(k)) ==> {
            &&& s.size() == 0 ==> r == (512 * (16 + s.spec_granularity().bytes()) <= usize::MAX)
            &&& s.size() > 0 ==> r == ((2 * s.size()) * (16 + s.spec_granularity().bytes())
                <= usize::MAX)
        },
{
    s.lemma_has_free();
}

/// A slab asks for the bytes of all its blocks, each with its header, in units of 16 bytes.
pub proof fn law_kinds_count_the_headers<V>(
    s: &Slab<V>,
    size: usize,
    r: Option<Kind>,
    one: usize,
)
    requires
        call_ensures(Slab::<V>::make_kind, (s, size), r),
        call_ensures(block_size_with_header, (s.spec_granularity().bytes() as usize,), one),
    ensures
        one == 16 + s.spec_granularity().bytes(),
        r is Some <==> 0 < size * one <= usize::MAX,
        r matches Some(k) ==> k@.size == size * one && k@.align == 16,
{
    assert(size * one > 0 <==> size > 0) by (nonlinear_arith)
        requires
            0 <= size,
            0 < one,
    ;
}

impl<V> Slab<V> {
    // the blocks can be counted.
    pub proof fn lemma_size(&self)
        ensures
            self.size() <= usize::MAX,
    {
        assert(self.blocks.len() == self.blocks@.len());
    }

    // some block is free if not all are in use.
    pub proof fn lemma_has_free(&self)
        requires
            self.wf(),
        ensures
            self.has_free() <==> exists|k: int|
                0 <= k < self.size() && !(#[trigger] self.live().contains_key(k)),
    {
        if self.has_free() {
            let k = self.block_tracker@[0] as int;
            assert(self.is_free(k));
            assert(!self.live().contains_key(k));
        }
    }
}

} // verus!
