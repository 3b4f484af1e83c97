//! The data blob: all the component data of a world.

use vstd::prelude::*;
use super::block::{BlockHandle, Granularity, Offset};
use super::slab::Slab;
use super::slots::Slot;

verus! {

/// The data blob is where all the component data is stored.
/// It is logically separated into "slabs" of the granularities.
pub struct Blob<V> {
    small: Slab<V>,
    medium: Slab<V>,
    large: Slab<V>,
}

impl<V> Blob<V> {
    /// The slab of the given granularity.
    pub closed spec fn slab(&self, granularity: Granularity) -> Slab<V> {
        match granularity {
            Granularity::Small => self.small,
            Granularity::Medium => self.medium,
            Granularity::Large => self.large,
        }
    }

    /// The blocks in use, by their places.
    pub open spec fn live(&self) -> Map<Offset, BlockHandle<V>> {
        Map::new(
            |o: Offset| self.slab(o.granularity).live().contains_key(o.inner_off as int),
            |o: Offset| self.slab(o.granularity).live()[o.inner_off as int],
        )
    }

    /// Each slab is well formed and has the granularity that it is kept for.
    pub open spec fn wf(&self) -> bool {
        forall|g: Granularity|
            (#[trigger] self.slab(g)).wf() && self.slab(g).spec_granularity() == g
    }

    /// Whether a block of the given granularity can be had.
    pub open spec fn has_room(&self, granularity: Granularity) -> bool {
        self.slab(granularity).has_room()
    }

    /// Create a new blob. This does not allocate.
    pub fn new() -> (r: Blob<V>)
        ensures
            r.wf(),
            r.live() == Map::<Offset, BlockHandle<V>>::empty(),
            forall|g: Granularity|
                (#[trigger] r.slab(g)).size() == 0 && r.slab(g).unallocated(),
    {
        let r = Blob {
            small: Slab::new(Granularity::Small),
            medium: Slab::new(Granularity::Medium),
            large: Slab::new(Granularity::Large),
        };
        assert(r.live() =~= Map::<Offset, BlockHandle<V>>::empty());
        r
    }

    /// Whether a block of the given granularity can be had.
    pub fn can_allocate(&self, granularity: Granularity) -> (r: bool)
        ensures
            r == self.has_room(granularity),
    {
        match granularity {
            Granularity::Small => self.small.can_allocate(),
            Granularity::Medium => self.medium.can_allocate(),
            Granularity::Large => self.large.can_allocate(),
        }
    }

    /// Returns the first free block in the given granularity's slab, cleared.
    /// Grows the slab if necessary.
    pub fn next_block(&mut self, granularity: Granularity) -> (r: Offset)
        requires
            old(self).wf(),
            old(self).has_room(granularity),
        ensures
            final(self).wf(),
            r.granularity == granularity,
            !old(self).live().contains_key(r),
            forall|o: Offset|
                o.granularity == granularity && o.inner_off < r.inner_off
                    ==> #[trigger] old(self).live().contains_key(o),
            forall|g: Granularity|
                g != granularity ==> #[trigger] final(self).slab(g) == old(self).slab(g),
            ({
                let b = final(self).live()[r];
                &&& final(self).live() == old(self).live().insert(r, b)
                &&& b.wf()
                &&& b.place() == r
                &&& b.contents() == Map::<int, V>::empty()
                &&& b.free_slots() == seq![Slot { off: 0, size: granularity.bytes() }]
            }),
    {
        proof {
            self.lemma_slabs();
        }
        let idx: usize = match granularity {
            Granularity::Small => self.small.next_block(),
            Granularity::Medium => self.medium.next_block(),
            Granularity::Large => self.large.next_block(),
        };
        let r = Offset::new(granularity, idx);
        proof {
            self.lemma_slabs();
            let b = self.live()[r];
            self.slab(granularity).lemma_live(idx as int);
            assert(self.live() =~= old(self).live().insert(r, b));
        }
        r
    }

    /// The block at the given place.
    pub fn get_block(&self, offset: Offset) -> (r: &BlockHandle<V>)
        requires
            self.wf(),
            self.live().contains_key(offset),
        ensures
            *r == self.live()[offset],
            r.wf(),
            r.place() == offset,
    {
        let (gran, idx) = offset.into_parts();
        proof {
            self.lemma_slabs();
            self.slab(gran).lemma_live(idx as int);
        }
        match gran {
            Granularity::Small => self.small.get_block(idx),
            Granularity::Medium => self.medium.get_block(idx),
            Granularity::Large => self.large.get_block(idx),
        }
    }

    /// Access to the block at the given place. What is left behind must be well
    /// formed and in the same place.
    pub fn get_block_mut(&mut self, offset: Offset) -> (r: &mut BlockHandle<V>)
        requires
            old(self).wf(),
            old(self).live().contains_key(offset),
        ensures
            *r == old(self).live()[offset],
            r.wf(),
            r.place() == offset,
            final(r).wf() && final(r).place() == offset ==> final(self).wf(),
            final(self).live() == old(self).live().insert(offset, *final(r)),
            forall|g: Granularity| #[trigger] final(self).has_room(g) == old(self).has_room(g),
    {
        let (gran, idx) = offset.into_parts();
        proof {
            self.lemma_slabs();
        }
        match gran {
            Granularity::Small => self.small.get_block_mut(idx),
            Granularity::Medium => self.medium.get_block_mut(idx),
            Granularity::Large => self.large.get_block_mut(idx),
        }
    }

    /// Free a block. It must not be used again until it is next allocated.
    pub fn free_block(&mut self, offset: Offset)
        requires
            old(self).wf(),
            old(self).live().contains_key(offset),
        ensures
            final(self).wf(),
            final(self).live() == old(self).live().remove(offset),
            forall|g: Granularity|
                old(self).has_room(g) ==> #[trigger] final(self).has_room(g),
            final(self).has_room(offset.granularity),
    {
        let (gran, idx) = offset.into_parts();
        proof {
            self.lemma_slabs();
            self.slab(gran).lemma_live(idx as int);
        }
        match gran {
            Granularity::Small => self.small.mark_free(idx),
            Granularity::Medium => self.medium.mark_free(idx),
            Granularity::Large => self.large.mark_free(idx),
        }
        proof {
            self.lemma_slabs();
            assert(self.live() =~= old(self).live().remove(offset));
        }
    }

    /// Promote a block to a higher granularity, growing if necessary.
    /// Returns the place of the new block, which holds what the old one held.
    pub fn promote_block(&mut self, offset: Offset, new_gran: Granularity) -> (r: Offset)
        requires
            old(self).wf(),
            old(self).live().contains_key(offset),
            offset.granularity.bytes() < new_gran.bytes(),
            old(self).has_room(new_gran),
        ensures
            final(self).wf(),
            r.granularity == new_gran,
            !old(self).live().contains_key(r),
            forall|g: Granularity|
                g != new_gran && old(self).has_room(g) ==> #[trigger] final(self).has_room(g),
            ({
                let before = old(self).live()[offset];
                let after = final(self).live()[r];
                &&& final(self).live() == old(self).live().remove(offset).insert(r, after)
                &&& after.wf()
                &&& after.place() == r
                &&& after.owner() == before.owner()
                &&& after.contents() == before.contents()
                &&& after.free_slots() == before.free_slots().push(
                    Slot {
                        off: offset.granularity.bytes(),
                        size: new_gran.bytes() - offset.granularity.bytes(),
                    },
                )
            }),
    {
        let r = self.next_block(new_gran);
        let ghost mid = *self;
        let mut moved: BlockHandle<V> = BlockHandle::from_raw(new_gran, r.inner_off);
        {
            let block = self.get_block_mut(offset);
            moved.promote_from(block);
            block.clear();
        }
        {
            let block = self.get_block_mut(r);
            *block = moved;
        }
        self.free_block(offset);
        assert(self.live() =~= old(self).live().remove(offset).insert(r, moved));
        assert forall|g: Granularity| g != new_gran && old(self).has_room(g) implies #[trigger] self.has_room(g) by {
            assert(mid.slab(g) == old(self).slab(g));
        }
        r
    }

    /// Blocks in use are well formed and know their places.
    pub proof fn lemma_block(&self, offset: Offset)
        requires
            self.wf(),
            self.live().contains_key(offset),
        ensures
            self.live()[offset].wf(),
            self.live()[offset].place() == offset,
    {
        self.slab(offset.granularity).lemma_live(offset.inner_off as int);
    }

    // the slabs are well formed one by one.
    proof fn lemma_slabs(&self)
        requires
            self.slab(Granularity::Small).wf(),
            self.slab(Granularity::Medium).wf(),
            self.slab(Granularity::Large).wf(),
            self.slab(Granularity::Small).spec_granularity() == Granularity::Small,
            self.slab(Granularity::Medium).spec_granularity() == Granularity::Medium,
            self.slab(Granularity::Large).spec_granularity() == Granularity::Large,
        ensures
            self.wf(),
            self.slab(Granularity::Small) == self.small,
            self.slab(Granularity::Medium) == self.medium,
            self.slab(Granularity::Large) == self.large,
    {
    }
}

/// A block of a granularity can be had if one of its slab is free, or if the slab, once it has grown
/// to 512 blocks or to twice as many, has no more bytes than can be counted: each block has 16 bytes
/// for the header besides its data. It does not depend on the other slabs.
pub proof fn law_blocks_can_be_had_while_bytes_can_be_counted<V>(
    b: &Blob<V>,
    granularity: Granularity,
    r: bool,
)
    requires
        b.wf(),
        call_ensures(Blob::<V>::can_allocate, (b, granularity), r),
    ensures
        ({
            let size = b.slab(granularity).size();
            let full = forall|k: usize|
                k < size ==> #[trigger] b.live().contains_key(Offset { granularity, inner_off: k });
            &&& !full ==> r
            &&& full && size == 0 ==> r == (512 * (16 + granularity.bytes()) <= usize::MAX)
            &&& full && 0 < size ==> r == ((2 * size) * (16 + granularity.bytes()) <= usize::MAX)
        }),
{
    let s = b.slab(granularity);
    s.lemma_has_free();
    s.lemma_size();
    if forall|k: usize|
        k < s.size() ==> #[trigger] b.live().contains_key(Offset { granularity, inner_off: k }) {
        assert forall|k: int| 0 <= k < s.size() implies #[trigger] s.live().contains_key(k) by {
            assert(b.live().contains_key(Offset { granularity, inner_off: k as usize }));
        }
    }
}

/// Blocks of each granularity are numbered from the first, and the first that is free is used.
pub proof fn law_the_first_free_block_is_used<V>(granularity: Granularity, r: Offset)
    ensures
        forall|b: &mut Blob<V>|
            b.wf() && #[trigger] call_ensures(Blob::<V>::next_block, (b, granularity), r) ==> {
                &&& r.granularity == granularity
                &&& !b.live().contains_key(r)
                &&& forall|k: usize|
                    k < r.inner_off ==> #[trigger] b.live().contains_key(
                        Offset { granularity, inner_off: k },
                    )
                &&& final(b).live().dom() == b.live().dom().insert(r)
                &&& forall|o: Offset|
                    b.live().contains_key(o) ==> #[trigger] final(b).live()[o] == b.live()[o]
            },
{
    assert forall|b: &mut Blob<V>|
        b.wf() && #[trigger] call_ensures(Blob::<V>::next_block, (b, granularity), r) implies final(
        b).live().dom() == b.live().dom().insert(r) by {
        assert(final(b).live().dom() =~= b.live().dom().insert(r));
    }
}

} // verus!
