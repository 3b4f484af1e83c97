//! Data blocks: where the component data of one entity lives.
//!
//! A block is a run of cells, each as large as the component alignment. The
//! parts of a block that hold no data are slots of a free list, which is linked
//! through the cells themselves and ordered by offset.

use std::cmp::Ordering;
use vstd::prelude::*;
use vstd::std_specs::cmp::PartialOrdSpecImpl;
use super::{COMPONENT_ALIGN, LARGE_SIZE, MEDIUM_SIZE, SMALL_SIZE};
use super::entity::Entity;
use super::slots;
use super::slots::Slot;
use crate::memory::arith;

verus! {

/// The end of a free list.
pub const NO_OFFSET: u32 = 0xffff_ffff;

/// What granularity an entity's data is.
#[derive(Clone, Copy, Debug, PartialEq, Eq, PartialOrd, Ord, Structural)]
pub enum Granularity {
    Small,
    Medium,
    Large,
}

impl Granularity {
    /// The number of bytes in a block of this granularity.
    pub open spec fn bytes(self) -> int {
        match self {
            Granularity::Small => SMALL_SIZE as int,
            Granularity::Medium => MEDIUM_SIZE as int,
            Granularity::Large => LARGE_SIZE as int,
        }
    }

    /// The number of bytes in a block of this granularity.
    pub fn size(&self) -> (r: usize)
        ensures
            r == self.bytes(),
    {
        match *self {
            Granularity::Small => SMALL_SIZE,
            Granularity::Medium => MEDIUM_SIZE,
            Granularity::Large => LARGE_SIZE,
        }
    }
}

/// The unique granularity-index pair that describes a block. Offsets are ordered by the
/// granularity, and those of one granularity by the index.
#[derive(Clone, Copy, Debug, PartialEq, Eq, Ord, Structural)]
pub struct Offset {
    pub granularity: Granularity,
    pub inner_off: usize,
}

impl Offset {
    /// The block with the given index among those of the given granularity.
    pub fn new(granularity: Granularity, offset: usize) -> (r: Offset)
        ensures
            r == (Offset { granularity, inner_off: offset }),
    {
        Offset { granularity, inner_off: offset }
    }

    /// The granularity and the index.
    pub fn into_parts(self) -> (r: (Granularity, usize))
        ensures
            r == (self.granularity, self.inner_off),
    {
        (self.granularity, self.inner_off)
    }
}

impl PartialOrdSpecImpl for Offset {
    open spec fn obeys_partial_cmp_spec() -> bool {
        true
    }

    open spec fn partial_cmp_spec(&self, other: &Offset) -> Option<Ordering> {
        let a = self.granularity.bytes();
        let b = other.granularity.bytes();
        if a < b || a == b && self.inner_off < other.inner_off {
            Some(Ordering::Less)
        } else if a == b && self.inner_off == other.inner_off {
            Some(Ordering::Equal)
        } else {
            Some(Ordering::Greater)
        }
    }
}

impl PartialOrd for Offset {
    fn partial_cmp(&self, other: &Offset) -> (r: Option<Ordering>) {
        let a: usize = self.granularity.size();
        let b: usize = other.granularity.size();
        if a < b || a == b && self.inner_off < other.inner_off {
            Some(Ordering::Less)
        } else if a == b && self.inner_off == other.inner_off {
            Some(Ordering::Equal)
        } else {
            Some(Ordering::Greater)
        }
    }
}

/// Why a block has no slot for a component.
#[derive(Clone, Copy, Debug, PartialEq, Eq, Structural)]
pub enum SlotError {
    /// There is not enough room even with a promotion to allocate this component.
    TooBig,
    /// Needs a promotion to the contained granularity.
    NeedsPromote(Granularity),
}

/// The granularity to promote a block to whose `need` bytes did not fit.
pub open spec fn promotion_for(granularity: Granularity, need: int) -> SlotError {
    let needed = granularity.bytes() + need;
    if needed > LARGE_SIZE {
        SlotError::TooBig
    } else if needed > MEDIUM_SIZE {
        SlotError::NeedsPromote(Granularity::Large)
    } else {
        SlotError::NeedsPromote(Granularity::Medium)
    }
}

// the head of a free slot, stored in the slot's first cell.
#[derive(Clone, Copy)]
pub struct EmptySlot {
    size: u32,
    next_free: u32,
}

// a unit of a block's data.
pub enum Cell<V> {
    // the start of a free slot.
    Empty(EmptySlot),
    // the start of a component.
    Data(V),
    // inside a free slot or a component.
    Raw,
}

// the offset that leads to slot `i`.
pub open spec fn link_to(s: Seq<Slot>, i: int) -> int {
    if i < s.len() {
        s[i].off
    } else {
        NO_OFFSET as int
    }
}

/// A block of component data, with its header.
pub struct BlockHandle<V> {
    entity: Option<Entity>,
    freelist_begin: u32,
    cells: Vec<Cell<V>>,
    granularity: Granularity,
    index: usize,
    free: Ghost<Seq<Slot>>,
}

/// Rounds `n` up to a multiple of `m`.
pub fn round_up_to(n: usize, m: usize) -> (r: usize)
    requires
        0 < m,
        n + m - 1 <= usize::MAX,
    ensures
        r == arith::round_up(n as int, m as int),
{
    proof {
        arith::lemma_round_up(n as int, m as int);
    }
    (n + (m - 1)) / m * m
}

impl<V> BlockHandle<V> {
    /// The free slots, by offset.
    pub closed spec fn free_slots(&self) -> Seq<Slot> {
        self.free@
    }

    /// The values stored in the block, by offset.
    pub closed spec fn contents(&self) -> Map<int, V> {
        Map::new(
            |off: int| off % 16 == 0 && 0 <= off < 16 * self.cells@.len() && self.cells@[off / 16] is Data,
            |off: int| self.cells@[off / 16]->Data_0,
        )
    }

    /// The granularity of the block.
    pub closed spec fn spec_granularity(&self) -> Granularity {
        self.granularity
    }

    /// The index of the block in its slab.
    pub closed spec fn spec_index(&self) -> usize {
        self.index
    }

    /// The entity that the header names.
    pub closed spec fn owner(&self) -> Option<Entity> {
        self.entity
    }

    /// The block's place.
    pub open spec fn place(&self) -> Offset {
        Offset { granularity: self.spec_granularity(), inner_off: self.spec_index() }
    }

    // the cell at byte `off` starts slot `i` of `s`.
    spec fn linked(cells: Seq<Cell<V>>, s: Seq<Slot>, i: int) -> bool {
        &&& cells[s[i].off / 16] is Empty
        &&& cells[s[i].off / 16]->Empty_0.size == s[i].size
        &&& cells[s[i].off / 16]->Empty_0.next_free == link_to(s, i + 1)
    }

    // the free list `s` is linked through the cells.
    spec fn holds_list(cells: Seq<Cell<V>>, s: Seq<Slot>) -> bool {
        forall|i: int| 0 <= i < s.len() ==> Self::linked(cells, s, i)
    }

    // no slot of `s` covers data.
    spec fn data_outside(cells: Seq<Cell<V>>, s: Seq<Slot>) -> bool {
        forall|k: int|
            0 <= k < cells.len() && (#[trigger] cells[k]) is Data ==> !slots::in_slots(s, 16 * k)
    }

    // the same cells hold data, and the same data.
    spec fn same_data(before: Seq<Cell<V>>, after: Seq<Cell<V>>) -> bool {
        forall|k: int|
            0 <= k < before.len() ==> ((#[trigger] after[k]) is Data <==> before[k] is Data) && (
            before[k] is Data ==> after[k] == before[k])
    }

    /// The free list and the cells agree.
    pub closed spec fn wf(&self) -> bool {
        &&& 16 * self.cells@.len() == self.granularity.bytes()
        &&& slots::slots_fit(self.free@, self.granularity.bytes())
        &&& self.freelist_begin == link_to(self.free@, 0)
        &&& Self::holds_list(self.cells@, self.free@)
        &&& Self::data_outside(self.cells@, self.free@)
    }

    // a handle to a block that was never cleared.
    pub(crate) fn from_raw(granularity: Granularity, index: usize) -> (r: BlockHandle<V>)
        ensures
            r.spec_granularity() == granularity,
            r.spec_index() == index,
            r.owner() == None::<Entity>,
    {
        BlockHandle {
            entity: None,
            freelist_begin: NO_OFFSET,
            cells: Vec::new(),
            granularity,
            index,
            free: Ghost(Seq::empty()),
        }
    }

    /// Mark the block as entirely empty.
    /// This does not erase the entity stored in the header.
    pub fn clear(&mut self)
        ensures
            final(self).wf(),
            final(self).place() == old(self).place(),
            final(self).owner() == old(self).owner(),
            final(self).contents() == Map::<int, V>::empty(),
            final(self).free_slots() == seq![
                Slot { off: 0, size: old(self).spec_granularity().bytes() },
            ],
    {
        let size: usize = self.granularity.size();
        let count: usize = size / COMPONENT_ALIGN;
        let mut cells: Vec<Cell<V>> = Vec::new();
        cells.push(Cell::Empty(EmptySlot { size: size as u32, next_free: NO_OFFSET }));
        while cells.len() < count
            invariant
                1 <= cells@.len() <= count,
                cells@[0] == Cell::<V>::Empty(EmptySlot { size: size as u32, next_free: NO_OFFSET }),
                forall|k: int| 1 <= k < cells@.len() ==> (#[trigger] cells@[k]) is Raw,
            decreases count - cells@.len(),
        {
            cells.push(Cell::Raw);
        }
        self.cells = cells;
        self.freelist_begin = 0;
        let ghost whole = seq![Slot { off: 0, size: size as int }];
        self.free = Ghost(whole);
        assert(self.contents() =~= Map::<int, V>::empty());
    }

    // reads the head of the free slot at `off`.
    fn slot_at(&self, off: u32) -> (r: EmptySlot)
        requires
            off % 16 == 0,
            off / 16 < self.cells@.len(),
            self.cells@[off as int / 16] is Empty,
        ensures
            r == self.cells@[off as int / 16]->Empty_0,
    {
        match &self.cells[(off / 16) as usize] {
            Cell::Empty(slot) => *slot,
            _ => {
                assert(false);
                EmptySlot { size: 0, next_free: NO_OFFSET }
            },
        }
    }

    // makes the slot at `prev`, or the header, lead to `target`.
    fn link(&mut self, prev: Option<u32>, target: u32)
        requires
            prev matches Some(p) ==> {
                &&& p % 16 == 0
                &&& p / 16 < old(self).cells@.len()
                &&& old(self).cells@[p as int / 16] is Empty
            },
        ensures
            final(self).entity == old(self).entity,
            final(self).granularity == old(self).granularity,
            final(self).index == old(self).index,
            final(self).free == old(self).free,
            match prev {
                None => final(self).freelist_begin == target && final(self).cells == old(self).cells,
                Some(p) => {
                    &&& final(self).freelist_begin == old(self).freelist_begin
                    &&& final(self).cells@ == old(self).cells@.update(
                        p as int / 16,
                        Cell::Empty(
                            EmptySlot {
                                size: old(self).cells@[p as int / 16]->Empty_0.size,
                                next_free: target,
                            },
                        ),
                    )
                },
            },
    {
        match prev {
            None => {
                self.freelist_begin = target;
            },
            Some(p) => {
                let slot = self.slot_at(p);
                self.cells.set(
                    (p / 16) as usize,
                    Cell::Empty(EmptySlot { size: slot.size, next_free: target }),
                );
            },
        }
    }

    /// Find the first free slot with the given size, rounding up to the next multiple
    /// of the component alignment to reduce fragmentation.
    ///
    /// On failure, tells whether the block can be promoted and by how much.
    pub fn next_free(&mut self, size: usize) -> (r: Result<usize, SlotError>)
        requires
            old(self).wf(),
            size + 15 <= u32::MAX,
        ensures
            final(self).wf(),
            final(self).place() == old(self).place(),
            final(self).owner() == old(self).owner(),
            final(self).contents() == old(self).contents(),
            ({
                let need = arith::round_up(size as int, 16);
                let s = old(self).free_slots();
                let i = slots::first_fit(s, need, 0);
                match r {
                    Ok(off) => {
                        &&& i < s.len()
                        &&& off == s[i].off
                        &&& final(self).free_slots() == slots::take_from_slot(s, i, need)
                    },
                    Err(e) => {
                        &&& i == s.len()
                        &&& *final(self) == *old(self)
                        &&& e == promotion_for(old(self).spec_granularity(), need)
                    },
                }
            }),
    {
        let need: u32 = round_up_to(size, COMPONENT_ALIGN) as u32;
        proof {
            arith::lemma_round_up(size as int, 16);
        }
        let ghost s = self.free@;
        let ghost mut i: int = 0;
        let mut prev: Option<u32> = None;
        let mut next_off: u32 = self.freelist_begin;
        while next_off != NO_OFFSET
            invariant
                *self == *old(self),
                self.wf(),
                s == self.free@,
                need == arith::round_up(size as int, 16),
                need % 16 == 0,
                0 <= i <= s.len(),
                next_off == link_to(s, i),
                slots::first_fit(s, need as int, 0) == slots::first_fit(s, need as int, i),
                i == 0 ==> prev is None,
                i > 0 ==> prev == Some(s[i - 1].off as u32),
            decreases s.len() - i,
        {
            assert(i < s.len());
            assert(Self::linked(self.cells@, s, i));
            let this_off: u32 = next_off;
            let slot = self.slot_at(this_off);
            if slot.size == need || slot.size > need {
                assert(i > 0 ==> Self::linked(self.cells@, s, i - 1));
                let ghost before = self.cells@;
                let ghost k = s[i].off / 16;
                self.cells.set((this_off / 16) as usize, Cell::Raw);
                if slot.size == need {
                    // found an exact fit.
                    self.link(prev, slot.next_free);
                } else {
                    // found a slot we can split.
                    let split_off: u32 = this_off + need;
                    self.cells.set(
                        (split_off / 16) as usize,
                        Cell::Empty(
                            EmptySlot { size: slot.size - need, next_free: slot.next_free },
                        ),
                    );
                    self.link(prev, split_off);
                }
                proof {
                    let bytes = self.granularity.bytes();
                    self.free = Ghost(slots::take_from_slot(s, i, need as int));
                    assert(Self::takes_from_slot(before, self.cells@, s, i, need as int));
                    slots::lemma_take_fits(s, i, need as int, bytes);
                    Self::lemma_take_links(before, self.cells@, s, i, need as int, bytes);
                    Self::lemma_take_data(before, self.cells@, s, i, need as int, bytes);
                    assert(self.contents() =~= old(self).contents());
                }
                return Ok(this_off as usize);
            }
            prev = Some(this_off);
            next_off = slot.next_free;
            proof {
                i = i + 1;
            }
        }
        // didn't find any slot that is large enough. Find out if we can promote and by how much.
        Err(self.promotion_needed(need))
    }

    /// Whether the block has a free slot for the given size, and if not, whether it
    /// can be promoted and by how much.
    pub fn check_free(&self, size: usize) -> (r: Result<(), SlotError>)
        requires
            self.wf(),
            size + 15 <= u32::MAX,
        ensures
            ({
                let need = arith::round_up(size as int, 16);
                match r {
                    Ok(_) => slots::first_fit(self.free_slots(), need, 0)
                        < self.free_slots().len(),
                    Err(e) => {
                        &&& slots::first_fit(self.free_slots(), need, 0) == self.free_slots().len()
                        &&& e == promotion_for(self.spec_granularity(), need)
                    },
                }
            }),
    {
        let need: u32 = round_up_to(size, COMPONENT_ALIGN) as u32;
        proof {
            arith::lemma_round_up(size as int, 16);
        }
        let ghost s = self.free@;
        let ghost mut i: int = 0;
        let mut next_off: u32 = self.freelist_begin;
        while next_off != NO_OFFSET
            invariant
                self.wf(),
                s == self.free@,
                need == arith::round_up(size as int, 16),
                0 <= i <= s.len(),
                next_off == link_to(s, i),
                slots::first_fit(s, need as int, 0) == slots::first_fit(s, need as int, i),
            decreases s.len() - i,
        {
            assert(i < s.len());
            assert(Self::linked(self.cells@, s, i));
            let slot = self.slot_at(next_off);
            if slot.size >= need {
                return Ok(());
            }
            next_off = slot.next_free;
            proof {
                i = i + 1;
            }
        }
        Err(self.promotion_needed(need))
    }

    // the promotion that makes room for `need` bytes.
    fn promotion_needed(&self, need: u32) -> (r: SlotError)
        ensures
            r == promotion_for(self.spec_granularity(), need as int),
    {
        let cur_size: usize = self.granularity.size();
        if need as usize > LARGE_SIZE - cur_size {
            SlotError::TooBig
        } else if cur_size + need as usize > MEDIUM_SIZE {
            SlotError::NeedsPromote(Granularity::Large)
        } else {
            SlotError::NeedsPromote(Granularity::Medium)
        }
    }

    /// Marks the slot at the given offset from the start of the data to free.
    ///
    /// Slots in the free list are ordered by their offset in the block. This makes
    /// merging slots very simple.
    pub fn mark_free(&mut self, offset: usize, size: usize)
        requires
            old(self).wf(),
            offset % 16 == 0,
            0 < size,
            offset + arith::round_up(size as int, 16) <= old(self).spec_granularity().bytes(),
            slots::apart_from(old(self).free_slots(), offset as int, arith::round_up(size as int, 16)),
            forall|off: int| #[trigger]
                old(self).contents().contains_key(off) ==> off < offset || offset + arith::round_up(
                    size as int,
                    16,
                ) <= off,
        ensures
            final(self).wf(),
            final(self).place() == old(self).place(),
            final(self).owner() == old(self).owner(),
            final(self).contents() == old(self).contents(),
            final(self).free_slots() == slots::insert_slot(
                old(self).free_slots(),
                Slot { off: offset as int, size: arith::round_up(size as int, 16) },
            ),
    {
        proof {
            arith::lemma_round_up(size as int, 16);
        }
        let size: u32 = round_up_to(size, COMPONENT_ALIGN) as u32;
        let offset: u32 = offset as u32;
        let ghost s = self.free@;
        let ghost slot = Slot { off: offset as int, size: size as int };
        let ghost mut i: int = 0;
        let mut prev: Option<u32> = None;
        let mut next_off: u32 = self.freelist_begin;
        while next_off != NO_OFFSET && next_off <= offset
            invariant
                *self == *old(self),
                self.wf(),
                s == self.free@,
                0 <= i <= s.len(),
                next_off == link_to(s, i),
                slots::slot_position(s, offset as int, 0) == slots::slot_position(s, offset as int, i),
                forall|j: int| 0 <= j < i ==> (#[trigger] s[j]).off <= offset,
                i == 0 ==> prev is None,
                i > 0 ==> prev == Some(s[i - 1].off as u32),
            decreases s.len() - i,
        {
            assert(i < s.len());
            assert(Self::linked(self.cells@, s, i));
            prev = Some(next_off);
            next_off = self.slot_at(next_off).next_free;
            proof {
                i = i + 1;
            }
        }
        assert(slots::slot_position(s, offset as int, i) == i);
        assert(i > 0 ==> Self::linked(self.cells@, s, i - 1));
        assert(i > 0 ==> s[i - 1].off + s[i - 1].size <= offset);
        let ghost before = self.cells@;
        self.cells.set((offset / 16) as usize, Cell::Empty(EmptySlot { size, next_free: next_off }));
        self.link(prev, offset);
        proof {
            let bytes = self.granularity.bytes();
            self.free = Ghost(s.insert(i, slot));
            slots::lemma_insert_fits(s, i, slot, bytes);
            Self::lemma_insert_links(before, self.cells@, s, i, slot, bytes);
            assert forall|k: int| 0 <= k < before.len() && (#[trigger] before[k]) is Data implies 16 * k
                < offset || offset + size <= 16 * k by {
                assert(old(self).contents().contains_key(16 * k));
            }
            Self::lemma_insert_data(before, self.cells@, s, i, slot, bytes);
            assert(self.contents() =~= old(self).contents());
        }
    }

    /// Utility function for merging adjacent slots.
    /// Slots are said to be adjacent if their offset plus their size
    /// adds up to the offset of the next slot.
    pub fn merge_adjacent_slots(&mut self)
        requires
            old(self).wf(),
        ensures
            final(self).wf(),
            final(self).place() == old(self).place(),
            final(self).owner() == old(self).owner(),
            final(self).contents() == old(self).contents(),
            final(self).free_slots() == slots::coalesce(old(self).free_slots()),
    {
        let ghost s = self.free@;
        let ghost mut i: int = 0;
        let ghost mut done: Seq<Slot> = Seq::empty();
        let mut prev: Option<u32> = None;
        let mut next_off: u32 = self.freelist_begin;
        assert(done + s.skip(0) =~= s);
        assert(s.take(0) =~= Seq::empty());
        while next_off != NO_OFFSET
            invariant
                self.wf(),
                self.entity == old(self).entity,
                self.granularity == old(self).granularity,
                self.index == old(self).index,
                self.contents() == old(self).contents(),
                0 <= i <= s.len(),
                done == slots::coalesce(s.take(i)),
                self.free@ == done + s.skip(i),
                next_off == link_to(self.free@, done.len() as int),
                done.len() == 0 ==> prev is None,
                done.len() > 0 ==> prev == Some(done.last().off as u32),
                done.len() == 0 ==> i == 0,
            decreases s.len() - i,
        {
            let ghost n = done.len() as int;
            let ghost list = self.free@;
            assert(n < list.len());
            assert(list[n] == s[i]);
            assert(Self::linked(self.cells@, list, n));
            assert(s.take(i + 1).drop_last() =~= s.take(i));
            assert(s.take(i + 1).last() == s[i]);
            let cur: u32 = next_off;
            let slot = self.slot_at(cur);
            next_off = slot.next_free;
            let mut adjacent: bool = false;
            if let Some(p) = prev {
                assert(list[n - 1] == done.last());
                assert(Self::linked(self.cells@, list, n - 1));
                let prev_slot = self.slot_at(p);
                assert(list[n - 1].off + list[n - 1].size <= list[n].off);
                if p + prev_slot.size == cur {
                    // slots are adjacent. combine their sizes and don't
                    // update the prev loop var.
                    adjacent = true;
                    let ghost before = self.cells@;
                    self.cells.set((cur / 16) as usize, Cell::Raw);
                    self.cells.set(
                        (p / 16) as usize,
                        Cell::Empty(
                            EmptySlot { size: prev_slot.size + slot.size, next_free: slot.next_free },
                        ),
                    );
                    proof {
                        let bytes = self.granularity.bytes();
                        slots::lemma_join_fits(list, n - 1, bytes);
                        Self::lemma_join_links(before, self.cells@, list, n - 1, bytes);
                        Self::lemma_join_data(before, self.cells@, list, n - 1, bytes);
                        self.free = Ghost(slots::join_slots(list, n - 1));
                        let merged = Slot {
                            off: done.last().off,
                            size: done.last().size + s[i].size,
                        };
                        assert(slots::join_slots(list, n - 1) =~= done.drop_last().push(merged) + s.skip(i + 1));
                        done = done.drop_last().push(merged);
                        assert(self.contents() =~= old(self).contents());
                    }
                }
            }
            if !adjacent {
                proof {
                    assert(done.push(s[i]) + s.skip(i + 1) =~= done + s.skip(i));
                    done = done.push(s[i]);
                }
                prev = Some(cur);
            }
            proof {
                i = i + 1;
            }
        }
        proof {
            assert(i == s.len()) by {
                if i < s.len() {
                    assert(self.free@[done.len() as int] == s[i]);
                }
            }
            assert(s.take(i) =~= s);
            assert(self.free@ =~= done);
        }
    }

    /// Returns the unique granularity-index pair which describes this block.
    pub fn offset(&self) -> (r: Offset)
        ensures
            r == self.place(),
    {
        Offset::new(self.granularity, self.index)
    }

    /// Initialize the block: write its entity into the header.
    pub fn initialize(&mut self, entity: Entity)
        ensures
            old(self).wf() ==> final(self).wf(),
            final(self).place() == old(self).place(),
            final(self).owner() == Some(entity),
            final(self).contents() == old(self).contents(),
            final(self).free_slots() == old(self).free_slots(),
    {
        self.entity = Some(entity);
        assert(self.contents() =~= old(self).contents());
    }

    /// The value stored at the given offset, if one starts there.
    pub fn data_ptr(&self, offset: usize) -> (r: Option<&V>)
        requires
            self.wf(),
        ensures
            match r {
                Some(v) => self.contents().contains_key(offset as int) && *v
                    == self.contents()[offset as int],
                None => !self.contents().contains_key(offset as int),
            },
    {
        if offset % 16 != 0 || offset / 16 >= self.cells.len() {
            return None;
        }
        match &self.cells[offset / 16] {
            Cell::Data(v) => Some(v),
            _ => None,
        }
    }

    /// Stores a value at the given offset, and returns the value that was there.
    pub fn write(&mut self, offset: usize, value: V) -> (r: Option<V>)
        requires
            old(self).wf(),
            offset % 16 == 0,
            offset < old(self).spec_granularity().bytes(),
            !slots::in_slots(old(self).free_slots(), offset as int),
        ensures
            final(self).wf(),
            final(self).place() == old(self).place(),
            final(self).owner() == old(self).owner(),
            final(self).free_slots() == old(self).free_slots(),
            final(self).contents() == old(self).contents().insert(offset as int, value),
            match r {
                Some(v) => old(self).contents().contains_key(offset as int) && v
                    == old(self).contents()[offset as int],
                None => !old(self).contents().contains_key(offset as int),
            },
    {
        let k: usize = offset / 16;
        let ghost before = self.cells@;
        let mut cell: Cell<V> = Cell::Data(value);
        self.swap_cell(k, &mut cell);
        proof {
            let s = self.free@;
            assert forall|j: int| 0 <= j < s.len() implies Self::linked(self.cells@, s, j) by {
                assert(Self::linked(before, s, j));
                slots::lemma_in_slot(s, j, 0);
            }
            assert(self.contents() =~= old(self).contents().insert(offset as int, value));
        }
        match cell {
            Cell::Data(v) => Some(v),
            _ => None,
        }
    }

    /// Takes out the value stored at the given offset, if one starts there.
    pub fn take(&mut self, offset: usize) -> (r: Option<V>)
        requires
            old(self).wf(),
        ensures
            final(self).wf(),
            final(self).place() == old(self).place(),
            final(self).owner() == old(self).owner(),
            final(self).free_slots() == old(self).free_slots(),
            final(self).contents() == old(self).contents().remove(offset as int),
            match r {
                Some(v) => old(self).contents().contains_key(offset as int) && v
                    == old(self).contents()[offset as int],
                None => !old(self).contents().contains_key(offset as int),
            },
    {
        if self.data_ptr(offset).is_none() {
            assert(self.contents() =~= old(self).contents().remove(offset as int));
            return None;
        }
        let k: usize = offset / 16;
        let ghost before = self.cells@;
        let mut cell: Cell<V> = Cell::Raw;
        self.swap_cell(k, &mut cell);
        proof {
            let s = self.free@;
            assert forall|j: int| 0 <= j < s.len() implies Self::linked(self.cells@, s, j) by {
                assert(Self::linked(before, s, j));
            }
            assert(self.contents() =~= old(self).contents().remove(offset as int));
        }
        match cell {
            Cell::Data(v) => Some(v),
            _ => None,
        }
    }

    /// Access to the value stored at the given offset, if one starts there.
    pub fn data_ptr_mut(&mut self, offset: usize) -> (r: Option<&mut V>)
        requires
            old(self).wf(),
        ensures
            final(self).wf(),
            final(self).place() == old(self).place(),
            final(self).owner() == old(self).owner(),
            final(self).free_slots() == old(self).free_slots(),
            match r {
                Some(v) => {
                    &&& old(self).contents().contains_key(offset as int)
                    &&& *v == old(self).contents()[offset as int]
                    &&& final(self).contents() == old(self).contents().insert(
                        offset as int,
                        *final(v),
                    )
                },
                None => {
                    &&& !old(self).contents().contains_key(offset as int)
                    &&& final(self).contents() == old(self).contents()
                },
            },
    {
        if self.data_ptr(offset).is_none() {
            return None;
        }
        proof {
            let s = self.free@;
            let k = offset as int / 16;
            assert forall|v: V|
                {
                    let cells = #[trigger] self.cells@.update(k, Cell::Data(v));
                    Self::holds_list(cells, s) && Self::data_outside(cells, s)
                } by {
                let cells = self.cells@.update(k, Cell::Data(v));
                assert forall|j: int| 0 <= j < s.len() implies Self::linked(cells, s, j) by {
                    assert(Self::linked(self.cells@, s, j));
                }
            }
        }
        match &mut self.cells[offset / 16] {
            Cell::Data(v) => Some(v),
            _ => None,
        }
    }

    // takes over the header and the data of a smaller block.
    fn copy_from(&mut self, other: &mut BlockHandle<V>)
        requires
            old(other).wf(),
            old(other).spec_granularity().bytes() < old(self).spec_granularity().bytes(),
        ensures
            final(self).wf(),
            final(self).place() == old(self).place(),
            final(self).owner() == old(other).owner(),
            final(self).free_slots() == old(other).free_slots(),
            final(self).contents() == old(other).contents(),
            final(other).place() == old(other).place(),
    {
        let mut cells: Vec<Cell<V>> = Vec::new();
        core::mem::swap(&mut cells, &mut other.cells);
        let ghost before = cells@;
        let count: usize = self.granularity.size() / COMPONENT_ALIGN;
        while cells.len() < count
            invariant
                before.len() <= cells@.len() <= count,
                forall|k: int| 0 <= k < before.len() ==> #[trigger] cells@[k] == before[k],
                forall|k: int| before.len() <= k < cells@.len() ==> (#[trigger] cells@[k]) is Raw,
            decreases count - cells@.len(),
        {
            cells.push(Cell::Raw);
        }
        self.cells = cells;
        self.entity = other.entity;
        self.freelist_begin = other.freelist_begin;
        self.free = Ghost(other.free@);
        proof {
            let s = self.free@;
            assert forall|j: int| 0 <= j < s.len() implies Self::linked(self.cells@, s, j) by {
                assert(Self::linked(before, s, j));
            }
            assert(self.contents() =~= old(other).contents());
        }
    }

    /// Moves the data of a smaller block, including its header, into this block,
    /// and adds a free slot to the end to make the new memory available.
    pub fn promote_from(&mut self, other: &mut BlockHandle<V>)
        requires
            old(other).wf(),
            old(other).spec_granularity().bytes() < old(self).spec_granularity().bytes(),
        ensures
            final(self).wf(),
            final(self).place() == old(self).place(),
            final(self).owner() == old(other).owner(),
            final(self).contents() == old(other).contents(),
            final(self).free_slots() == old(other).free_slots().push(
                Slot {
                    off: old(other).spec_granularity().bytes(),
                    size: old(self).spec_granularity().bytes()
                        - old(other).spec_granularity().bytes(),
                },
            ),
            final(other).place() == old(other).place(),
    {
        let old_size: usize = other.granularity.size();
        let new_size: usize = self.granularity.size();
        self.copy_from(other);
        proof {
            let s = self.free@;
            let extra = new_size - old_size;
            old(other).lemma_contents();
            arith::lemma_round_up(extra, 16);
            assert(slots::apart_from(s, old_size as int, extra)) by {
                assert(forall|i: int| 0 <= i < s.len() ==> (#[trigger] s[i]).off + s[i].size <= old_size);
            }
            slots::lemma_slot_position(s, old_size as int, extra, new_size as int, 0);
            let p = slots::slot_position(s, old_size as int, 0);
            assert(p == s.len());
            assert(s.insert(p, Slot { off: old_size as int, size: extra }) =~= s.push(
                Slot { off: old_size as int, size: extra },
            ));
        }
        self.mark_free(old_size, new_size - old_size);
    }

    /// What the parts of a block have to do with each other: the free slots are
    /// in order, and each value starts on a cell that no free slot covers.
    pub proof fn lemma_contents(&self)
        requires
            self.wf(),
        ensures
            slots::slots_fit(self.free_slots(), self.spec_granularity().bytes()),
            forall|off: int| #[trigger]
                self.contents().contains_key(off) ==> {
                    &&& off % 16 == 0
                    &&& 0 <= off < self.spec_granularity().bytes()
                    &&& !slots::in_slots(self.free_slots(), off)
                },
    {
        assert forall|off: int| #[trigger] self.contents().contains_key(off) implies {
            &&& off % 16 == 0
            &&& 0 <= off < self.spec_granularity().bytes()
            &&& !slots::in_slots(self.free_slots(), off)
        } by {
            assert(self.cells@[off / 16] is Data);
        }
    }

    // exchanges the cell at `k` with `cell`.
    fn swap_cell(&mut self, k: usize, cell: &mut Cell<V>)
        requires
            k < old(self).cells@.len(),
        ensures
            *final(cell) == old(self).cells@[k as int],
            final(self).cells@ == old(self).cells@.update(k as int, *old(cell)),
            final(self).entity == old(self).entity,
            final(self).freelist_begin == old(self).freelist_begin,
            final(self).granularity == old(self).granularity,
            final(self).index == old(self).index,
            final(self).free == old(self).free,
    {
        core::mem::swap(&mut self.cells[k], cell);
    }

    // what changes when the first `need` bytes of slot `i` come into use.
    spec fn takes_from_slot(
        before: Seq<Cell<V>>,
        after: Seq<Cell<V>>,
        s: Seq<Slot>,
        i: int,
        need: int,
    ) -> bool {
        &&& forall|k: int|
            0 <= k < before.len() && k != s[i].off / 16 && !(need < s[i].size && k == (s[i].off + need)
                / 16) && !(i > 0 && k == s[i - 1].off / 16) ==> #[trigger] after[k] == before[k]
        &&& 0 < need ==> after[s[i].off / 16] is Raw
        &&& need < s[i].size ==> {
            &&& after[(s[i].off + need) / 16] is Empty
            &&& after[(s[i].off + need) / 16]->Empty_0.size == s[i].size - need
            &&& after[(s[i].off + need) / 16]->Empty_0.next_free == link_to(s, i + 1)
        }
        &&& i > 0 ==> {
            &&& after[s[i - 1].off / 16] is Empty
            &&& after[s[i - 1].off / 16]->Empty_0.size == s[i - 1].size
            &&& after[s[i - 1].off / 16]->Empty_0.next_free == link_to(
                slots::take_from_slot(s, i, need),
                i,
            )
        }
    }

    proof fn lemma_take_links(
        before: Seq<Cell<V>>,
        after: Seq<Cell<V>>,
        s: Seq<Slot>,
        i: int,
        need: int,
        bytes: int,
    )
        requires
            0 <= i < s.len(),
            16 * before.len() == bytes,
            after.len() == before.len(),
            slots::slots_fit(s, bytes),
            Self::holds_list(before, s),
            0 <= need <= s[i].size,
            need % 16 == 0,
            Self::takes_from_slot(before, after, s, i, need),
        ensures
            Self::holds_list(after, slots::take_from_slot(s, i, need)),
    {
        let t = slots::take_from_slot(s, i, need);
        assert forall|j: int| 0 <= j < t.len() implies Self::linked(after, t, j) by {
            let m = if need == s[i].size && j >= i { j + 1 } else { j };
            assert(Self::linked(before, s, m));
            if m != i {
                slots::lemma_distinct_cells(s, m, i, if need < s[i].size { need } else { 0 }, bytes);
            }
            if i > 0 && m != i - 1 {
                slots::lemma_distinct_cells(s, m, i - 1, 0, bytes);
            }
        }
    }

    proof fn lemma_take_data(
        before: Seq<Cell<V>>,
        after: Seq<Cell<V>>,
        s: Seq<Slot>,
        i: int,
        need: int,
        bytes: int,
    )
        requires
            0 <= i < s.len(),
            16 * before.len() == bytes,
            after.len() == before.len(),
            slots::slots_fit(s, bytes),
            Self::data_outside(before, s),
            0 <= need <= s[i].size,
            need % 16 == 0,
            Self::takes_from_slot(before, after, s, i, need),
        ensures
            Self::data_outside(after, slots::take_from_slot(s, i, need)),
            Self::same_data(before, after),
    {
        let t = slots::take_from_slot(s, i, need);
        slots::lemma_in_slot(s, i, 0);
        if need < s[i].size {
            slots::lemma_in_slot(s, i, need);
        }
        if i > 0 {
            slots::lemma_in_slot(s, i - 1, 0);
        }
        assert forall|k: int| 0 <= k < before.len() implies ((#[trigger] after[k]) is Data <==> before[k] is Data)
            && (before[k] is Data ==> after[k] == before[k]) by {
            if before[k] is Data {
                assert(!slots::in_slots(s, 16 * k));
            }
        }
        assert forall|k: int| 0 <= k < after.len() && (#[trigger] after[k]) is Data implies !slots::in_slots(
            t,
            16 * k,
        ) by {
            assert(before[k] is Data);
            if slots::in_slots(t, 16 * k) {
                slots::lemma_take_covers_less(s, i, need, 16 * k);
            }
        }
    }

    // what changes when a slot joins the list before slot `i`.
    spec fn inserts_slot(
        before: Seq<Cell<V>>,
        after: Seq<Cell<V>>,
        s: Seq<Slot>,
        i: int,
        slot: Slot,
    ) -> bool {
        &&& forall|k: int|
            0 <= k < before.len() && k != slot.off / 16 && !(i > 0 && k == s[i - 1].off / 16)
                ==> #[trigger] after[k] == before[k]
        &&& after[slot.off / 16] is Empty
        &&& after[slot.off / 16]->Empty_0.size == slot.size
        &&& after[slot.off / 16]->Empty_0.next_free == link_to(s, i)
        &&& i > 0 ==> {
            &&& after[s[i - 1].off / 16] is Empty
            &&& after[s[i - 1].off / 16]->Empty_0.size == s[i - 1].size
            &&& after[s[i - 1].off / 16]->Empty_0.next_free == slot.off
        }
    }

    proof fn lemma_insert_links(
        before: Seq<Cell<V>>,
        after: Seq<Cell<V>>,
        s: Seq<Slot>,
        i: int,
        slot: Slot,
        bytes: int,
    )
        requires
            0 <= i <= s.len(),
            16 * before.len() == bytes,
            after.len() == before.len(),
            slots::slots_fit(s, bytes),
            slots::slots_fit(s.insert(i, slot), bytes),
            Self::holds_list(before, s),
            Self::inserts_slot(before, after, s, i, slot),
        ensures
            Self::holds_list(after, s.insert(i, slot)),
    {
        let t = s.insert(i, slot);
        assert forall|j: int| 0 <= j < t.len() implies Self::linked(after, t, j) by {
            if j != i {
                let m = if j < i { j } else { j - 1 };
                assert(t[j] == s[m]);
                assert(Self::linked(before, s, m));
                slots::lemma_distinct_cells(t, j, i, 0, bytes);
                if i > 0 && m != i - 1 {
                    slots::lemma_distinct_cells(s, m, i - 1, 0, bytes);
                }
            }
        }
    }

    proof fn lemma_insert_data(
        before: Seq<Cell<V>>,
        after: Seq<Cell<V>>,
        s: Seq<Slot>,
        i: int,
        slot: Slot,
        bytes: int,
    )
        requires
            0 <= i <= s.len(),
            16 * before.len() == bytes,
            after.len() == before.len(),
            slots::slots_fit(s, bytes),
            slots::slots_fit(s.insert(i, slot), bytes),
            Self::data_outside(before, s),
            forall|k: int|
                0 <= k < before.len() && (#[trigger] before[k]) is Data ==> 16 * k < slot.off || slot.off
                    + slot.size <= 16 * k,
            Self::inserts_slot(before, after, s, i, slot),
        ensures
            Self::data_outside(after, s.insert(i, slot)),
            Self::same_data(before, after),
    {
        let t = s.insert(i, slot);
        assert(t[i] == slot);
        if i > 0 {
            slots::lemma_in_slot(s, i - 1, 0);
        }
        assert forall|k: int| 0 <= k < before.len() implies ((#[trigger] after[k]) is Data <==> before[k] is Data)
            && (before[k] is Data ==> after[k] == before[k]) by {
            if before[k] is Data {
                assert(!slots::in_slots(s, 16 * k));
            }
        }
        assert forall|k: int| 0 <= k < after.len() && (#[trigger] after[k]) is Data implies !slots::in_slots(
            t,
            16 * k,
        ) by {
            assert(before[k] is Data);
            if slots::in_slots(t, 16 * k) {
                let j = choose|j: int|
                    0 <= j < t.len() && (#[trigger] t[j]).off <= 16 * k < t[j].off + t[j].size;
                if j != i {
                    let m = if j < i { j } else { j - 1 };
                    assert(t[j] == s[m]);
                    slots::lemma_in_slot(s, m, 16 * k - s[m].off);
                }
            }
        }
    }

    // what changes when slot `i` takes in slot `i + 1`.
    spec fn joins_slots(before: Seq<Cell<V>>, after: Seq<Cell<V>>, s: Seq<Slot>, i: int) -> bool {
        &&& forall|k: int|
            0 <= k < before.len() && k != s[i].off / 16 && k != s[i + 1].off / 16
                ==> #[trigger] after[k] == before[k]
        &&& after[s[i + 1].off / 16] is Raw
        &&& after[s[i].off / 16] is Empty
        &&& after[s[i].off / 16]->Empty_0.size == s[i].size + s[i + 1].size
        &&& after[s[i].off / 16]->Empty_0.next_free == link_to(s, i + 2)
    }

    proof fn lemma_join_links(
        before: Seq<Cell<V>>,
        after: Seq<Cell<V>>,
        s: Seq<Slot>,
        i: int,
        bytes: int,
    )
        requires
            0 <= i < s.len() - 1,
            16 * before.len() == bytes,
            after.len() == before.len(),
            slots::slots_fit(s, bytes),
            Self::holds_list(before, s),
            Self::joins_slots(before, after, s, i),
        ensures
            Self::holds_list(after, slots::join_slots(s, i)),
    {
        let t = slots::join_slots(s, i);
        assert forall|j: int| 0 <= j < t.len() implies Self::linked(after, t, j) by {
            if j != i {
                let m = if j < i { j } else { j + 1 };
                assert(t[j] == s[m]);
                assert(Self::linked(before, s, m));
                slots::lemma_distinct_cells(s, m, i, 0, bytes);
                slots::lemma_distinct_cells(s, m, i + 1, 0, bytes);
            }
        }
    }

    proof fn lemma_join_data(
        before: Seq<Cell<V>>,
        after: Seq<Cell<V>>,
        s: Seq<Slot>,
        i: int,
        bytes: int,
    )
        requires
            0 <= i < s.len() - 1,
            16 * before.len() == bytes,
            after.len() == before.len(),
            slots::slots_fit(s, bytes),
            s[i].off + s[i].size == s[i + 1].off,
            Self::data_outside(before, s),
            Self::joins_slots(before, after, s, i),
        ensures
            Self::data_outside(after, slots::join_slots(s, i)),
            Self::same_data(before, after),
    {
        slots::lemma_in_slot(s, i, 0);
        slots::lemma_in_slot(s, i + 1, 0);
        assert forall|k: int| 0 <= k < before.len() implies ((#[trigger] after[k]) is Data <==> before[k] is Data)
            && (before[k] is Data ==> after[k] == before[k]) by {
            if before[k] is Data {
                assert(!slots::in_slots(s, 16 * k));
            }
        }
        assert forall|k: int| 0 <= k < after.len() && (#[trigger] after[k]) is Data implies !slots::in_slots(
            slots::join_slots(s, i),
            16 * k,
        ) by {
            assert(before[k] is Data);
            slots::lemma_join_covers(s, i, 16 * k);
        }
    }
}

/// The sizes that data blocks come in, each four times the one before.
pub proof fn law_granularities(g: Granularity, r: usize)
    requires
        call_ensures(Granularity::size, (&g,), r),
    ensures
        g == Granularity::Small ==> r == 512,
        g == Granularity::Medium ==> r == 2048,
        g == Granularity::Large ==> r == 8192,
        r == g.bytes(),
{
}

/// Rounding up gives the least multiple that is not below the number.
pub proof fn law_rounding_gives_the_least_multiple(n: usize, m: usize, r: usize, k: int)
    requires
        0 < m,
        call_ensures(round_up_to, (n, m), r),
        n <= k * m,
    ensures
        r % m == 0,
        n <= r < n + m,
        r <= k * m,
{
    arith::lemma_round_up(n as int, m as int);
    if k * m < r {
        let q = r as int / m as int;
        vstd::arithmetic::div_mod::lemma_fundamental_div_mod(r as int, m as int);
        assert(k <= q - 1) by (nonlinear_arith)
            requires
                k * m < m * q,
                0 < m,
        ;
        assert(k * m <= m * q - m) by (nonlinear_arith)
            requires
                k <= q - 1,
                0 < m,
        ;
    }
}

// what it means that a block without a slot for `need` bytes is to be promoted.
pub proof fn lemma_promotion(granularity: Granularity, need: int)
    requires
        0 < need,
    ensures
        match promotion_for(granularity, need) {
            SlotError::NeedsPromote(h) => {
                &&& granularity.bytes() + need <= h.bytes()
                &&& forall|g: Granularity|
                    granularity.bytes() + need <= #[trigger] g.bytes() ==> h.bytes() <= g.bytes()
            },
            SlotError::TooBig => granularity.bytes() + need > 8192,
        },
{
}

/// A block with a free slot that is large enough has room for a component. If it has none, it
/// is promoted to the least granularity that holds a whole block as it is and the component
/// besides, and the component is too big only if no granularity does: `need` is the size of
/// the component, rounded up to the next multiple of the alignment.
pub proof fn law_full_blocks_are_promoted<V>(
    b: &BlockHandle<V>,
    size: usize,
    r: Result<(), SlotError>,
    need: int,
)
    requires
        b.wf(),
        0 < size <= u32::MAX - 15,
        need % 16 == 0,
        size <= need < size + 16,
        call_ensures(BlockHandle::<V>::check_free, (b, size), r),
    ensures
        r is Ok <==> exists|i: int|
            0 <= i < b.free_slots().len() && (#[trigger] b.free_slots()[i]).size >= need,
        r matches Err(SlotError::NeedsPromote(h)) ==> {
            &&& b.spec_granularity().bytes() + need <= h.bytes()
            &&& forall|g: Granularity|
                b.spec_granularity().bytes() + need <= #[trigger] g.bytes() ==> h.bytes()
                    <= g.bytes()
        },
        r matches Err(SlotError::TooBig) ==> b.spec_granularity().bytes() + need > 8192,
{
    arith::lemma_round_up(size as int, 16);
    assert(need == arith::round_up(size as int, 16));
    slots::law_first_fit_is_the_first(b.free_slots(), need);
    lemma_promotion(b.spec_granularity(), need);
}

/// Taking a slot: the bytes come from the first slot that is large enough, from its start on,
/// and they alone are no longer free. If there is no such slot, nothing changes, and the block
/// is to be promoted as `check_free` says.
pub proof fn law_slots_are_taken_from_the_first_that_fits<V>(size: usize, need: int)
    requires
        0 < size <= u32::MAX - 15,
        need % 16 == 0,
        size <= need < size + 16,
    ensures
        forall|b: &mut BlockHandle<V>, off: usize|
            b.wf() && #[trigger] call_ensures(
                BlockHandle::<V>::next_free,
                (b, size),
                Ok::<usize, SlotError>(off),
            ) ==> {
                &&& exists|i: int|
                    {
                        &&& 0 <= i < b.free_slots().len()
                        &&& (#[trigger] b.free_slots()[i]).off == off
                        &&& b.free_slots()[i].size >= need
                        &&& forall|j: int| 0 <= j < i ==> (#[trigger] b.free_slots()[j]).size < need
                    }
                &&& forall|p: int| #[trigger]
                    slots::in_slots(final(b).free_slots(), p) <==> slots::in_slots(
                        b.free_slots(),
                        p,
                    ) && !(off <= p < off + need)
                &&& final(b).contents() == b.contents()
            },
        forall|b: &mut BlockHandle<V>, e: SlotError|
            b.wf() && #[trigger] call_ensures(
                BlockHandle::<V>::next_free,
                (b, size),
                Err::<usize, SlotError>(e),
            ) ==> {
                &&& *final(b) == *b
                &&& forall|j: int|
                    0 <= j < b.free_slots().len() ==> (#[trigger] b.free_slots()[j]).size < need
                &&& e matches SlotError::NeedsPromote(h) ==> {
                    &&& b.spec_granularity().bytes() + need <= h.bytes()
                    &&& forall|g: Granularity|
                        b.spec_granularity().bytes() + need <= #[trigger] g.bytes() ==> h.bytes()
                            <= g.bytes()
                }
                &&& e == SlotError::TooBig ==> b.spec_granularity().bytes() + need > 8192
            },
{
    arith::lemma_round_up(size as int, 16);
    assert(need == arith::round_up(size as int, 16));
    assert forall|b: &mut BlockHandle<V>, off: usize|
        b.wf() && #[trigger] call_ensures(
            BlockHandle::<V>::next_free,
            (b, size),
            Ok::<usize, SlotError>(off),
        ) implies {
        &&& exists|i: int|
            {
                &&& 0 <= i < b.free_slots().len()
                &&& (#[trigger] b.free_slots()[i]).off == off
                &&& b.free_slots()[i].size >= need
                &&& forall|j: int| 0 <= j < i ==> (#[trigger] b.free_slots()[j]).size < need
            }
        &&& forall|p: int| #[trigger]
            slots::in_slots(final(b).free_slots(), p) <==> slots::in_slots(b.free_slots(), p) && !(
            off <= p < off + need)
        &&& final(b).contents() == b.contents()
    } by {
        let s = b.free_slots();
        slots::law_first_fit_is_the_first(s, need);
        let i = slots::first_fit(s, need, 0);
        assert(s[i].off == off);
        assert forall|p: int| #[trigger]
            slots::in_slots(final(b).free_slots(), p) <==> slots::in_slots(s, p) && !(off <= p < off
                + need) by {
            slots::lemma_take_covers(s, i, need, b.spec_granularity().bytes(), p);
        }
    }
    assert forall|b: &mut BlockHandle<V>, e: SlotError|
        b.wf() && #[trigger] call_ensures(
            BlockHandle::<V>::next_free,
            (b, size),
            Err::<usize, SlotError>(e),
        ) implies {
        &&& *final(b) == *b
        &&& forall|j: int|
            0 <= j < b.free_slots().len() ==> (#[trigger] b.free_slots()[j]).size < need
        &&& e matches SlotError::NeedsPromote(h) ==> {
            &&& b.spec_granularity().bytes() + need <= h.bytes()
            &&& forall|g: Granularity|
                b.spec_granularity().bytes() + need <= #[trigger] g.bytes() ==> h.bytes()
                    <= g.bytes()
        }
        &&& e == SlotError::TooBig ==> b.spec_granularity().bytes() + need > 8192
    } by {
        slots::law_first_fit_is_the_first(b.free_slots(), need);
        lemma_promotion(b.spec_granularity(), need);
    }
}

/// Freeing a slot: its bytes are free then, and no others than were free before.
pub proof fn law_freeing_frees_just_the_bytes<V>(offset: usize, size: usize, need: int)
    requires
        0 < size,
        need % 16 == 0,
        size <= need < size + 16,
    ensures
        forall|b: &mut BlockHandle<V>| #[trigger]
            call_ensures(BlockHandle::<V>::mark_free, (b, offset, size), ()) ==> {
                &&& final(b).contents() == b.contents()
                &&& b.wf() && slots::apart_from(b.free_slots(), offset as int, need)
                    ==> forall|p: int| #[trigger]
                    slots::in_slots(final(b).free_slots(), p) <==> slots::in_slots(
                        b.free_slots(),
                        p,
                    ) || offset <= p < offset + need
            },
{
    arith::lemma_round_up(size as int, 16);
    assert(need == arith::round_up(size as int, 16));
    assert forall|b: &mut BlockHandle<V>|
        #[trigger] call_ensures(BlockHandle::<V>::mark_free, (b, offset, size), ()) && b.wf()
            && slots::apart_from(b.free_slots(), offset as int, need) implies forall|
        p: int,
    | #[trigger]
        slots::in_slots(final(b).free_slots(), p) <==> slots::in_slots(b.free_slots(), p) || offset
            <= p < offset + need by {
        let s = b.free_slots();
        slots::lemma_slot_position(s, offset as int, need, b.spec_granularity().bytes(), 0);
        assert forall|p: int| #[trigger]
            slots::in_slots(final(b).free_slots(), p) <==> slots::in_slots(s, p) || offset <= p
                < offset + need by {
            slots::lemma_insert_covers(
                s,
                slots::slot_position(s, offset as int, 0),
                Slot { off: offset as int, size: need },
                p,
            );
        }
    }
}

/// Merging frees no byte and takes none, and leaves no slot that ends where another begins.
pub proof fn law_merging_leaves_no_adjacent_slots<V>()
    ensures
        forall|b: &mut BlockHandle<V>|
            b.wf() && #[trigger] call_ensures(BlockHandle::<V>::merge_adjacent_slots, (b,), ())
                ==> {
                &&& final(b).contents() == b.contents()
                &&& forall|p: int| #[trigger]
                    slots::in_slots(final(b).free_slots(), p) == slots::in_slots(b.free_slots(), p)
                &&& forall|i: int, j: int|
                    0 <= i < final(b).free_slots().len() && 0 <= j < final(b).free_slots().len()
                        ==> (#[trigger] final(b).free_slots()[i]).off
                        + final(b).free_slots()[i].size != (#[trigger] final(b).free_slots()[j]).off
            },
{
    assert forall|b: &mut BlockHandle<V>|
        b.wf() && #[trigger] call_ensures(BlockHandle::<V>::merge_adjacent_slots, (b,), ()) implies {
        &&& final(b).contents() == b.contents()
        &&& forall|p: int| #[trigger]
            slots::in_slots(final(b).free_slots(), p) == slots::in_slots(b.free_slots(), p)
        &&& forall|i: int, j: int|
            0 <= i < final(b).free_slots().len() && 0 <= j < final(b).free_slots().len() ==> (
            #[trigger] final(b).free_slots()[i]).off + final(b).free_slots()[i].size != (
            #[trigger] final(b).free_slots()[j]).off
    } by {
        let t = final(b).free_slots();
        slots::lemma_coalesce(b.free_slots(), b.spec_granularity().bytes());
        assert forall|i: int, j: int| 0 <= i < t.len() && 0 <= j < t.len() implies (
        #[trigger] t[i]).off + t[i].size != (#[trigger] t[j]).off by {
            if j > i + 1 {
                assert(t[i].off + t[i].size <= t[i + 1].off);
                assert(t[i + 1].off + t[i + 1].size <= t[j].off);
            } else if j < i {
                assert(t[j].off + t[j].size <= t[i].off);
            }
        }
    }
}

/// Offsets are ordered by the size of the blocks, and those of one size by the index. No two offsets
/// are equal in the order, it can be told from either side, and what is less than a lesser one is
/// less.
pub proof fn law_offsets_are_ordered(
    a: &Offset,
    b: &Offset,
    c: &Offset,
    ab: Option<Ordering>,
    ba: Option<Ordering>,
    bc: Option<Ordering>,
    ac: Option<Ordering>,
)
    requires
        call_ensures(Offset::partial_cmp, (a, b), ab),
        call_ensures(Offset::partial_cmp, (b, a), ba),
        call_ensures(Offset::partial_cmp, (b, c), bc),
        call_ensures(Offset::partial_cmp, (a, c), ac),
    ensures
        a.granularity == Granularity::Small && b.granularity != Granularity::Small ==> ab == Some(
            Ordering::Less,
        ),
        a.granularity == Granularity::Medium && b.granularity == Granularity::Large ==> ab == Some(
            Ordering::Less,
        ),
        a.granularity == b.granularity ==> (ab == Some(Ordering::Less) <==> a.inner_off
            < b.inner_off),
        ab == Some(Ordering::Equal) <==> *a == *b,
        ab == Some(Ordering::Less) <==> ba == Some(Ordering::Greater),
        ab is Some,
        ab == Some(Ordering::Less) && bc == Some(Ordering::Less) ==> ac == Some(Ordering::Less),
{
}

} // verus!
