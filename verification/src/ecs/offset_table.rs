//! Where in their blocks the entities keep the data of one component.

use vstd::prelude::*;
use super::entity::{Entity, index_of};

verus! {

/// The largest offset that a table holds. Low space usage is very desirable for
/// these offset tables, and any possible offset is small.
pub const MAX_OFFSET: u16 = 0x7fff;

/// Marks an entity without an offset.
pub const CLEARED: u16 = 0xffff;

/// The number that tells a component from the others.
pub type ComponentId = u64;

/// What a world knows of a component.
pub struct ComponentKind {
    /// The size in bytes of the component.
    pub size: int,
    /// The components that every entity with this component must also have.
    pub dependencies: Seq<ComponentId>,
}

/// Some entity of the list lives in the given slot.
pub open spec fn lists_slot(entities: Seq<Entity>, index: int) -> bool {
    exists|k: int| 0 <= k < entities.len() && (#[trigger] entities[k]).index() == index
}

/// Maps entities to the offset of a component's data
/// from the start of their block.
///
/// A component without a size takes no space in a block. The table keeps its
/// values.
pub struct ComponentOffsetTable<V> {
    id: ComponentId,
    size: usize,
    dependencies: Vec<ComponentId>,
    offsets: Vec<u16>,
    units: Vec<Option<V>>,
}

impl<V> ComponentOffsetTable<V> {
    /// The component that the table is for.
    pub closed spec fn component(&self) -> ComponentId {
        self.id
    }

    /// What is known of the component.
    pub closed spec fn kind(&self) -> ComponentKind {
        ComponentKind { size: self.size as int, dependencies: self.dependencies@ }
    }

    /// The offset of the component's data for the entity in the given slot.
    pub closed spec fn entry(&self, index: int) -> Option<u16> {
        if 0 <= index < self.offsets@.len() && self.offsets@[index] != CLEARED {
            Some(self.offsets@[index])
        } else {
            None
        }
    }

    /// The value that the table keeps for the entity in the given slot.
    pub closed spec fn unit(&self, index: int) -> Option<V> {
        if 0 <= index < self.units@.len() {
            self.units@[index]
        } else {
            None
        }
    }

    /// Both tables are for the same component.
    pub open spec fn same_component(&self, other: &ComponentOffsetTable<V>) -> bool {
        self.component() == other.component() && self.kind() == other.kind()
    }

    /// A table without offsets.
    pub fn new(id: ComponentId, size: usize, dependencies: Vec<ComponentId>) -> (r:
        ComponentOffsetTable<V>)
        ensures
            r.component() == id,
            r.kind() == (ComponentKind { size: size as int, dependencies: dependencies@ }),
            forall|i: int| #[trigger] r.entry(i) is None,
            forall|i: int| #[trigger] r.unit(i) is None,
    {
        ComponentOffsetTable { id, size, dependencies, offsets: Vec::new(), units: Vec::new() }
    }

    /// The component that the table is for.
    pub fn id(&self) -> (r: ComponentId)
        ensures
            r == self.component(),
    {
        self.id
    }

    /// The size in bytes of the component.
    pub fn size(&self) -> (r: usize)
        ensures
            r == self.kind().size,
    {
        self.size
    }

    /// The components that every entity with this component must also have.
    pub fn dependencies(&self) -> (r: &Vec<ComponentId>)
        ensures
            r@ == self.kind().dependencies,
    {
        &self.dependencies
    }

    /// Find the offset of the component this manages offsets for relative to the
    /// data of the entity.
    pub fn offset_of(&self, entity: Entity) -> (r: Option<u16>)
        ensures
            r == self.entry(entity.index()),
    {
        let idx: usize = index_of(entity) as usize;
        // if the vector isn't long enough yet, that's a sure sign that
        // we haven't got an index for this entity.
        if idx < self.offsets.len() && self.offsets[idx] != CLEARED {
            Some(self.offsets[idx])
        } else {
            None
        }
    }

    /// Store the given offset for the entity given.
    pub fn set(&mut self, entity: Entity, offset: u16)
        requires
            offset <= MAX_OFFSET,
        ensures
            final(self).same_component(old(self)),
            forall|i: int| #[trigger]
                final(self).entry(i) == if i == entity.index() {
                    Some(offset)
                } else {
                    old(self).entry(i)
                },
            forall|i: int| #[trigger] final(self).unit(i) == old(self).unit(i),
    {
        let idx: usize = index_of(entity) as usize;
        self.ensure_capacity(idx);
        let ghost before = *self;
        self.offsets.set(idx, offset);
        assert forall|i: int| i != idx implies #[trigger] self.entry(i) == old(self).entry(i) by {
            assert(before.entry(i) == old(self).entry(i));
        }
    }

    /// Remove the offset for the entity given.
    pub fn remove(&mut self, entity: Entity) -> (r: Option<u16>)
        ensures
            r == old(self).entry(entity.index()),
            final(self).same_component(old(self)),
            forall|i: int| #[trigger]
                final(self).entry(i) == if i == entity.index() {
                    None
                } else {
                    old(self).entry(i)
                },
            forall|i: int| #[trigger] final(self).unit(i) == old(self).unit(i),
    {
        let idx: usize = index_of(entity) as usize;
        // don't bother extending the capacity if we don't even have
        // entries that far out.
        if idx < self.offsets.len() {
            let off: u16 = self.offsets[idx];
            self.offsets.set(idx, CLEARED);
            if off == CLEARED {
                None
            } else {
                Some(off)
            }
        } else {
            None
        }
    }

    // makes the table reach past `size`.
    fn ensure_capacity(&mut self, size: usize)
        ensures
            final(self).same_component(old(self)),
            final(self).units == old(self).units,
            size < final(self).offsets@.len(),
            forall|i: int| #[trigger] final(self).entry(i) == old(self).entry(i),
    {
        while self.offsets.len() <= size
            invariant
                self.same_component(old(self)),
                self.units == old(self).units,
                forall|i: int| #[trigger] self.entry(i) == old(self).entry(i),
            decreases size + 1 - self.offsets@.len(),
        {
            let ghost before = *self;
            self.offsets.push(CLEARED);
            assert forall|i: int| #[trigger] self.entry(i) == old(self).entry(i) by {
                assert(before.entry(i) == old(self).entry(i));
            }
        }
    }

    /// Keeps a value for the entity given, and returns the value that was there.
    pub fn set_unit(&mut self, entity: Entity, value: V) -> (r: Option<V>)
        ensures
            r == old(self).unit(entity.index()),
            final(self).same_component(old(self)),
            forall|i: int| #[trigger] final(self).entry(i) == old(self).entry(i),
            forall|i: int| #[trigger]
                final(self).unit(i) == if i == entity.index() {
                    Some(value)
                } else {
                    old(self).unit(i)
                },
    {
        let idx: usize = index_of(entity) as usize;
        while self.units.len() <= idx
            invariant
                self.same_component(old(self)),
                self.offsets == old(self).offsets,
                forall|i: int| #[trigger] self.unit(i) == old(self).unit(i),
            decreases idx + 1 - self.units@.len(),
        {
            let ghost before = *self;
            self.units.push(None);
            assert forall|i: int| #[trigger] self.unit(i) == old(self).unit(i) by {
                assert(before.unit(i) == old(self).unit(i));
            }
        }
        let ghost before = *self;
        let mut slot: Option<V> = Some(value);
        core::mem::swap(&mut self.units[idx], &mut slot);
        proof {
            assert(before.unit(idx as int) == old(self).unit(idx as int));
            assert forall|i: int| i != idx implies #[trigger] self.unit(i) == old(self).unit(i) by {
                assert(before.unit(i) == old(self).unit(i));
            }
        }
        slot
    }

    /// Gives back the value kept for the entity given.
    pub fn take_unit(&mut self, entity: Entity) -> (r: Option<V>)
        ensures
            r == old(self).unit(entity.index()),
            final(self).same_component(old(self)),
            forall|i: int| #[trigger] final(self).entry(i) == old(self).entry(i),
            forall|i: int| #[trigger]
                final(self).unit(i) == if i == entity.index() {
                    None
                } else {
                    old(self).unit(i)
                },
    {
        let idx: usize = index_of(entity) as usize;
        if idx < self.units.len() {
            let mut slot: Option<V> = None;
            core::mem::swap(&mut self.units[idx], &mut slot);
            slot
        } else {
            None
        }
    }

    /// Remove what the table holds for each entity in the list.
    pub fn clear_for(&mut self, entities: &Vec<Entity>)
        ensures
            final(self).same_component(old(self)),
            forall|i: int| #[trigger]
                final(self).entry(i) == if lists_slot(entities@, i) {
                    None
                } else {
                    old(self).entry(i)
                },
            forall|i: int| #[trigger]
                final(self).unit(i) == if lists_slot(entities@, i) {
                    None
                } else {
                    old(self).unit(i)
                },
    {
        let mut n: usize = 0;
        while n < entities.len()
            invariant
                n <= entities@.len(),
                self.same_component(old(self)),
                forall|i: int| #[trigger]
                    self.entry(i) == if lists_slot(entities@.take(n as int), i) {
                        None
                    } else {
                        old(self).entry(i)
                    },
                forall|i: int| #[trigger]
                    self.unit(i) == if lists_slot(entities@.take(n as int), i) {
                        None
                    } else {
                        old(self).unit(i)
                    },
            decreases entities@.len() - n,
        {
            let ghost before = *self;
            let e = entities[n];
            self.remove(e);
            let ghost between = *self;
            self.take_unit(e);
            proof {
                assert forall|i: int| #[trigger]
                    lists_slot(entities@.take(n + 1), i) == (lists_slot(entities@.take(n as int), i)
                        || i == e.index()) by {
                    let a = entities@.take(n as int);
                    let b = entities@.take(n + 1);
                    assert(b[n as int] == e);
                    if lists_slot(a, i) {
                        let k = choose|k: int| 0 <= k < a.len() && (#[trigger] a[k]).index() == i;
                        assert(b[k].index() == i);
                    }
                    if lists_slot(b, i) {
                        let k = choose|k: int| 0 <= k < b.len() && (#[trigger] b[k]).index() == i;
                        if k < n {
                            assert(a[k].index() == i);
                        }
                    }
                }
                assert forall|i: int| #[trigger]
                    self.entry(i) == if lists_slot(entities@.take(n + 1), i) {
                        None
                    } else {
                        old(self).entry(i)
                    } by {
                    assert(between.entry(i) == self.entry(i));
                    assert(before.entry(i) == before.entry(i));
                }
                assert forall|i: int| #[trigger]
                    self.unit(i) == if lists_slot(entities@.take(n + 1), i) {
                        None
                    } else {
                        old(self).unit(i)
                    } by {
                    assert(between.unit(i) == before.unit(i));
                }
            }
            n = n + 1;
        }
        assert(entities@.take(n as int) =~= entities@);
    }

    /// The value kept for the entity given.
    pub fn unit_of(&self, entity: Entity) -> (r: Option<&V>)
        ensures
            match r {
                Some(v) => self.unit(entity.index()) == Some(*v),
                None => self.unit(entity.index()) is None,
            },
    {
        let idx: usize = index_of(entity) as usize;
        if idx < self.units.len() {
            self.units[idx].as_ref()
        } else {
            None
        }
    }

    /// Access to the value kept for the entity given.
    pub fn unit_of_mut(&mut self, entity: Entity) -> (r: Option<&mut V>)
        ensures
            final(self).same_component(old(self)),
            forall|i: int| #[trigger] final(self).entry(i) == old(self).entry(i),
            match r {
                Some(v) => {
                    &&& old(self).unit(entity.index()) == Some(*v)
                    &&& forall|i: int| #[trigger]
                        final(self).unit(i) == if i == entity.index() {
                            Some(*final(v))
                        } else {
                            old(self).unit(i)
                        }
                },
                None => {
                    &&& old(self).unit(entity.index()) is None
                    &&& forall|i: int| #[trigger] final(self).unit(i) == old(self).unit(i)
                },
            },
    {
        let idx: usize = index_of(entity) as usize;
        if idx < self.units.len() {
            self.units[idx].as_mut()
        } else {
            None
        }
    }
}

/// Clearing a table for some entities removes what it holds for their slots, and leaves the rest.
pub proof fn law_clearing_leaves_other_slots<V>(entities: &Vec<Entity>)
    ensures
        forall|t: &mut ComponentOffsetTable<V>| #[trigger]
            call_ensures(ComponentOffsetTable::<V>::clear_for, (t, entities), ()) ==> {
                &&& forall|k: int|
                    0 <= k < entities@.len() ==> {
                        &&& final(t).entry((#[trigger] entities@[k]).index()) is None
                        &&& final(t).unit(entities@[k].index()) is None
                    }
                &&& forall|i: int|
                    (forall|k: int| 0 <= k < entities@.len() ==> (#[trigger] entities@[k]).index() != i)
                        ==> #[trigger] final(t).entry(i) == t.entry(i)
                &&& forall|i: int|
                    (forall|k: int| 0 <= k < entities@.len() ==> (#[trigger] entities@[k]).index() != i)
                        ==> #[trigger] final(t).unit(i) == t.unit(i)
            },
{
    assert forall|t: &mut ComponentOffsetTable<V>| #[trigger]
        call_ensures(ComponentOffsetTable::<V>::clear_for, (t, entities), ()) implies forall|k: int|
        0 <= k < entities@.len() ==> {
            &&& final(t).entry((#[trigger] entities@[k]).index()) is None
            &&& final(t).unit(entities@[k].index()) is None
        } by {
        assert forall|k: int| 0 <= k < entities@.len() implies {
            &&& final(t).entry((#[trigger] entities@[k]).index()) is None
            &&& final(t).unit(entities@[k].index()) is None
        } by {
            assert(lists_slot(entities@, entities@[k].index()));
        }
    }
}

/// An offset that is stored for an entity is found until it is removed or stored anew, and storing
/// it changes nothing for other slots.
pub proof fn law_stored_offsets_are_found<V>(e: Entity, x: Entity, offset: u16, r: Option<u16>)
    ensures
        forall|t: &mut ComponentOffsetTable<V>|
            #[trigger] call_ensures(ComponentOffsetTable::<V>::set, (t, e, offset), ())
                && call_ensures(
                ComponentOffsetTable::<V>::offset_of,
                (&*final(t), x),
                r,
            ) ==> (if x.index() == e.index() {
                r == Some(offset)
            } else {
                r == t.entry(x.index())
            }),
{
}

} // verus!
